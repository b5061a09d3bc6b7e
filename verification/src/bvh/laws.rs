//! What holds of the tree and of its queries as a whole.

use crate::bvh::kdop::{contains_bv, hi, lo, overlaps, HULL_EMPTY};
use crate::bvh::overlap::{max_axis, meet, meet_left, meet_right, min_axis};
use crate::bvh::store::arena_slots;
use crate::bvh::BVHTree;
use vstd::prelude::*;

verus! {

/// `keep` with its two arguments exchanged.
pub open spec fn flipped<E: Copy>(keep: spec_fn(E, E) -> bool) -> spec_fn(E, E) -> bool {
    |x: E, y: E| keep(y, x)
}

impl<E: Copy> BVHTree<E> {
    /// Whether the leaf in slot `s` is the node in slot `n` or lies under
    /// it.
    pub open spec fn reaches(&self, n: int, s: int) -> bool
        decreases self.rank(n),
    {
        if self.node(n).totnode == 0 {
            n == s
        } else {
            exists|k: int|
                0 <= k < self.node(n).totnode && self.rank(
                    #[trigger] self.node(n).children@[k] as int,
                ) < self.rank(n) && self.reaches(self.node(n).children@[k] as int, s)
        }
    }

    /// Whether every leaf lies under the root.
    pub open spec fn spanning(&self) -> bool {
        forall|l: int| 0 <= l < self.totleaf ==> #[trigger] self.reaches(self.root(), l)
    }

    /// Which leaves lie under a node depends only on the children of the
    /// nodes.
    pub proof fn lemma_reaches_same(&self, other: &Self, n: int, l: int)
        requires
            self.totleaf == other.totleaf,
            self.nodes@.len() == other.nodes@.len(),
            forall|s: int|
                #![trigger self.node(s)]
                #![trigger other.node(s)]
                self.node(s).totnode == other.node(s).totnode && self.node(s).children@
                    == other.node(s).children@,
        ensures
            self.reaches(n, l) == other.reaches(n, l),
        decreases self.rank(n),
    {
        assert(self.node(n).totnode == other.node(n).totnode);
        assert(self.node(n).children@ == other.node(n).children@);
        if self.node(n).totnode != 0 {
            assert forall|k: int| 0 <= k < self.node(n).totnode implies (self.rank(
                #[trigger] self.node(n).children@[k] as int,
            ) < self.rank(n) && self.reaches(self.node(n).children@[k] as int, l)) == (other.rank(
                other.node(n).children@[k] as int,
            ) < other.rank(n) && other.reaches(other.node(n).children@[k] as int, l)) by {
                let c = self.node(n).children@[k] as int;
                if self.rank(c) < self.rank(n) {
                    self.lemma_reaches_same(other, c, l);
                }
            }
            if self.reaches(n, l) {
                let k = choose|k: int|
                    0 <= k < self.node(n).totnode && self.rank(
                        #[trigger] self.node(n).children@[k] as int,
                    ) < self.rank(n) && self.reaches(self.node(n).children@[k] as int, l);
                assert(other.rank(other.node(n).children@[k] as int) < other.rank(n));
                assert(other.reaches(other.node(n).children@[k] as int, l));
            }
            if other.reaches(n, l) {
                let k = choose|k: int|
                    0 <= k < other.node(n).totnode && other.rank(
                        #[trigger] other.node(n).children@[k] as int,
                    ) < other.rank(n) && other.reaches(other.node(n).children@[k] as int, l);
                assert(self.rank(self.node(n).children@[k] as int) < self.rank(n));
                assert(self.reaches(self.node(n).children@[k] as int, l));
            }
        }
    }

    /// In a well-formed tree, the volume of a node contains the volume of
    /// every leaf under it, on every active axis: containment holds from
    /// each inner node down to the leaves, and so from the root.
    pub proof fn law_contains_leaves(&self, n: int, s: int)
        requires
            self.wf(),
            self.in_tree(n),
            self.reaches(n, s),
        ensures
            0 <= s < self.totleaf,
            contains_bv(self.bv(n), self.bv(s), self.start_axis as int, self.stop_axis as int),
        decreases self.rank(n),
    {
        if self.node(n).totnode == 0 {
            self.lemma_leaf(n);
        } else {
            self.lemma_branch(n);
            let k = choose|k: int|
                0 <= k < self.node(n).totnode && self.rank(
                    #[trigger] self.node(n).children@[k] as int,
                ) < self.rank(n) && self.reaches(self.node(n).children@[k] as int, s);
            let c = self.node(n).children@[k] as int;
            self.lemma_child(n, k);
            self.law_contains_leaves(c, s);
            assert(contains_bv(
                self.bv(n),
                self.bv(c),
                self.start_axis as int,
                self.stop_axis as int,
            ));
            let outer = self.bv(n);
            let mid = self.bv(c);
            let inner = self.bv(s);
            assert forall|a: int|
                #![trigger lo(outer, a)]
                #![trigger hi(outer, a)]
                #![trigger lo(inner, a)]
                #![trigger hi(inner, a)]
                self.start_axis <= a < self.stop_axis implies lo(outer, a) <= lo(inner, a) && hi(
                inner,
                a,
            ) <= hi(outer, a) by {
                assert(lo(outer, a) <= lo(mid, a) && hi(mid, a) <= hi(outer, a));
                assert(lo(mid, a) <= lo(inner, a) && hi(inner, a) <= hi(mid, a));
            }
        }
    }
}

/// Volumes that contain two volumes that meet, meet.
pub proof fn lemma_overlap_up(
    outer1: Seq<i64>,
    inner1: Seq<i64>,
    outer2: Seq<i64>,
    inner2: Seq<i64>,
    start: int,
    stop: int,
)
    requires
        contains_bv(outer1, inner1, start, stop),
        contains_bv(outer2, inner2, start, stop),
        overlaps(inner1, inner2, start, stop),
    ensures
        overlaps(outer1, outer2, start, stop),
{
    assert forall|x: int|
        #![trigger lo(outer1, x)]
        #![trigger hi(outer1, x)]
        #![trigger lo(outer2, x)]
        #![trigger hi(outer2, x)]
        start <= x < stop implies !(lo(outer1, x) > hi(outer2, x) || lo(outer2, x) > hi(
        outer1,
        x,
    )) by {
        assert(lo(outer1, x) <= lo(inner1, x) && hi(inner1, x) <= hi(outer1, x));
        assert(lo(outer2, x) <= lo(inner2, x) && hi(inner2, x) <= hi(outer2, x));
        assert(!(lo(inner1, x) > hi(inner2, x) || lo(inner2, x) > hi(inner1, x)));
    }
}

/// A volume that contains another on a range of axes contains it on every
/// part of the range.
pub proof fn lemma_contains_part(
    outer: Seq<i64>,
    inner: Seq<i64>,
    start: int,
    stop: int,
    from: int,
    to: int,
)
    requires
        contains_bv(outer, inner, start, stop),
        start <= from,
        to <= stop,
    ensures
        contains_bv(outer, inner, from, to),
{
    assert forall|a: int|
        #![trigger lo(outer, a)]
        #![trigger hi(outer, a)]
        #![trigger lo(inner, a)]
        #![trigger hi(inner, a)]
        from <= a < to implies lo(outer, a) <= lo(inner, a) && hi(inner, a) <= hi(outer, a) by {
        assert(lo(outer, a) <= lo(inner, a) && hi(inner, a) <= hi(outer, a));
    }
}

/// Whether two volumes meet does not depend on their order.
pub proof fn lemma_overlaps_symmetric(a: Seq<i64>, b: Seq<i64>, start: int, stop: int)
    ensures
        overlaps(a, b, start, stop) == overlaps(b, a, start, stop),
{
    if overlaps(a, b, start, stop) {
        assert forall|x: int|
            #![trigger lo(b, x)]
            #![trigger hi(b, x)]
            #![trigger lo(a, x)]
            #![trigger hi(a, x)]
            start <= x < stop implies !(lo(b, x) > hi(a, x) || lo(a, x) > hi(b, x)) by {
            assert(!(lo(a, x) > hi(b, x) || lo(b, x) > hi(a, x)));
        }
    }
    if overlaps(b, a, start, stop) {
        assert forall|x: int|
            #![trigger lo(b, x)]
            #![trigger hi(b, x)]
            #![trigger lo(a, x)]
            #![trigger hi(a, x)]
            start <= x < stop implies !(lo(a, x) > hi(b, x) || lo(b, x) > hi(a, x)) by {
            assert(!(lo(b, x) > hi(a, x) || lo(a, x) > hi(b, x)));
        }
    }
}

/// Whether the walk down from `s1` and `s2` should report the leaves `x`
/// and `y`: they lie under the two nodes, are not one leaf (the same slot
/// where `same` says that `b` is the very tree `a`), their volumes meet,
/// and `keep` accepts their elements.
pub open spec fn due<E: Copy>(
    a: &BVHTree<E>,
    b: &BVHTree<E>,
    s1: int,
    s2: int,
    start: int,
    stop: int,
    same: bool,
    keep: spec_fn(E, E) -> bool,
    x: int,
    y: int,
) -> bool {
    &&& a.reaches(s1, x)
    &&& b.reaches(s2, y)
    &&& !(same && x == y)
    &&& overlaps(a.bv(x), b.bv(y), start, stop)
    &&& keep(a.elem_at(x), b.elem_at(y))
}

/// The walk reports exactly the pairs of leaves that are due.
pub proof fn lemma_meet_is_due<E: Copy>(
    a: &BVHTree<E>,
    b: &BVHTree<E>,
    s1: int,
    s2: int,
    start: int,
    stop: int,
    same: bool,
    keep: spec_fn(E, E) -> bool,
    x: int,
    y: int,
)
    requires
        a.wf(),
        b.wf(),
        a.in_tree(s1),
        b.in_tree(s2),
        a.start_axis <= start,
        b.start_axis <= start,
        stop <= a.stop_axis,
        stop <= b.stop_axis,
    ensures
        meet(a, b, s1, s2, start, stop, same, keep).contains((x, y)) == due(
            a,
            b,
            s1,
            s2,
            start,
            stop,
            same,
            keep,
            x,
            y,
        ),
    decreases a.rank(s1) + b.rank(s2), 1nat, 0nat,
{
    let found = meet(a, b, s1, s2, start, stop, same, keep);
    if !overlaps(a.bv(s1), b.bv(s2), start, stop) {
        assert(!found.contains((x, y)));
        if due(a, b, s1, s2, start, stop, same, keep, x, y) {
            a.law_contains_leaves(s1, x);
            b.law_contains_leaves(s2, y);
            lemma_contains_part(
                a.bv(s1),
                a.bv(x),
                a.start_axis as int,
                a.stop_axis as int,
                start,
                stop,
            );
            lemma_contains_part(
                b.bv(s2),
                b.bv(y),
                b.start_axis as int,
                b.stop_axis as int,
                start,
                stop,
            );
            lemma_overlap_up(a.bv(s1), a.bv(x), b.bv(s2), b.bv(y), start, stop);
        }
    } else if a.node(s1).totnode == 0 {
        if b.node(s2).totnode == 0 {
            if (same && s1 == s2) || !keep(a.elem_at(s1), b.elem_at(s2)) {
                assert(!found.contains((x, y)));
            } else {
                assert(found[0] == (s1, s2));
                if x == s1 && y == s2 {
                    assert(found.contains((x, y)));
                }
                if found.contains((x, y)) {
                    let i = choose|i: int| 0 <= i < found.len() && found[i] == (x, y);
                    assert(i == 0);
                }
            }
        } else {
            b.lemma_branch(s2);
            lemma_meet_right_is_due(
                a,
                b,
                s1,
                s2,
                b.node(s2).totnode as nat,
                start,
                stop,
                same,
                keep,
                x,
                y,
            );
            if due(a, b, s1, s2, start, stop, same, keep, x, y) {
                let k = choose|k: int|
                    0 <= k < b.node(s2).totnode && b.rank(
                        #[trigger] b.node(s2).children@[k] as int,
                    ) < b.rank(s2) && b.reaches(b.node(s2).children@[k] as int, y);
                assert(due(a, b, s1, b.node(s2).children@[k] as int, start, stop, same, keep, x, y));
            }
            if found.contains((x, y)) {
                let j = choose|j: int|
                    0 <= j < b.node(s2).totnode && #[trigger] due(
                        a,
                        b,
                        s1,
                        b.node(s2).children@[j] as int,
                        start,
                        stop,
                        same,
                        keep,
                        x,
                        y,
                    );
                b.lemma_child(s2, j);
                assert(b.reaches(s2, y));
            }
        }
    } else {
        a.lemma_branch(s1);
        lemma_meet_left_is_due(
            a,
            b,
            s1,
            s2,
            a.node(s1).totnode as nat,
            start,
            stop,
            same,
            keep,
            x,
            y,
        );
        if due(a, b, s1, s2, start, stop, same, keep, x, y) {
            let k = choose|k: int|
                0 <= k < a.node(s1).totnode && a.rank(#[trigger] a.node(s1).children@[k] as int)
                    < a.rank(s1) && a.reaches(a.node(s1).children@[k] as int, x);
            assert(due(a, b, a.node(s1).children@[k] as int, s2, start, stop, same, keep, x, y));
        }
        if found.contains((x, y)) {
            let j = choose|j: int|
                0 <= j < a.node(s1).totnode && #[trigger] due(
                    a,
                    b,
                    a.node(s1).children@[j] as int,
                    s2,
                    start,
                    stop,
                    same,
                    keep,
                    x,
                    y,
                );
            a.lemma_child(s1, j);
            assert(a.reaches(s1, x));
        }
    }
}

/// Under the first `k` children of `s1`, the walk reports exactly the
/// pairs that are due under one of them.
pub proof fn lemma_meet_left_is_due<E: Copy>(
    a: &BVHTree<E>,
    b: &BVHTree<E>,
    s1: int,
    s2: int,
    k: nat,
    start: int,
    stop: int,
    same: bool,
    keep: spec_fn(E, E) -> bool,
    x: int,
    y: int,
)
    requires
        a.wf(),
        b.wf(),
        a.totleaf <= s1 < a.totleaf + a.branches(),
        b.in_tree(s2),
        k <= a.node(s1).totnode,
        a.start_axis <= start,
        b.start_axis <= start,
        stop <= a.stop_axis,
        stop <= b.stop_axis,
    ensures
        meet_left(a, b, s1, s2, k, start, stop, same, keep).contains((x, y)) == exists|j: int|
            0 <= j < k && #[trigger] due(
                a,
                b,
                a.node(s1).children@[j] as int,
                s2,
                start,
                stop,
                same,
                keep,
                x,
                y,
            ),
    decreases a.rank(s1) + b.rank(s2), 0nat, k,
{
    if k > 0 {
        let c = a.node(s1).children@[k - 1] as int;
        let first = meet_left(a, b, s1, s2, (k - 1) as nat, start, stop, same, keep);
        let last = meet(a, b, c, s2, start, stop, same, keep);
        a.lemma_child(s1, k - 1);
        lemma_meet_left_is_due(a, b, s1, s2, (k - 1) as nat, start, stop, same, keep, x, y);
        lemma_meet_is_due(a, b, c, s2, start, stop, same, keep, x, y);
        assert(meet_left(a, b, s1, s2, k, start, stop, same, keep) == first + last);
        lemma_contains_either(first, last, (x, y));
        if exists|j: int|
            0 <= j < k && #[trigger] due(
                a,
                b,
                a.node(s1).children@[j] as int,
                s2,
                start,
                stop,
                same,
                keep,
                x,
                y,
            ) {
            let j = choose|j: int|
                0 <= j < k && #[trigger] due(
                    a,
                    b,
                    a.node(s1).children@[j] as int,
                    s2,
                    start,
                    stop,
                    same,
                    keep,
                    x,
                    y,
                );
            if j < k - 1 {
                assert(first.contains((x, y)));
            } else {
                assert(last.contains((x, y)));
            }
        }
        if first.contains((x, y)) {
            let j = choose|j: int|
                0 <= j < k - 1 && #[trigger] due(
                    a,
                    b,
                    a.node(s1).children@[j] as int,
                    s2,
                    start,
                    stop,
                    same,
                    keep,
                    x,
                    y,
                );
            assert(0 <= j < k);
        }
        if last.contains((x, y)) {
            assert(due(a, b, a.node(s1).children@[k - 1] as int, s2, start, stop, same, keep, x, y));
        }
    } else {
        assert(!meet_left(a, b, s1, s2, k, start, stop, same, keep).contains((x, y)));
    }
}

/// For the leaf `s1` against the first `k` children of `s2`, the walk
/// reports exactly the pairs that are due under one of them.
pub proof fn lemma_meet_right_is_due<E: Copy>(
    a: &BVHTree<E>,
    b: &BVHTree<E>,
    s1: int,
    s2: int,
    k: nat,
    start: int,
    stop: int,
    same: bool,
    keep: spec_fn(E, E) -> bool,
    x: int,
    y: int,
)
    requires
        a.wf(),
        b.wf(),
        a.in_tree(s1),
        b.totleaf <= s2 < b.totleaf + b.branches(),
        k <= b.node(s2).totnode,
        a.start_axis <= start,
        b.start_axis <= start,
        stop <= a.stop_axis,
        stop <= b.stop_axis,
    ensures
        meet_right(a, b, s1, s2, k, start, stop, same, keep).contains((x, y)) == exists|j: int|
            0 <= j < k && #[trigger] due(
                a,
                b,
                s1,
                b.node(s2).children@[j] as int,
                start,
                stop,
                same,
                keep,
                x,
                y,
            ),
    decreases a.rank(s1) + b.rank(s2), 0nat, k,
{
    if k > 0 {
        let c = b.node(s2).children@[k - 1] as int;
        let first = meet_right(a, b, s1, s2, (k - 1) as nat, start, stop, same, keep);
        let last = meet(a, b, s1, c, start, stop, same, keep);
        b.lemma_child(s2, k - 1);
        lemma_meet_right_is_due(a, b, s1, s2, (k - 1) as nat, start, stop, same, keep, x, y);
        lemma_meet_is_due(a, b, s1, c, start, stop, same, keep, x, y);
        assert(meet_right(a, b, s1, s2, k, start, stop, same, keep) == first + last);
        lemma_contains_either(first, last, (x, y));
        if exists|j: int|
            0 <= j < k && #[trigger] due(
                a,
                b,
                s1,
                b.node(s2).children@[j] as int,
                start,
                stop,
                same,
                keep,
                x,
                y,
            ) {
            let j = choose|j: int|
                0 <= j < k && #[trigger] due(
                    a,
                    b,
                    s1,
                    b.node(s2).children@[j] as int,
                    start,
                    stop,
                    same,
                    keep,
                    x,
                    y,
                );
            if j < k - 1 {
                assert(first.contains((x, y)));
            } else {
                assert(last.contains((x, y)));
            }
        }
        if first.contains((x, y)) {
            let j = choose|j: int|
                0 <= j < k - 1 && #[trigger] due(
                    a,
                    b,
                    s1,
                    b.node(s2).children@[j] as int,
                    start,
                    stop,
                    same,
                    keep,
                    x,
                    y,
                );
            assert(0 <= j < k);
        }
        if last.contains((x, y)) {
            assert(due(a, b, s1, b.node(s2).children@[k - 1] as int, start, stop, same, keep, x, y));
        }
    } else {
        assert(!meet_right(a, b, s1, s2, k, start, stop, same, keep).contains((x, y)));
    }
}

/// What is in two sequences joined is in one of them.
pub proof fn lemma_contains_either(first: Seq<(int, int)>, last: Seq<(int, int)>, p: (int, int))
    ensures
        (first + last).contains(p) == (first.contains(p) || last.contains(p)),
{
    let both = first + last;
    if both.contains(p) {
        let i = choose|i: int| 0 <= i < both.len() && both[i] == p;
        if i < first.len() {
            assert(first[i] == p);
        } else {
            assert(last[i - first.len()] == p);
        }
    }
    if first.contains(p) {
        let i = choose|i: int| 0 <= i < first.len() && first[i] == p;
        assert(both[i] == p);
    }
    if last.contains(p) {
        let i = choose|i: int| 0 <= i < last.len() && last[i] == p;
        assert(both[first.len() + i] == p);
    }
}

/// A tree tested against itself reports no leaf against itself.
pub proof fn law_overlap_excludes_self<E: Copy>(tree: &BVHTree<E>, keep: spec_fn(E, E) -> bool, i: int)
    requires
        tree.wf(),
        tree.ready(),
        0 <= i < tree.overlap_slots(tree, true, keep).len(),
    ensures
        tree.overlap_slots(tree, true, keep)[i].0 != tree.overlap_slots(tree, true, keep)[i].1,
{
    let found = tree.overlap_slots(tree, true, keep);
    let p = found[i];
    assert(found.contains(p));
    lemma_meet_is_due(
        tree,
        tree,
        tree.root(),
        tree.root(),
        max_axis(tree.start_axis, tree.start_axis),
        min_axis(tree.stop_axis, tree.stop_axis),
        true,
        keep,
        p.0,
        p.1,
    );
}

/// Testing `a` against `b` and `b` against `a` report the same pairs of
/// leaves, each with its sides exchanged, where the one test keeps a pair
/// of elements whenever the other keeps the pair exchanged.
pub proof fn law_overlap_symmetric<E: Copy>(
    a: &BVHTree<E>,
    b: &BVHTree<E>,
    same: bool,
    keep: spec_fn(E, E) -> bool,
    x: int,
    y: int,
)
    requires
        a.wf(),
        b.wf(),
        a.ready(),
        b.ready(),
    ensures
        a.overlap_slots(b, same, keep).contains((x, y)) == b.overlap_slots(
            a,
            same,
            flipped(keep),
        ).contains((y, x)),
{
    if a.totleaf > 0 && b.totleaf > 0 {
        let start = max_axis(a.start_axis, b.start_axis);
        let stop = min_axis(a.stop_axis, b.stop_axis);
        assert(start == max_axis(b.start_axis, a.start_axis));
        assert(stop == min_axis(b.stop_axis, a.stop_axis));
        lemma_meet_is_due(a, b, a.root(), b.root(), start, stop, same, keep, x, y);
        lemma_meet_is_due(b, a, b.root(), a.root(), start, stop, same, flipped(keep), y, x);
        lemma_overlaps_symmetric(a.bv(x), b.bv(y), start, stop);
    }
}

impl<E: Copy> BVHTree<E> {
    /// In a tree whose inner nodes each have the union of the volumes of
    /// their children, as after `balance` and after `update_tree`, the
    /// volume of an inner node is the union of the volumes of the leaves
    /// under it: on every active axis it contains each of them, and each
    /// of its ends is that of a leaf under it, or of the empty interval.
    pub proof fn law_union_of_leaves(&self, n: int, a: int)
        requires
            self.wf(),
            self.totleaf <= n < self.totleaf + self.branches(),
            forall|s: int|
                self.totleaf <= s < self.totleaf + self.branches() ==> #[trigger] self.joined(s),
            self.start_axis <= a < self.stop_axis,
        ensures
            self.snug(n, a),
            forall|l: int| #[trigger]
                self.reaches(n, l) ==> lo(self.bv(n), a) <= lo(self.bv(l), a) && hi(self.bv(l), a)
                    <= hi(self.bv(n), a),
        decreases self.rank(n),
    {
        let slots = arena_slots(self.node_array);
        let kids = self.children_of(n);
        assert(self.in_tree(n));
        assert forall|l: int| #[trigger] self.reaches(n, l) implies lo(self.bv(n), a) <= lo(
            self.bv(l),
            a,
        ) && hi(self.bv(l), a) <= hi(self.bv(n), a) by {
            self.law_contains_leaves(n, l);
        }
        assert(self.joined(n));
        self.lemma_branch_from_child(n);
        self.lemma_branch(n);
        crate::bvh::construct::lemma_union_bounds(slots, kids, a);
        assert(lo(self.bv(n), a) == crate::bvh::construct::union_lo(slots, kids, a));
        assert(hi(self.bv(n), a) == crate::bvh::construct::union_hi(slots, kids, a));
        if lo(self.bv(n), a) != HULL_EMPTY {
            let p = choose|p: int|
                0 <= p < kids.len() && crate::bvh::construct::union_lo(slots, kids, a) == lo(
                    slots[#[trigger] kids[p] as int].bv@,
                    a,
                );
            let c = self.node(n).children@[p] as int;
            assert(kids[p] == c);
            self.lemma_child(n, p);
            if self.node(c).totnode == 0 {
                self.lemma_leaf(c);
                assert(self.reaches(c, c));
                assert(self.reaches(n, c));
            } else {
                self.lemma_branch(c);
                self.law_union_of_leaves(c, a);
                let l = choose|l: int|
                    0 <= l < self.totleaf && #[trigger] self.reaches(c, l) && lo(self.bv(c), a)
                        == lo(self.bv(l), a);
                assert(self.reaches(n, l));
            }
        }
        if hi(self.bv(n), a) != -HULL_EMPTY {
            let p = choose|p: int|
                0 <= p < kids.len() && crate::bvh::construct::union_hi(slots, kids, a) == hi(
                    slots[#[trigger] kids[p] as int].bv@,
                    a,
                );
            let c = self.node(n).children@[p] as int;
            assert(kids[p] == c);
            self.lemma_child(n, p);
            if self.node(c).totnode == 0 {
                self.lemma_leaf(c);
                assert(self.reaches(c, c));
                assert(self.reaches(n, c));
            } else {
                self.lemma_branch(c);
                self.law_union_of_leaves(c, a);
                let l = choose|l: int|
                    0 <= l < self.totleaf && #[trigger] self.reaches(c, l) && hi(self.bv(c), a)
                        == hi(self.bv(l), a);
                assert(self.reaches(n, l));
            }
        }
    }
}

/// After `balance`, the tree is well-formed: the volume of every inner
/// node contains the volume of each of its children, on every active axis.
pub proof fn law_balanced_contains_children<E: Copy>(tree: &BVHTree<E>, s: int, k: int)
    requires
        tree.wf(),
        tree.totleaf <= s < tree.totleaf + tree.branches(),
        0 <= k < tree.node(s).totnode,
    ensures
        contains_bv(
            tree.bv(s),
            tree.bv(tree.node(s).children@[k] as int),
            tree.start_axis as int,
            tree.stop_axis as int,
        ),
{
}

/// Testing `a` against `b` reports every pair of a leaf of `a` and a leaf
/// of `b` whose volumes meet and whose elements `keep` accepts, and
/// nothing else; only where `b` is the very tree `a`, as `same` says, a
/// leaf is not reported against itself. The volumes are held against
/// each other on the axes that are active in both trees.
pub proof fn law_overlap_finds_all<E: Copy>(
    a: &BVHTree<E>,
    b: &BVHTree<E>,
    same: bool,
    keep: spec_fn(E, E) -> bool,
    x: int,
    y: int,
)
    requires
        a.wf(),
        b.wf(),
        a.ready(),
        b.ready(),
        a.spanning(),
        b.spanning(),
    ensures
        a.overlap_slots(b, same, keep).contains((x, y)) == (0 <= x < a.totleaf && 0 <= y < b.totleaf
            && !(same && x == y) && overlaps(
            a.bv(x),
            b.bv(y),
            max_axis(a.start_axis, b.start_axis),
            min_axis(a.stop_axis, b.stop_axis),
        ) && keep(a.elem_at(x), b.elem_at(y))),
{
    let start = max_axis(a.start_axis, b.start_axis);
    let stop = min_axis(a.stop_axis, b.stop_axis);
    if a.totleaf > 0 && b.totleaf > 0 {
        lemma_meet_is_due(a, b, a.root(), b.root(), start, stop, same, keep, x, y);
        if a.reaches(a.root(), x) {
            a.law_contains_leaves(a.root(), x);
        }
        if b.reaches(b.root(), y) {
            b.law_contains_leaves(b.root(), y);
        }
        if 0 <= x < a.totleaf {
            assert(a.reaches(a.root(), x));
        }
        if 0 <= y < b.totleaf {
            assert(b.reaches(b.root(), y));
        }
    }
}

} // verus!
