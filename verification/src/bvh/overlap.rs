//! Pairs of leaves of two trees whose bounding volumes meet.

use crate::bvh::kdop::{
    first_axis, fits, overlap_test, overlaps, KDOP_AXES,
};
use crate::bvh::store::{arena_get, arena_len, arena_slots, UNKNOWN};
use crate::vector::Vec3;
use crate::bvh::{BVHTree, BVHTreeOverlap};
use vstd::prelude::*;

verus! {

impl<E: Copy> BVHTree<E> {
    /// How far the node in slot `s` is from the end of the slots, for an
    /// inner node; zero for every other slot. A child ranks below its
    /// parent.
    pub open spec fn rank(&self, s: int) -> nat {
        if self.totleaf <= s < self.nodes@.len() {
            (self.nodes@.len() - s) as nat
        } else {
            0
        }
    }

    /// The element of the leaf in slot `s`.
    pub open spec fn elem_at(&self, s: int) -> E {
        self.elems@[self.node(s).elem_index.unwrap() as int]
    }

    /// Whether slot `s` holds a node of the built tree: a leaf or an inner
    /// node.
    pub open spec fn in_tree(&self, s: int) -> bool {
        0 <= s < self.totleaf + self.branches()
    }

    /// In a structured tree, a child of an inner node is a node of the
    /// tree and ranks below its parent.
    pub proof fn lemma_child(&self, s: int, k: int)
        requires
            self.structured(),
            self.totleaf <= s < self.totleaf + self.branches(),
            0 <= k < self.node(s).totnode,
        ensures
            self.in_tree(self.node(s).children@[k] as int),
            self.rank(self.node(s).children@[k] as int) < self.rank(s),
            arena_slots(self.node_array).dom().contains(self.node(s).children@[k] as int),
            k < self.node(s).children@.len(),
    {
        assert(self.branch_shape(s, self.branches()));
        assert(self.shape_ok(s));
        assert(self.child_placed(s, self.node(s).children@[k] as int, self.branches()));
    }
}

/// The pairs of leaves, one under the node `s1` of `a` and one under the
/// node `s2` of `b`, that a walk down both trees reports, in the order of
/// the walk: the walk goes on only where the volumes of the two nodes meet
/// on the axes `start..stop`, descends `a` before `b`, and reports two
/// leaves unless `keep` turns their elements down, or the two are the
/// same leaf: `same` says that `b` is the very tree `a`, and then two
/// leaves in the same slot are one.
pub open spec fn meet<E: Copy>(
    a: &BVHTree<E>,
    b: &BVHTree<E>,
    s1: int,
    s2: int,
    start: int,
    stop: int,
    same: bool,
    keep: spec_fn(E, E) -> bool,
) -> Seq<(int, int)>
    decreases a.rank(s1) + b.rank(s2), 1nat, 0nat,
{
    if !overlaps(a.bv(s1), b.bv(s2), start, stop) {
        Seq::empty()
    } else if a.node(s1).totnode == 0 {
        if b.node(s2).totnode == 0 {
            if (same && s1 == s2) || !keep(a.elem_at(s1), b.elem_at(s2)) {
                Seq::empty()
            } else {
                seq![(s1, s2)]
            }
        } else {
            meet_right(a, b, s1, s2, b.node(s2).totnode as nat, start, stop, same, keep)
        }
    } else {
        meet_left(a, b, s1, s2, a.node(s1).totnode as nat, start, stop, same, keep)
    }
}

/// What the walk reports under the first `k` children of `s1`, against
/// `s2`.
pub open spec fn meet_left<E: Copy>(
    a: &BVHTree<E>,
    b: &BVHTree<E>,
    s1: int,
    s2: int,
    k: nat,
    start: int,
    stop: int,
    same: bool,
    keep: spec_fn(E, E) -> bool,
) -> Seq<(int, int)>
    decreases a.rank(s1) + b.rank(s2), 0nat, k,
{
    if k == 0 {
        Seq::empty()
    } else {
        let c = a.node(s1).children@[k - 1] as int;
        meet_left(a, b, s1, s2, (k - 1) as nat, start, stop, same, keep) + if a.rank(c) < a.rank(s1) {
            meet(a, b, c, s2, start, stop, same, keep)
        } else {
            Seq::empty()
        }
    }
}

/// What the walk reports for the leaf `s1` against the first `k` children
/// of `s2`.
pub open spec fn meet_right<E: Copy>(
    a: &BVHTree<E>,
    b: &BVHTree<E>,
    s1: int,
    s2: int,
    k: nat,
    start: int,
    stop: int,
    same: bool,
    keep: spec_fn(E, E) -> bool,
) -> Seq<(int, int)>
    decreases a.rank(s1) + b.rank(s2), 0nat, k,
{
    if k == 0 {
        Seq::empty()
    } else {
        let c = b.node(s2).children@[k - 1] as int;
        meet_right(a, b, s1, s2, (k - 1) as nat, start, stop, same, keep) + if b.rank(c) < b.rank(s2) {
            meet(a, b, s1, c, start, stop, same, keep)
        } else {
            Seq::empty()
        }
    }
}

/// The elements of the leaves of each pair of `slots`.
pub open spec fn reported<E: Copy>(a: &BVHTree<E>, b: &BVHTree<E>, slots: Seq<(int, int)>) -> Seq<
    (E, E),
> {
    Seq::new(slots.len(), |i: int| (a.elem_at(slots[i].0), b.elem_at(slots[i].1)))
}

/// The two elements of each pair of `found`.
pub open spec fn pairs<E: Copy>(found: Seq<BVHTreeOverlap<E>>) -> Seq<(E, E)> {
    Seq::new(found.len(), |i: int| (found[i].index_1, found[i].index_2))
}

/// Whether `f` can be called on every pair of elements.
pub open spec fn answers<E: Copy, F: Fn(E, E) -> bool>(f: F) -> bool {
    forall|x: E, y: E| call_requires(f, (x, y))
}

/// Whether `f` accepts exactly the pairs that `keep` accepts.
pub open spec fn decides<E: Copy, F: Fn(E, E) -> bool>(f: F, keep: spec_fn(E, E) -> bool) -> bool {
    forall|x: E, y: E, r: bool| call_ensures(f, (x, y), r) ==> r == keep(x, y)
}

/// The pairs of elements that `overlap` has returned.
pub open spec fn found_pairs<E: Copy>(r: Option<Vec<BVHTreeOverlap<E>>>) -> Seq<(E, E)> {
    if r.is_some() {
        pairs(r.unwrap()@)
    } else {
        Seq::empty()
    }
}

/// Whether `pair` holds the elements of the leaves `x` under `s1` and `y`
/// under `s2`, which are not one leaf (the same slot where `same` says
/// that `b` is the very tree `a`) and whose volumes meet, and `f` has
/// accepted the pair.
pub open spec fn told<E: Copy, F: Fn(E, E) -> bool>(
    a: &BVHTree<E>,
    b: &BVHTree<E>,
    s1: int,
    s2: int,
    start: int,
    stop: int,
    same: bool,
    f: F,
    x: int,
    y: int,
    pair: (E, E),
) -> bool {
    &&& a.reaches(s1, x)
    &&& b.reaches(s2, y)
    &&& !(same && x == y)
    &&& overlaps(a.bv(x), b.bv(y), start, stop)
    &&& pair == (a.elem_at(x), b.elem_at(y))
    &&& call_ensures(f, pair, true)
}

/// Whether `after` is `before` with pairs added, each of two leaves under
/// `s1` and `s2` whose volumes meet and which `f` has accepted.
pub open spec fn added<E: Copy, F: Fn(E, E) -> bool>(
    a: &BVHTree<E>,
    b: &BVHTree<E>,
    s1: int,
    s2: int,
    start: int,
    stop: int,
    same: bool,
    f: F,
    before: Seq<(E, E)>,
    after: Seq<(E, E)>,
) -> bool {
    &&& before.len() <= after.len()
    &&& forall|i: int| 0 <= i < before.len() ==> #[trigger] after[i] == before[i]
    &&& forall|i: int|
        before.len() <= i < after.len() ==> told_of(a, b, s1, s2, start, stop, same, f, #[trigger] after[i])
}

/// Whether `pair` holds the elements of two leaves under `s1` and `s2`,
/// not one leaf, whose volumes meet, and `f` has accepted it.
pub open spec fn told_of<E: Copy, F: Fn(E, E) -> bool>(
    a: &BVHTree<E>,
    b: &BVHTree<E>,
    s1: int,
    s2: int,
    start: int,
    stop: int,
    same: bool,
    f: F,
    pair: (E, E),
) -> bool {
    exists|x: int, y: int| #[trigger] told(a, b, s1, s2, start, stop, same, f, x, y, pair)
}

/// Pairs added under a child of `s2` are pairs added under `s2`.
pub proof fn lemma_added_right<E: Copy, F: Fn(E, E) -> bool>(
    a: &BVHTree<E>,
    b: &BVHTree<E>,
    s1: int,
    s2: int,
    k: int,
    start: int,
    stop: int,
    same: bool,
    f: F,
    before: Seq<(E, E)>,
    middle: Seq<(E, E)>,
    after: Seq<(E, E)>,
)
    requires
        b.structured(),
        b.totleaf <= s2 < b.totleaf + b.branches(),
        0 <= k < b.node(s2).totnode,
        added(a, b, s1, s2, start, stop, same, f, before, middle),
        added(a, b, s1, b.node(s2).children@[k] as int, start, stop, same, f, middle, after),
    ensures
        added(a, b, s1, s2, start, stop, same, f, before, after),
{
    let c = b.node(s2).children@[k] as int;
    b.lemma_child(s2, k);
    b.lemma_branch_from_child(s2);
    assert forall|i: int| 0 <= i < before.len() implies #[trigger] after[i] == before[i] by {
        assert(after[i] == middle[i]);
    }
    assert forall|i: int| before.len() <= i < after.len() implies told_of(
        a,
        b,
        s1,
        s2,
        start,
        stop,
        same,
        f,
        #[trigger] after[i],
    ) by {
        if i < middle.len() {
            assert(after[i] == middle[i]);
            assert(told_of(a, b, s1, s2, start, stop, same, f, middle[i]));
        } else {
            assert(told_of(a, b, s1, c, start, stop, same, f, after[i]));
            let (x, y) = choose|x: int, y: int|
                #[trigger] told(a, b, s1, c, start, stop, same, f, x, y, after[i]);
            assert(b.rank(b.node(s2).children@[k] as int) < b.rank(s2));
            assert(b.reaches(b.node(s2).children@[k] as int, y));
            assert(b.reaches(s2, y));
            assert(told(a, b, s1, s2, start, stop, same, f, x, y, after[i]));
        }
    }
}

/// Pairs added under a child of `s1` are pairs added under `s1`.
pub proof fn lemma_added_left<E: Copy, F: Fn(E, E) -> bool>(
    a: &BVHTree<E>,
    b: &BVHTree<E>,
    s1: int,
    s2: int,
    k: int,
    start: int,
    stop: int,
    same: bool,
    f: F,
    before: Seq<(E, E)>,
    middle: Seq<(E, E)>,
    after: Seq<(E, E)>,
)
    requires
        a.structured(),
        a.totleaf <= s1 < a.totleaf + a.branches(),
        0 <= k < a.node(s1).totnode,
        added(a, b, s1, s2, start, stop, same, f, before, middle),
        added(a, b, a.node(s1).children@[k] as int, s2, start, stop, same, f, middle, after),
    ensures
        added(a, b, s1, s2, start, stop, same, f, before, after),
{
    let c = a.node(s1).children@[k] as int;
    a.lemma_child(s1, k);
    a.lemma_branch_from_child(s1);
    assert forall|i: int| 0 <= i < before.len() implies #[trigger] after[i] == before[i] by {
        assert(after[i] == middle[i]);
    }
    assert forall|i: int| before.len() <= i < after.len() implies told_of(
        a,
        b,
        s1,
        s2,
        start,
        stop,
        same,
        f,
        #[trigger] after[i],
    ) by {
        if i < middle.len() {
            assert(after[i] == middle[i]);
            assert(told_of(a, b, s1, s2, start, stop, same, f, middle[i]));
        } else {
            assert(told_of(a, b, c, s2, start, stop, same, f, after[i]));
            let (x, y) = choose|x: int, y: int|
                #[trigger] told(a, b, c, s2, start, stop, same, f, x, y, after[i]);
            assert(a.rank(a.node(s1).children@[k] as int) < a.rank(s1));
            assert(a.reaches(a.node(s1).children@[k] as int, x));
            assert(a.reaches(s1, x));
            assert(told(a, b, s1, s2, start, stop, same, f, x, y, after[i]));
        }
    }
}

/// The answer `yes` accepts every pair.
pub open spec fn keep_all<E: Copy>() -> spec_fn(E, E) -> bool {
    |x: E, y: E| true
}

impl<E: Copy> BVHTree<E> {
    /// Walks down both trees from `node_1_index` and `node_2_index` and
    /// adds to `r_overlap_pairs` the elements of every pair of leaves whose
    /// volumes meet.
    fn overlap_traverse(
        &self,
        other: &BVHTree<E>,
        node_1_index: usize,
        node_2_index: usize,
        start_axis: u8,
        stop_axis: u8,
        same: bool,
        r_overlap_pairs: &mut Vec<BVHTreeOverlap<E>>,
    )
        requires
            self.structured(),
            other.structured(),
            self.in_tree(node_1_index as int),
            other.in_tree(node_2_index as int),
            self.start_axis <= start_axis,
            other.start_axis <= start_axis,
            stop_axis <= self.stop_axis,
            stop_axis <= other.stop_axis,
        ensures
            pairs(final(r_overlap_pairs)@) == pairs(old(r_overlap_pairs)@) + reported(
                self,
                other,
                meet(
                    self,
                    other,
                    node_1_index as int,
                    node_2_index as int,
                    start_axis as int,
                    stop_axis as int,
                    same,
                    keep_all(),
                ),
            ),
        decreases self.rank(node_1_index as int) + other.rank(node_2_index as int),
    {
        let ghost s1 = node_1_index as int;
        let ghost s2 = node_2_index as int;
        let ghost st = start_axis as int;
        let ghost sp = stop_axis as int;
        proof {
            assert(self.shape_ok(s1));
            assert(other.shape_ok(s2));
        }
        let node_1 = arena_get(&self.node_array, node_1_index).unwrap();
        let node_2 = arena_get(&other.node_array, node_2_index).unwrap();
        proof {
            self.lemma_volume_length(s1);
            other.lemma_volume_length(s2);
        }
        if overlap_test(&node_1.bv, &node_2.bv, start_axis, stop_axis) {
            if node_1.totnode == 0 {
                if node_2.totnode == 0 {
                    // the same slot of the same tree: a leaf does not
                    // overlap itself
                    if same && node_1_index == node_2_index {
                        proof {
                            assert(pairs(r_overlap_pairs@) =~= pairs(old(r_overlap_pairs)@)
                                + reported(self, other, Seq::<(int, int)>::empty()));
                        }
                        return ;
                    }
                    proof {
                        self.lemma_leaf(s1);
                        other.lemma_leaf(s2);
                    }
                    let overlap = BVHTreeOverlap::new(
                        self.elems[node_1.elem_index.unwrap()],
                        other.elems[node_2.elem_index.unwrap()],
                    );
                    r_overlap_pairs.push(overlap);
                    proof {
                        assert(pairs(r_overlap_pairs@) =~= pairs(old(r_overlap_pairs)@) + reported(
                            self,
                            other,
                            seq![(s1, s2)],
                        ));
                    }
                } else {
                    proof {
                        other.lemma_branch(s2);
                        assert(pairs(r_overlap_pairs@) =~= pairs(old(r_overlap_pairs)@)
                            + reported(self, other, Seq::<(int, int)>::empty()));
                    }
                    let mut j: u8 = 0;
                    while j < other.tree_type
                        invariant
                            j <= other.tree_type,
                            self.structured(),
                            other.structured(),
                            self.in_tree(s1),
                            other.in_tree(s2),
                            other.totleaf <= s2,
                            s1 == node_1_index,
                            s2 == node_2_index,
                            st == start_axis,
                            sp == stop_axis,
                            self.start_axis <= start_axis,
                            other.start_axis <= start_axis,
                            stop_axis <= self.stop_axis,
                            stop_axis <= other.stop_axis,
                            *node_2 == other.node(s2),
                            node_2.children@.len() == other.tree_type,
                            1 <= node_2.totnode <= other.tree_type,
                            pairs(r_overlap_pairs@) == pairs(old(r_overlap_pairs)@) + reported(
                                self,
                                other,
                                meet_right(
                                    self,
                                    other,
                                    s1,
                                    s2,
                                    if j <= node_2.totnode {
                                        j as nat
                                    } else {
                                        node_2.totnode as nat
                                    },
                                    st,
                                    sp,
                                    same,
                                    keep_all(),
                                ),
                            ),
                        decreases other.tree_type - j,
                    {
                        let child_index = node_2.children[j as usize];
                        let ghost before = r_overlap_pairs@;
                        proof {
                            if j < node_2.totnode {
                                other.lemma_child(s2, j as int);
                            } else {
                                other.lemma_no_child(s2, j as int);
                            }
                        }
                        if arena_get(&other.node_array, child_index).is_some() {
                            self.overlap_traverse(
                                other,
                                node_1_index,
                                child_index,
                                start_axis,
                                stop_axis,
                                same,
                                r_overlap_pairs,
                            );
                            proof {
                                let done = meet_right(self, other, s1, s2, j as nat, st, sp, same, keep_all());
                                let more = meet(self, other, s1, child_index as int, st, sp, same, keep_all());
                                assert(meet_right(
                                    self,
                                    other,
                                    s1,
                                    s2,
                                    (j + 1) as nat,
                                    st,
                                    sp,
                                    same,
                                    keep_all(),
                                ) == done + more);
                                assert(reported(self, other, done + more) =~= reported(
                                    self,
                                    other,
                                    done,
                                ) + reported(self, other, more));
                                assert(pairs(r_overlap_pairs@) =~= pairs(old(r_overlap_pairs)@)
                                    + reported(self, other, done + more));
                            }
                        }
                        j = j + 1;
                    }
                }
            } else {
                proof {
                    self.lemma_branch(s1);
                    assert(pairs(r_overlap_pairs@) =~= pairs(old(r_overlap_pairs)@) + reported(
                        self,
                        other,
                        Seq::<(int, int)>::empty(),
                    ));
                }
                let mut j: u8 = 0;
                while j < self.tree_type
                    invariant
                        j <= self.tree_type,
                        self.structured(),
                        other.structured(),
                        self.in_tree(s1),
                        other.in_tree(s2),
                        self.totleaf <= s1,
                        s1 == node_1_index,
                        s2 == node_2_index,
                        st == start_axis,
                        sp == stop_axis,
                        self.start_axis <= start_axis,
                        other.start_axis <= start_axis,
                        stop_axis <= self.stop_axis,
                        stop_axis <= other.stop_axis,
                        *node_1 == self.node(s1),
                        node_1.children@.len() == self.tree_type,
                        1 <= node_1.totnode <= self.tree_type,
                        pairs(r_overlap_pairs@) == pairs(old(r_overlap_pairs)@) + reported(
                            self,
                            other,
                            meet_left(
                                self,
                                other,
                                s1,
                                s2,
                                if j <= node_1.totnode {
                                    j as nat
                                } else {
                                    node_1.totnode as nat
                                },
                                st,
                                sp,
                                same,
                                keep_all(),
                            ),
                        ),
                    decreases self.tree_type - j,
                {
                    let child_index = node_1.children[j as usize];
                    proof {
                        if j < node_1.totnode {
                            self.lemma_child(s1, j as int);
                        } else {
                            self.lemma_no_child(s1, j as int);
                        }
                    }
                    if arena_get(&self.node_array, child_index).is_some() {
                        self.overlap_traverse(
                            other,
                            child_index,
                            node_2_index,
                            start_axis,
                            stop_axis,
                            same,
                            r_overlap_pairs,
                        );
                        proof {
                            let done = meet_left(self, other, s1, s2, j as nat, st, sp, same, keep_all());
                            let more = meet(self, other, child_index as int, s2, st, sp, same, keep_all());
                            assert(meet_left(
                                self,
                                other,
                                s1,
                                s2,
                                (j + 1) as nat,
                                st,
                                sp,
                                same,
                                keep_all(),
                            ) == done + more);
                            assert(reported(self, other, done + more) =~= reported(
                                self,
                                other,
                                done,
                            ) + reported(self, other, more));
                            assert(pairs(r_overlap_pairs@) =~= pairs(old(r_overlap_pairs)@)
                                + reported(self, other, done + more));
                        }
                    }
                    j = j + 1;
                }
            }
        } else {
            proof {
                assert(pairs(r_overlap_pairs@) =~= pairs(old(r_overlap_pairs)@) + reported(
                    self,
                    other,
                    Seq::<(int, int)>::empty(),
                ));
            }
        }
    }


    /// Walks down both trees from `node_1_index` and `node_2_index` and
    /// adds to `r_overlap_pairs` the elements of every pair of leaves whose
    /// volumes meet and which `callback` accepts.
    fn overlap_traverse_callback<F: Fn(E, E) -> bool>(
        &self,
        other: &BVHTree<E>,
        node_1_index: usize,
        node_2_index: usize,
        start_axis: u8,
        stop_axis: u8,
        same: bool,
        callback: &F,
        r_overlap_pairs: &mut Vec<BVHTreeOverlap<E>>,
    )
        requires
            answers(*callback),
            self.structured(),
            other.structured(),
            self.in_tree(node_1_index as int),
            other.in_tree(node_2_index as int),
            self.start_axis <= start_axis,
            other.start_axis <= start_axis,
            stop_axis <= self.stop_axis,
            stop_axis <= other.stop_axis,
        ensures
            forall|keep: spec_fn(E, E) -> bool| #[trigger]
                decides(*callback, keep) ==> pairs(final(r_overlap_pairs)@) == pairs(
                    old(r_overlap_pairs)@,
                ) + reported(
                    self,
                    other,
                    meet(
                        self,
                        other,
                        node_1_index as int,
                        node_2_index as int,
                        start_axis as int,
                        stop_axis as int,
                        same,
                        keep,
                    ),
                ),
            added(
                self,
                other,
                node_1_index as int,
                node_2_index as int,
                start_axis as int,
                stop_axis as int,
                same,
                *callback,
                pairs(old(r_overlap_pairs)@),
                pairs(final(r_overlap_pairs)@),
            ),
        decreases self.rank(node_1_index as int) + other.rank(node_2_index as int),
    {
        let ghost s1 = node_1_index as int;
        let ghost s2 = node_2_index as int;
        let ghost st = start_axis as int;
        let ghost sp = stop_axis as int;
        let ghost before_all = pairs(r_overlap_pairs@);
        proof {
            assert(self.shape_ok(s1));
            assert(other.shape_ok(s2));
        }
        let node_1 = arena_get(&self.node_array, node_1_index).unwrap();
        let node_2 = arena_get(&other.node_array, node_2_index).unwrap();
        proof {
            self.lemma_volume_length(s1);
            other.lemma_volume_length(s2);
            assert(before_all =~= before_all + reported(self, other, Seq::<(int, int)>::empty()));
        }
        if overlap_test(&node_1.bv, &node_2.bv, start_axis, stop_axis) {
            if node_1.totnode == 0 {
                if node_2.totnode == 0 {
                    // the same slot of the same tree: a leaf does not
                    // overlap itself
                    if same && node_1_index == node_2_index {
                        return ;
                    }
                    proof {
                        self.lemma_leaf(s1);
                        other.lemma_leaf(s2);
                    }
                    let elem_1 = self.elems[node_1.elem_index.unwrap()];
                    let elem_2 = other.elems[node_2.elem_index.unwrap()];
                    if callback(elem_1, elem_2) {
                        let overlap = BVHTreeOverlap::new(elem_1, elem_2);
                        r_overlap_pairs.push(overlap);
                        proof {
                            assert(pairs(r_overlap_pairs@) =~= before_all + reported(
                                self,
                                other,
                                seq![(s1, s2)],
                            ));
                            assert forall|keep: spec_fn(E, E) -> bool| #[trigger]
                                decides(*callback, keep) implies pairs(r_overlap_pairs@)
                                == before_all + reported(
                                self,
                                other,
                                meet(self, other, s1, s2, st, sp, same, keep),
                            ) by {
                                assert(keep(elem_1, elem_2));
                                assert(meet(self, other, s1, s2, st, sp, same, keep) == seq![(s1, s2)]);
                            }
                            assert(self.reaches(s1, s1));
                            assert(other.reaches(s2, s2));
                            assert(told(
                                self,
                                other,
                                s1,
                                s2,
                                st,
                                sp,
                                same,
                                *callback,
                                s1,
                                s2,
                                (elem_1, elem_2),
                            ));
                        }
                    } else {
                        proof {
                            assert forall|keep: spec_fn(E, E) -> bool| #[trigger]
                                decides(*callback, keep) implies pairs(r_overlap_pairs@)
                                == before_all + reported(
                                self,
                                other,
                                meet(self, other, s1, s2, st, sp, same, keep),
                            ) by {
                                assert(!keep(elem_1, elem_2));
                                assert(meet(self, other, s1, s2, st, sp, same, keep) == Seq::<
                                    (int, int),
                                >::empty());
                            }
                        }
                    }
                } else {
                    proof {
                        other.lemma_branch(s2);
                    }
                    let mut j: u8 = 0;
                    while j < other.tree_type
                        invariant
                            j <= other.tree_type,
                            answers(*callback),
                            self.structured(),
                            other.structured(),
                            self.in_tree(s1),
                            other.in_tree(s2),
                            other.totleaf <= s2,
                            s1 == node_1_index,
                            s2 == node_2_index,
                            st == start_axis,
                            sp == stop_axis,
                            self.start_axis <= start_axis,
                            other.start_axis <= start_axis,
                            stop_axis <= self.stop_axis,
                            stop_axis <= other.stop_axis,
                            *node_2 == other.node(s2),
                            node_2.children@.len() == other.tree_type,
                            1 <= node_2.totnode <= other.tree_type,
                            before_all == pairs(old(r_overlap_pairs)@),
                            added(
                                self,
                                other,
                                s1,
                                s2,
                                st,
                                sp,
                                same,
                                *callback,
                                before_all,
                                pairs(r_overlap_pairs@),
                            ),
                            forall|keep: spec_fn(E, E) -> bool| #[trigger]
                                decides(*callback, keep) ==> pairs(r_overlap_pairs@) == before_all
                                    + reported(
                                    self,
                                    other,
                                    meet_right(
                                        self,
                                        other,
                                        s1,
                                        s2,
                                        if j <= node_2.totnode {
                                            j as nat
                                        } else {
                                            node_2.totnode as nat
                                        },
                                        st,
                                        sp,
                                        same,
                                        keep,
                                    ),
                                ),
                        decreases other.tree_type - j,
                    {
                        let child_index = node_2.children[j as usize];
                        let ghost so_far = pairs(r_overlap_pairs@);
                        proof {
                            if j < node_2.totnode {
                                other.lemma_child(s2, j as int);
                            } else {
                                other.lemma_no_child(s2, j as int);
                            }
                        }
                        if arena_get(&other.node_array, child_index).is_some() {
                            self.overlap_traverse_callback(
                                other,
                                node_1_index,
                                child_index,
                                start_axis,
                                stop_axis,
                                same,
                                callback,
                                r_overlap_pairs,
                            );
                            proof {
                                assert forall|keep: spec_fn(E, E) -> bool| #[trigger]
                                    decides(*callback, keep) implies pairs(r_overlap_pairs@)
                                    == before_all + reported(
                                    self,
                                    other,
                                    meet_right(self, other, s1, s2, (j + 1) as nat, st, sp, same, keep),
                                ) by {
                                    let done = meet_right(
                                        self,
                                        other,
                                        s1,
                                        s2,
                                        j as nat,
                                        st,
                                        sp,
                                        same,
                                        keep,
                                    );
                                    let more = meet(
                                        self,
                                        other,
                                        s1,
                                        child_index as int,
                                        st,
                                        sp,
                                        same,
                                        keep,
                                    );
                                    assert(meet_right(
                                        self,
                                        other,
                                        s1,
                                        s2,
                                        (j + 1) as nat,
                                        st,
                                        sp,
                                        same,
                                        keep,
                                    ) == done + more);
                                    assert(reported(self, other, done + more) =~= reported(
                                        self,
                                        other,
                                        done,
                                    ) + reported(self, other, more));
                                    assert(so_far == before_all + reported(self, other, done));
                                    assert(pairs(r_overlap_pairs@) =~= before_all + reported(
                                        self,
                                        other,
                                        done + more,
                                    ));
                                }
                                lemma_added_right(
                                    self,
                                    other,
                                    s1,
                                    s2,
                                    j as int,
                                    st,
                                    sp,
                                    same,
                                    *callback,
                                    before_all,
                                    so_far,
                                    pairs(r_overlap_pairs@),
                                );
                            }
                        }
                        j = j + 1;
                    }
                }
            } else {
                proof {
                    self.lemma_branch(s1);
                }
                let mut j: u8 = 0;
                while j < self.tree_type
                    invariant
                        j <= self.tree_type,
                        answers(*callback),
                        self.structured(),
                        other.structured(),
                        self.in_tree(s1),
                        other.in_tree(s2),
                        self.totleaf <= s1,
                        s1 == node_1_index,
                        s2 == node_2_index,
                        st == start_axis,
                        sp == stop_axis,
                        self.start_axis <= start_axis,
                        other.start_axis <= start_axis,
                        stop_axis <= self.stop_axis,
                        stop_axis <= other.stop_axis,
                        *node_1 == self.node(s1),
                        node_1.children@.len() == self.tree_type,
                        1 <= node_1.totnode <= self.tree_type,
                        before_all == pairs(old(r_overlap_pairs)@),
                        added(
                            self,
                            other,
                            s1,
                            s2,
                            st,
                            sp,
                            same,
                            *callback,
                            before_all,
                            pairs(r_overlap_pairs@),
                        ),
                        forall|keep: spec_fn(E, E) -> bool| #[trigger]
                            decides(*callback, keep) ==> pairs(r_overlap_pairs@) == before_all
                                + reported(
                                self,
                                other,
                                meet_left(
                                    self,
                                    other,
                                    s1,
                                    s2,
                                    if j <= node_1.totnode {
                                        j as nat
                                    } else {
                                        node_1.totnode as nat
                                    },
                                    st,
                                    sp,
                                    same,
                                    keep,
                                ),
                            ),
                    decreases self.tree_type - j,
                {
                    let child_index = node_1.children[j as usize];
                    let ghost so_far = pairs(r_overlap_pairs@);
                    proof {
                        if j < node_1.totnode {
                            self.lemma_child(s1, j as int);
                        } else {
                            self.lemma_no_child(s1, j as int);
                        }
                    }
                    if arena_get(&self.node_array, child_index).is_some() {
                        self.overlap_traverse_callback(
                            other,
                            child_index,
                            node_2_index,
                            start_axis,
                            stop_axis,
                            same,
                            callback,
                            r_overlap_pairs,
                        );
                        proof {
                            assert forall|keep: spec_fn(E, E) -> bool| #[trigger]
                                decides(*callback, keep) implies pairs(r_overlap_pairs@)
                                == before_all + reported(
                                self,
                                other,
                                meet_left(self, other, s1, s2, (j + 1) as nat, st, sp, same, keep),
                            ) by {
                                let done = meet_left(self, other, s1, s2, j as nat, st, sp, same, keep);
                                let more = meet(
                                    self,
                                    other,
                                    child_index as int,
                                    s2,
                                    st,
                                    sp,
                                    same,
                                    keep,
                                );
                                assert(meet_left(
                                    self,
                                    other,
                                    s1,
                                    s2,
                                    (j + 1) as nat,
                                    st,
                                    sp,
                                    same,
                                    keep,
                                ) == done + more);
                                assert(reported(self, other, done + more) =~= reported(
                                    self,
                                    other,
                                    done,
                                ) + reported(self, other, more));
                                assert(so_far == before_all + reported(self, other, done));
                                assert(pairs(r_overlap_pairs@) =~= before_all + reported(
                                    self,
                                    other,
                                    done + more,
                                ));
                            }
                            lemma_added_left(
                                self,
                                other,
                                s1,
                                s2,
                                j as int,
                                st,
                                sp,
                                same,
                                *callback,
                                before_all,
                                so_far,
                                pairs(r_overlap_pairs@),
                            );
                        }
                    }
                    j = j + 1;
                }
            }
        }
    }

    /// The volume of a node has an entry for both ends of every active
    /// axis, from the first active axis on.
    pub proof fn lemma_volume_length(&self, s: int)
        requires
            self.structured(),
            self.in_tree(s),
        ensures
            arena_slots(self.node_array).dom().contains(s),
            self.bv(s).len() == self.axis,
            self.bv(s).len() >= 6,
            fits(self.bv(s), self.start_axis as int, self.stop_axis as int),
            self.stop_axis <= KDOP_AXES,
    {
        assert(self.shape_ok(s));
    }

    /// A node of the tree without children is a leaf, and carries an
    /// element.
    pub proof fn lemma_leaf(&self, s: int)
        requires
            self.structured(),
            self.in_tree(s),
            self.node(s).totnode == 0,
        ensures
            0 <= s < self.totleaf,
            self.node(s).elem_index == Some(s as usize),
            s < self.elems@.len(),
    {
        if s >= self.totleaf {
            assert(self.branch_shape(s, self.branches()));
        }
        assert(self.leaf_ok(s));
    }

    /// A node of the tree with children is an inner node.
    pub proof fn lemma_branch(&self, s: int)
        requires
            self.structured(),
            self.in_tree(s),
            self.node(s).totnode != 0,
        ensures
            self.totleaf <= s < self.totleaf + self.branches(),
            1 <= self.node(s).totnode <= self.tree_type,
            self.node(s).children@.len() == self.tree_type,
            self.node(s).main_axis < 3,
    {
        if s < self.totleaf {
            assert(self.leaf_ok(s));
        }
        assert(self.branch_shape(s, self.branches()));
        assert(self.shape_ok(s));
    }

    /// An inner node has children.
    pub proof fn lemma_branch_from_child(&self, s: int)
        requires
            self.structured(),
            self.totleaf <= s < self.totleaf + self.branches(),
        ensures
            self.node(s).totnode != 0,
    {
        assert(self.branch_shape(s, self.branches()));
    }

    /// The child entries of an inner node past its children name no node.
    pub proof fn lemma_no_child(&self, s: int, k: int)
        requires
            self.structured(),
            self.totleaf <= s < self.totleaf + self.branches(),
            self.node(s).totnode <= k < self.tree_type,
        ensures
            self.node(s).children@[k] == UNKNOWN,
            !arena_slots(self.node_array).dom().contains(self.node(s).children@[k] as int),
    {
        assert(self.branch_shape(s, self.branches()));
    }
}

/// Whether two k-DOP types can be tested against each other: not where the
/// trees differ in type and one is of 14 and the other of 18 axes, whose
/// axes past the sixth point in different directions.
pub open spec fn compatible(axis_1: u8, axis_2: u8) -> bool {
    !(axis_1 != axis_2 && (axis_1 == 14 || axis_2 == 14) && (axis_1 == 18 || axis_2 == 18))
}

/// The larger of two axis numbers.
pub open spec fn max_axis(a: u8, b: u8) -> int {
    if b > a {
        b as int
    } else {
        a as int
    }
}

/// The smaller of two axis numbers.
pub open spec fn min_axis(a: u8, b: u8) -> int {
    if b < a {
        b as int
    } else {
        a as int
    }
}

impl<E: Copy> BVHTree<E> {
    /// The slot of the root.
    pub open spec fn root(&self) -> int {
        self.totleaf as int
    }

    /// Whether the tree can answer queries: it is structured and, if it
    /// holds leaves, balanced.
    pub open spec fn ready(&self) -> bool {
        &&& self.structured()
        &&& self.totleaf > 0 ==> self.balanced()
    }

    /// The pairs of leaves of this tree and of `other` that `overlap`
    /// reports, in order, where only the pairs that `keep` accepts count,
    /// and `same` says that `other` is this very tree. The volumes are
    /// held against each other on the axes that are active in both trees.
    /// A tree without leaves gives no pair.
    pub open spec fn overlap_slots(&self, other: &Self, same: bool, keep: spec_fn(E, E) -> bool) -> Seq<
        (int, int),
    > {
        if self.totleaf == 0 || other.totleaf == 0 {
            Seq::empty()
        } else {
            meet(
                self,
                other,
                self.root(),
                other.root(),
                max_axis(self.start_axis, other.start_axis),
                min_axis(self.stop_axis, other.stop_axis),
                same,
                keep,
            )
        }
    }

    /// The number of threads that a parallel test could use: the number of
    /// children of the root.
    fn overlap_thread_num(&self) -> (r: usize)
        requires
            self.structured(),
            self.balanced(),
        ensures
            r == self.node(self.root()).totnode,
    {
        proof {
            assert(self.nodes@[self.totleaf as int] == self.totleaf);
            assert(self.branch_shape(self.root(), self.branches()));
        }
        let node = arena_get(&self.node_array, self.nodes[self.totleaf]).unwrap();
        if self.tree_type < node.totnode {
            self.tree_type as usize
        } else {
            node.totnode as usize
        }
    }

    /// What `overlap` returns in `r`, where `same` says that `other` is this
    /// very tree: the elements of the pairs of leaves that the walk down
    /// both trees reports, of which the callback has accepted each, and
    /// `None` in place of an empty list.
    pub open spec fn overlap_outcome<F: Fn(E, E) -> bool>(
        &self,
        other: &BVHTree<E>,
        same: bool,
        callback: Option<&F>,
        r: Option<Vec<BVHTreeOverlap<E>>>,
    ) -> bool {
        &&& callback.is_some() ==> added(
            self,
            other,
            self.root(),
            other.root(),
            max_axis(self.start_axis, other.start_axis),
            min_axis(self.stop_axis, other.stop_axis),
            same,
            *callback.unwrap(),
            Seq::<(E, E)>::empty(),
            found_pairs(r),
        )
        &&& r.is_some() ==> r.unwrap()@.len() > 0
        &&& callback.is_none() ==> found_pairs(r) == reported(
            self,
            other,
            self.overlap_slots(other, same, keep_all()),
        )
        &&& forall|keep: spec_fn(E, E) -> bool|
            callback.is_some() && #[trigger] decides(*callback.unwrap(), keep) ==> found_pairs(r)
                == reported(self, other, self.overlap_slots(other, same, keep))
    }

    /// Tests this tree against `other`, of which the caller says in `same`
    /// whether it is this very tree, and returns the elements of every
    /// pair of leaves, one of each tree, whose volumes meet. Where
    /// `callback` is given, only the pairs that it accepts are returned.
    /// Returns `None` where there is no such pair, and so where one of the
    /// trees has no leaf.
    ///
    /// A leaf is not reported against itself: where `other` is this very
    /// tree, no leaf is reported against the leaf in the same slot.
    pub fn overlap_known<F: Fn(E, E) -> bool>(
        &self,
        other: &BVHTree<E>,
        same: bool,
        callback: Option<&F>,
    ) -> (r: Option<Vec<BVHTreeOverlap<E>>>)
        requires
            self.ready(),
            other.ready(),
            compatible(self.axis, other.axis),
            callback.is_some() ==> answers(*callback.unwrap()),
        ensures
            self.overlap_outcome(other, same, callback, r),
    {
        if self.totleaf == 0 || other.totleaf == 0 {
            // no elements, so no overlap
            proof {
                let none: Option<Vec<BVHTreeOverlap<E>>> = None;
                assert(found_pairs(none) =~= reported(
                    self,
                    other,
                    Seq::<(int, int)>::empty(),
                ));
            }
            return None;
        }
        let _root_node_len = self.overlap_thread_num();
        proof {
            assert(self.nodes@[self.totleaf as int] == self.totleaf);
            assert(other.nodes@[other.totleaf as int] == other.totleaf);
            self.lemma_volume_length(self.root());
            other.lemma_volume_length(other.root());
        }
        let root_1_index = self.nodes[self.totleaf];
        let root_2_index = other.nodes[other.totleaf];
        // the axes that are active in both trees
        let start_axis = if other.start_axis > self.start_axis {
            other.start_axis
        } else {
            self.start_axis
        };
        let stop_axis = if other.stop_axis < self.stop_axis {
            other.stop_axis
        } else {
            self.stop_axis
        };
        // the roots are tested first, before the walk
        let root_1 = arena_get(&self.node_array, root_1_index).unwrap();
        let root_2 = arena_get(&other.node_array, root_2_index).unwrap();
        if !overlap_test(&root_1.bv, &root_2.bv, start_axis, stop_axis) {
            proof {
                let none: Option<Vec<BVHTreeOverlap<E>>> = None;
                assert(found_pairs(none) =~= reported(
                    self,
                    other,
                    Seq::<(int, int)>::empty(),
                ));
                assert forall|keep: spec_fn(E, E) -> bool|
                    #[trigger] self.overlap_slots(other, same, keep) == Seq::<
                        (int, int),
                    >::empty() by {}
            }
            return None;
        }
        let mut overlap_pairs: Vec<BVHTreeOverlap<E>> = Vec::new();
        proof {
            assert(pairs(overlap_pairs@) =~= Seq::<(E, E)>::empty());
        }
        match callback {
            Some(callback) => {
                self.overlap_traverse_callback(
                    other,
                    root_1_index,
                    root_2_index,
                    start_axis,
                    stop_axis,
                    same,
                    callback,
                    &mut overlap_pairs,
                );
            },
            None => {
                self.overlap_traverse(
                    other,
                    root_1_index,
                    root_2_index,
                    start_axis,
                    stop_axis,
                    same,
                    &mut overlap_pairs,
                );
            },
        }
        proof {
            if callback.is_none() {
                assert(pairs(overlap_pairs@) =~= reported(
                    self,
                    other,
                    self.overlap_slots(other, same, keep_all()),
                ));
            }
            assert forall|keep: spec_fn(E, E) -> bool|
                callback.is_some() && #[trigger] decides(*callback.unwrap(), keep) implies pairs(
                overlap_pairs@,
            ) == reported(self, other, self.overlap_slots(other, same, keep)) by {
                assert(pairs(overlap_pairs@) =~= reported(
                    self,
                    other,
                    self.overlap_slots(other, same, keep),
                ));
            }
        }
        if overlap_pairs.len() == 0 {
            None
        } else {
            Some(overlap_pairs)
        }
    }

    /// Tests this tree against `other` and returns the elements of every
    /// pair of leaves, one of each tree, whose volumes meet. Where
    /// `callback` is given, only the pairs that it accepts are returned.
    /// Returns `None` where there is no such pair.
    ///
    /// A leaf is not reported against itself. Whether `other` is this very
    /// tree is asked of the two references: the result is that of
    /// `overlap_known` for the answer, which is "no" for two trees that
    /// differ.
    pub fn overlap<F: Fn(E, E) -> bool>(&self, other: &BVHTree<E>, callback: Option<&F>) -> (r:
        Option<Vec<BVHTreeOverlap<E>>>)
        requires
            self.ready(),
            other.ready(),
            compatible(self.axis, other.axis),
            callback.is_some() ==> answers(*callback.unwrap()),
        ensures
            self.overlap_outcome(other, false, callback, r) || (*self == *other
                && self.overlap_outcome(other, true, callback, r)),
            r.is_some() ==> r.unwrap()@.len() > 0,
    {
        let same = same_tree(self, other);
        self.overlap_known(other, same, callback)
    }
}

/// `std::ptr::eq` on two trees: whether the two references are to one
/// tree. Where they are, the trees are equal; of two equal trees nothing
/// is said.
#[verifier::external_body]
fn same_tree<E: Copy>(a: &BVHTree<E>, b: &BVHTree<E>) -> (same: bool)
    ensures
        same ==> *a == *b,
{
    std::ptr::eq(a, b)
}

impl<E: Copy> BVHTree<E> {
    /// Returns the two corners of the root's box: the lower ends of the
    /// three cardinal axes, and the upper ends.
    pub fn get_min_max_bounds(&self) -> (r: (Vec3, Vec3))
        requires
            self.structured(),
            self.balanced(),
        ensures
            r.0 == (Vec3 {
                x: self.bv(self.root())[0],
                y: self.bv(self.root())[2],
                z: self.bv(self.root())[4],
            }),
            r.1 == (Vec3 {
                x: self.bv(self.root())[1],
                y: self.bv(self.root())[3],
                z: self.bv(self.root())[5],
            }),
    {
        proof {
            assert(self.nodes@[self.totleaf as int] == self.totleaf);
            self.lemma_volume_length(self.root());
            assert(self.stop_axis >= 3);
        }
        let root_index = self.nodes[self.totleaf];
        let root = arena_get(&self.node_array, root_index).unwrap();
        (
            Vec3 { x: root.bv[0], y: root.bv[2], z: root.bv[4] },
            Vec3 { x: root.bv[1], y: root.bv[3], z: root.bv[5] },
        )
    }

    /// Returns the number of nodes that the tree has room for.
    pub fn node_count(&self) -> (r: usize)
        requires
            self.structured(),
        ensures
            r == self.nodes@.len(),
    {
        proof {
            let n = self.nodes@.len() as int;
            let full = Set::new(|s: int| 0 <= s < n);
            assert(full =~= vstd::set_lib::set_int_range(0, n));
            vstd::set_lib::lemma_int_range(0, n);
        }
        arena_len(&self.node_array)
    }
}

impl<E: Copy> BVHTree<E> {
    /// Tests whether `balance` has built the inner nodes.
    pub fn is_balanced(&self) -> (r: bool)
        requires
            self.structured(),
        ensures
            r == self.balanced(),
    {
        proof {
            crate::bvh::lemma_needed_branches(
                self.tree_type as int,
                self.max_size as int,
                self.max_size as int,
            );
        }
        self.totbranch > 0 || (self.totleaf == 1 && self.nodes[1] == 1)
    }
}

} // verus!
