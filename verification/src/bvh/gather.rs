//! While the inner nodes are built, no leaf is lost: every leaf stays
//! under the root.

use crate::bvh::balance::{node_range, same_core};
use crate::bvh::construct::{distinct, lemma_union_bounds, occurs_in, union_hi, union_lo};
use crate::bvh::kdop::{contains_bv, hi, lo, HULL_EMPTY};
use crate::bvh::store::arena_slots;
use crate::bvh::layout::{
    lemma_children_tail, lemma_find_child, lemma_index_mono, lemma_level_next,
    lemma_level_products, lemma_node_layout, next_level, BVHBuildHelper,
};
use crate::bvh::{lemma_needed_branches, needed_branches, BVHTree};
use vstd::prelude::*;

verus! {

impl<E: Copy> BVHTree<E> {
    /// Whether the leaf in slot `l` is, or will be, under the node in slot
    /// `n`, while the nodes numbered below `j` are built: under a built
    /// node it is under one of the children, and under a node yet to be
    /// built it is among the leaves that the node is responsible for.
    pub open spec fn holds(
        &self,
        hp: BVHBuildHelper,
        depth: int,
        first: int,
        j: int,
        n: int,
        l: int,
    ) -> bool
        decreases self.rank(n),
    {
        let t = self.tree_type as int;
        let x = n - (self.totleaf - 1);
        if n < self.totleaf {
            n == l
        } else if x >= j {
            occurs_in(
                self.nodes@,
                node_range(hp, t, depth, first, x).0,
                node_range(hp, t, depth, first, x).1,
                l as usize,
            )
        } else {
            exists|k: int|
                0 <= k < self.node(n).totnode && self.rank(
                    #[trigger] self.node(n).children@[k] as int,
                ) < self.rank(n) && self.holds(
                    hp,
                    depth,
                    first,
                    j,
                    self.node(n).children@[k] as int,
                    l,
                )
        }
    }

    /// Whether every leaf is, or will be, under the root.
    pub open spec fn gathering(&self, hp: BVHBuildHelper, depth: int, first: int, j: int) -> bool {
        forall|l: int|
            0 <= l < self.totleaf ==> #[trigger] self.holds(
                hp,
                depth,
                first,
                j,
                self.totleaf as int,
                l,
            )
    }
}

/// The leaves that a node yet to be built is responsible for stay where
/// they are while another node is built.
pub proof fn lemma_pending_untouched<E: Copy>(
    prev: &BVHTree<E>,
    cur: &BVHTree<E>,
    hp: BVHBuildHelper,
    h: int,
    depth: int,
    first: int,
    j: int,
    s: int,
    c: int,
)
    requires
        prev.building(hp, h, depth, first, j),
        j <= needed_branches(prev.tree_type as int, prev.totleaf as int),
        j < next_level(prev.tree_type as int, first),
        cur.task_effect(prev, hp, depth, first, j),
        prev.totleaf <= s < prev.totleaf - 1 + j,
        prev.link_ok(hp, depth, first, j, s, c),
        c >= prev.totleaf,
        c - (prev.totleaf - 1) > j,
    ensures
        0 <= node_range(hp, prev.tree_type as int, depth, first, c - (prev.totleaf - 1)).0,
        node_range(hp, prev.tree_type as int, depth, first, c - (prev.totleaf - 1)).1
            <= prev.totleaf,
        forall|p: int|
            node_range(hp, prev.tree_type as int, depth, first, c - (prev.totleaf - 1)).0 <= p
                < node_range(hp, prev.tree_type as int, depth, first, c - (prev.totleaf - 1)).1
                ==> #[trigger] cur.nodes@[p] == prev.nodes@[p],
{
    let t = prev.tree_type as int;
    let from = hp.spec_index(depth, j - first);
    let to = hp.spec_index(depth, j - first + 1);
    let next = next_level(t, first);
    let x = c - (prev.totleaf - 1);
    let y = s - (prev.totleaf - 1);
    lemma_node_layout(hp, t, h, depth, first, j);
    lemma_level_next(t, depth, first);
    lemma_level_products(hp, t, h, depth);
    let r = node_range(hp, t, depth, first, x);
    assert(y >= 1);
    if x < next {
        lemma_index_mono(hp, t, h, depth, j - first + 1, x - first);
        lemma_index_mono(hp, t, h, depth, x - first, x - first + 1);
        assert(to <= r.0);
    } else {
        assert(y >= first) by (nonlinear_arith)
            requires
                x < y * t + 2,
                x >= first * t + 2 - t,
                t >= 2,
        ;
        lemma_node_layout(hp, t, h, depth, first, y);
        let k = x - (y * t + 2 - t);
        assert(x - next == t * (y - first) + k) by (nonlinear_arith)
            requires
                k == x - (y * t + 2 - t),
                next == first * t + 2 - t,
        ;
        lemma_level_products(hp, t, h, depth + 1);
        lemma_index_mono(hp, t, h, depth + 1, x - next, x - next + 1);
        lemma_index_mono(hp, t, h, depth + 1, x - next + 1, t * (y - first) + t);
        lemma_index_mono(hp, t, h, depth, y - first + 1, j - first);
        assert(r.1 <= from);
    }
}

/// Once a node is built, every leaf that it was responsible for is under
/// it.
pub proof fn lemma_holds_built<E: Copy>(
    prev: &BVHTree<E>,
    cur: &BVHTree<E>,
    hp: BVHBuildHelper,
    h: int,
    depth: int,
    first: int,
    j: int,
    l: int,
)
    requires
        prev.building(hp, h, depth, first, j),
        j <= needed_branches(prev.tree_type as int, prev.totleaf as int),
        j < next_level(prev.tree_type as int, first),
        cur.task_effect(prev, hp, depth, first, j),
        cur.building(hp, h, depth, first, j + 1),
        0 <= l < prev.totleaf,
        occurs_in(
            prev.nodes@,
            hp.spec_index(depth, j - first),
            hp.spec_index(depth, j - first + 1),
            l as usize,
        ),
    ensures
        cur.holds(hp, depth, first, j + 1, cur.totleaf - 1 + j, l),
{
    let t = prev.tree_type as int;
    let nb = needed_branches(t, prev.totleaf as int);
    let sj = cur.totleaf - 1 + j;
    let from = hp.spec_index(depth, j - first);
    let to = hp.spec_index(depth, j - first + 1);
    let next = next_level(t, first);
    let cc = t * (j - first);
    let m = cur.node(sj).totnode as int;
    lemma_node_layout(hp, t, h, depth, first, j);
    lemma_level_next(t, depth, first);
    lemma_level_products(hp, t, h, depth);
    lemma_level_products(hp, t, h, depth + 1);
    lemma_needed_branches(t, prev.totleaf as int, prev.totleaf as int);
    // the leaf is still among the leaves of the node
    let q = choose|q: int| from <= q < to && #[trigger] prev.nodes@[q] == l as usize;
    assert(occurs_in(cur.nodes@, from, to, prev.nodes@[q]));
    let p = choose|p: int| from <= p < to && #[trigger] cur.nodes@[p] == l as usize;
    // the children of the node share out its leaves
    assert(cur.last_child(hp, depth, first, j));
    if m < t {
        lemma_children_tail(hp, t, h, depth, j - first, m);
    }
    assert(hp.spec_index(depth + 1, cc + m) == to);
    let k = lemma_find_child(hp, t, h, depth + 1, cc, m, p);
    let cb = hp.spec_index(depth + 1, cc + k);
    let ce = hp.spec_index(depth + 1, cc + k + 1);
    assert(cur.child_set(hp, depth, first, j, k));
    let child = cur.node(sj).children@[k] as int;
    assert(cur.built_ok(hp, depth, first, j + 1, sj));
    assert(cur.shape_ok(sj));
    if ce - cb == 1 {
        assert(child == l);
        assert(cur.rank(child) < cur.rank(sj));
        assert(cur.holds(hp, depth, first, j + 1, child, l));
    } else {
        let x = j * t + 2 - t + k;
        assert(child == cur.totleaf - 1 + x);
        assert(x == next + cc + k);
        assert(x <= nb);
        assert(node_range(hp, t, depth, first, x) == (cb, ce));
        assert(occurs_in(cur.nodes@, cb, ce, l as usize));
        assert(cur.rank(child) < cur.rank(sj));
        assert(cur.holds(hp, depth, first, j + 1, child, l));
    }
}

/// Building a node keeps every leaf under the nodes that it was under.
pub proof fn lemma_holds_kept<E: Copy>(
    prev: &BVHTree<E>,
    cur: &BVHTree<E>,
    hp: BVHBuildHelper,
    h: int,
    depth: int,
    first: int,
    j: int,
    n: int,
    l: int,
)
    requires
        prev.building(hp, h, depth, first, j),
        j <= needed_branches(prev.tree_type as int, prev.totleaf as int),
        j < next_level(prev.tree_type as int, first),
        cur.task_effect(prev, hp, depth, first, j),
        cur.building(hp, h, depth, first, j + 1),
        0 <= l < prev.totleaf,
        0 <= n < prev.totleaf - 1 + j,
        prev.holds(hp, depth, first, j, n, l),
    ensures
        cur.holds(hp, depth, first, j + 1, n, l),
    decreases prev.rank(n),
{
    let t = prev.tree_type as int;
    let sj = cur.totleaf - 1 + j;
    lemma_level_next(t, depth, first);
    lemma_needed_branches(t, prev.totleaf as int, prev.totleaf as int);
    if n >= prev.totleaf {
        assert(prev.built_ok(hp, depth, first, j, n));
        assert(same_core(cur.node(n), prev.node(n)));
        let k = choose|k: int|
            0 <= k < prev.node(n).totnode && prev.rank(
                #[trigger] prev.node(n).children@[k] as int,
            ) < prev.rank(n) && prev.holds(
                hp,
                depth,
                first,
                j,
                prev.node(n).children@[k] as int,
                l,
            );
        let c = prev.node(n).children@[k] as int;
        assert(prev.link_ok(hp, depth, first, j, n, c));
        let x = c - (prev.totleaf - 1);
        assert(cur.node(n).children@[k] == prev.node(n).children@[k]);
        assert(cur.rank(c) == prev.rank(c));
        assert(cur.rank(n) == prev.rank(n));
        if c < prev.totleaf {
            assert(cur.holds(hp, depth, first, j + 1, c, l));
        } else if x < j {
            lemma_holds_kept(prev, cur, hp, h, depth, first, j, c, l);
        } else if x == j {
            lemma_holds_built(prev, cur, hp, h, depth, first, j, l);
        } else {
            lemma_pending_untouched(prev, cur, hp, h, depth, first, j, n, c);
            let r = node_range(hp, t, depth, first, x);
            let q = choose|q: int| r.0 <= q < r.1 && #[trigger] prev.nodes@[q] == l as usize;
            assert(cur.nodes@[q] == l as usize);
            assert(occurs_in(cur.nodes@, r.0, r.1, l as usize));
            assert(cur.holds(hp, depth, first, j + 1, c, l));
        }
        assert(cur.holds(hp, depth, first, j + 1, cur.node(n).children@[k] as int, l));
    }
}

/// Building a node keeps every leaf under the root.
pub proof fn lemma_gathering_kept<E: Copy>(
    prev: &BVHTree<E>,
    cur: &BVHTree<E>,
    hp: BVHBuildHelper,
    h: int,
    depth: int,
    first: int,
    j: int,
)
    requires
        prev.building(hp, h, depth, first, j),
        j <= needed_branches(prev.tree_type as int, prev.totleaf as int),
        j < next_level(prev.tree_type as int, first),
        cur.task_effect(prev, hp, depth, first, j),
        cur.building(hp, h, depth, first, j + 1),
        prev.gathering(hp, depth, first, j),
    ensures
        cur.gathering(hp, depth, first, j + 1),
{
    let t = prev.tree_type as int;
    lemma_level_next(t, depth, first);
    assert forall|l: int| 0 <= l < cur.totleaf implies #[trigger] cur.holds(
        hp,
        depth,
        first,
        j + 1,
        cur.totleaf as int,
        l,
    ) by {
        assert(prev.holds(hp, depth, first, j, prev.totleaf as int, l));
        if j == 1 {
            assert(first == 1);
            assert(node_range(hp, t, depth, first, 1) == (
                hp.spec_index(depth, j - first),
                hp.spec_index(depth, j - first + 1),
            ));
            lemma_holds_built(prev, cur, hp, h, depth, first, j, l);
        } else {
            lemma_holds_kept(prev, cur, hp, h, depth, first, j, prev.totleaf as int, l);
        }
    }
}

/// When a level is done, what holds of it holds as seen from the level
/// below.
pub proof fn lemma_holds_level<E: Copy>(
    tree: &BVHTree<E>,
    hp: BVHBuildHelper,
    h: int,
    depth: int,
    first: int,
    n: int,
    l: int,
)
    requires
        tree.building(hp, h, depth, first, next_level(tree.tree_type as int, first)),
        next_level(tree.tree_type as int, first) <= needed_branches(
            tree.tree_type as int,
            tree.totleaf as int,
        ),
        0 <= l < tree.totleaf,
        0 <= n < tree.totleaf - 1 + next_level(tree.tree_type as int, first),
        tree.holds(hp, depth, first, next_level(tree.tree_type as int, first), n, l),
    ensures
        tree.holds(
            hp,
            depth + 1,
            next_level(tree.tree_type as int, first),
            next_level(tree.tree_type as int, first),
            n,
            l,
        ),
    decreases tree.rank(n),
{
    let t = tree.tree_type as int;
    let next = next_level(t, first);
    let next2 = next_level(t, next);
    lemma_level_next(t, depth, first);
    if n >= tree.totleaf {
        assert(tree.built_ok(hp, depth, first, next, n));
        let k = choose|k: int|
            0 <= k < tree.node(n).totnode && tree.rank(
                #[trigger] tree.node(n).children@[k] as int,
            ) < tree.rank(n) && tree.holds(
                hp,
                depth,
                first,
                next,
                tree.node(n).children@[k] as int,
                l,
            );
        let c = tree.node(n).children@[k] as int;
        assert(tree.link_ok(hp, depth, first, next, n, c));
        let x = c - (tree.totleaf - 1);
        let y = n - (tree.totleaf - 1);
        if c < tree.totleaf {
        } else if x < next {
            lemma_holds_level(tree, hp, h, depth, first, c, l);
        } else {
            assert(x < next2) by (nonlinear_arith)
                requires
                    x < y * t + 2,
                    y <= next - 1,
                    next2 == next * t + 2 - t,
                    t >= 2,
            ;
            assert(node_range(hp, t, depth + 1, next, x) == node_range(
                hp,
                t,
                depth,
                first,
                x,
            ));
        }
        assert(tree.holds(hp, depth + 1, next, next, c, l));
    }
}

/// When all the inner nodes are built, a leaf that is held under a node
/// lies under it.
pub proof fn lemma_holds_reaches<E: Copy>(
    tree: &BVHTree<E>,
    hp: BVHBuildHelper,
    h: int,
    depth: int,
    first: int,
    n: int,
    l: int,
)
    requires
        tree.building(
            hp,
            h,
            depth,
            first,
            needed_branches(tree.tree_type as int, tree.totleaf as int) + 1,
        ),
        0 <= l < tree.totleaf,
        0 <= n < tree.totleaf + needed_branches(tree.tree_type as int, tree.totleaf as int),
        tree.holds(
            hp,
            depth,
            first,
            needed_branches(tree.tree_type as int, tree.totleaf as int) + 1,
            n,
            l,
        ),
    ensures
        tree.reaches(n, l),
    decreases tree.rank(n),
{
    let t = tree.tree_type as int;
    let nb = needed_branches(t, tree.totleaf as int);
    if n < tree.totleaf {
        assert(tree.leaf_ok(n));
    } else {
        assert(tree.built_ok(hp, depth, first, nb + 1, n));
        let k = choose|k: int|
            0 <= k < tree.node(n).totnode && tree.rank(
                #[trigger] tree.node(n).children@[k] as int,
            ) < tree.rank(n) && tree.holds(
                hp,
                depth,
                first,
                nb + 1,
                tree.node(n).children@[k] as int,
                l,
            );
        let c = tree.node(n).children@[k] as int;
        assert(tree.link_ok(hp, depth, first, nb + 1, n, c));
        lemma_holds_reaches(tree, hp, h, depth, first, c, l);
    }
}

/// Handles that differ and name leaves name every leaf.
pub proof fn lemma_every_leaf_named(nodes: Seq<usize>, n: int, l: int)
    requires
        0 <= n <= nodes.len(),
        distinct(nodes, 0, n),
        forall|p: int| 0 <= p < n ==> 0 <= #[trigger] nodes[p] < n,
        0 <= l < n,
    ensures
        occurs_in(nodes, 0, n, l as usize),
{
    let values = Seq::new(n as nat, |p: int| nodes[p] as int);
    assert(values.no_duplicates()) by {
        assert forall|p: int, q: int|
            0 <= p < values.len() && 0 <= q < values.len() && p != q implies values[p]
            != values[q] by {
            assert(values[p] == nodes[p] as int);
            assert(values[q] == nodes[q] as int);
            if p < q {
                assert(nodes[p] != nodes[q]);
            } else {
                assert(nodes[q] != nodes[p]);
            }
        }
    }
    values.unique_seq_to_set();
    vstd::seq_lib::seq_to_set_is_finite(values);
    let full = vstd::set_lib::set_int_range(0, n);
    vstd::set_lib::lemma_int_range(0, n);
    assert(values.to_set().subset_of(full)) by {
        assert forall|v: int| values.to_set().contains(v) implies full.contains(v) by {
            let p = choose|p: int| 0 <= p < values.len() && values[p] == v;
            assert(0 <= nodes[p] < n);
        }
    }
    vstd::set_lib::lemma_subset_equality(values.to_set(), full);
    assert(full.contains(l));
    assert(values.to_set().contains(l));
    let p = choose|p: int| 0 <= p < values.len() && values[p] == l;
    assert(nodes[p] == l as usize);
}

/// When a level is done, every leaf is still under the root, as seen from
/// the level below.
pub proof fn lemma_gathering_level<E: Copy>(
    tree: &BVHTree<E>,
    hp: BVHBuildHelper,
    h: int,
    depth: int,
    first: int,
)
    requires
        tree.building(hp, h, depth, first, next_level(tree.tree_type as int, first)),
        next_level(tree.tree_type as int, first) <= needed_branches(
            tree.tree_type as int,
            tree.totleaf as int,
        ),
        tree.gathering(hp, depth, first, next_level(tree.tree_type as int, first)),
    ensures
        tree.gathering(
            hp,
            depth + 1,
            next_level(tree.tree_type as int, first),
            next_level(tree.tree_type as int, first),
        ),
{
    let t = tree.tree_type as int;
    let next = next_level(t, first);
    lemma_level_next(t, depth, first);
    assert forall|l: int| 0 <= l < tree.totleaf implies #[trigger] tree.holds(
        hp,
        depth + 1,
        next,
        next,
        tree.totleaf as int,
        l,
    ) by {
        assert(tree.holds(hp, depth, first, next, tree.totleaf as int, l));
        lemma_holds_level(tree, hp, h, depth, first, tree.totleaf as int, l);
    }
}

/// When all the inner nodes are built, every leaf lies under the root.
pub proof fn lemma_gathering_done<E: Copy>(
    tree: &BVHTree<E>,
    hp: BVHBuildHelper,
    h: int,
    depth: int,
    first: int,
)
    requires
        tree.building(
            hp,
            h,
            depth,
            first,
            needed_branches(tree.tree_type as int, tree.totleaf as int) + 1,
        ),
        tree.gathering(
            hp,
            depth,
            first,
            needed_branches(tree.tree_type as int, tree.totleaf as int) + 1,
        ),
    ensures
        tree.spanning(),
{
    let t = tree.tree_type as int;
    let nb = needed_branches(t, tree.totleaf as int);
    lemma_level_next(t, depth, first);
    lemma_needed_branches(t, tree.totleaf as int, tree.totleaf as int);
    assert forall|l: int| 0 <= l < tree.totleaf implies #[trigger] tree.reaches(tree.root(), l) by {
        assert(tree.holds(hp, depth, first, nb + 1, tree.totleaf as int, l));
        lemma_holds_reaches(tree, hp, h, depth, first, tree.totleaf as int, l);
    }
}

impl<E: Copy> BVHTree<E> {
    /// Whether the lower end on axis `a` of the built node in slot `s` is
    /// no lower than needed: it is that of the empty interval or that of a
    /// leaf held under the node.
    pub open spec fn snug_lo(
        &self,
        hp: BVHBuildHelper,
        depth: int,
        first: int,
        j: int,
        s: int,
        a: int,
    ) -> bool {
        lo(self.bv(s), a) == HULL_EMPTY || exists|l: int|
            0 <= l < self.totleaf && #[trigger] self.holds(hp, depth, first, j, s, l) && lo(
                self.bv(s),
                a,
            ) == lo(self.bv(l), a)
    }

    /// Whether the upper end on axis `a` of the built node in slot `s` is
    /// no higher than needed.
    pub open spec fn snug_hi(
        &self,
        hp: BVHBuildHelper,
        depth: int,
        first: int,
        j: int,
        s: int,
        a: int,
    ) -> bool {
        hi(self.bv(s), a) == -HULL_EMPTY || exists|l: int|
            0 <= l < self.totleaf && #[trigger] self.holds(hp, depth, first, j, s, l) && hi(
                self.bv(s),
                a,
            ) == hi(self.bv(l), a)
    }

    /// Whether the volume of every built node is no larger than needed,
    /// on every active axis.
    pub open spec fn tightening(&self, hp: BVHBuildHelper, depth: int, first: int, j: int) -> bool {
        forall|s: int, a: int|
            #![trigger self.snug_lo(hp, depth, first, j, s, a)]
            #![trigger self.snug_hi(hp, depth, first, j, s, a)]
            self.totleaf <= s < self.totleaf - 1 + j && self.start_axis <= a < self.stop_axis
                ==> self.snug_lo(hp, depth, first, j, s, a) && self.snug_hi(
                hp,
                depth,
                first,
                j,
                s,
                a,
            )
    }

    /// Whether the volume of the inner node in slot `s` is no larger than
    /// needed on axis `a`: each end is that of the empty interval or that
    /// of a leaf under the node.
    pub open spec fn snug(&self, s: int, a: int) -> bool {
        &&& lo(self.bv(s), a) == HULL_EMPTY || exists|l: int|
            0 <= l < self.totleaf && #[trigger] self.reaches(s, l) && lo(self.bv(s), a) == lo(
                self.bv(l),
                a,
            )
        &&& hi(self.bv(s), a) == -HULL_EMPTY || exists|l: int|
            0 <= l < self.totleaf && #[trigger] self.reaches(s, l) && hi(self.bv(s), a) == hi(
                self.bv(l),
                a,
            )
        &&& lo(self.bv(s), a) <= HULL_EMPTY
        &&& -HULL_EMPTY <= hi(self.bv(s), a)
    }
}

/// Building a node keeps the built nodes snug and makes the node snug.
pub proof fn lemma_tightening_kept<E: Copy>(
    prev: &BVHTree<E>,
    cur: &BVHTree<E>,
    hp: BVHBuildHelper,
    h: int,
    depth: int,
    first: int,
    j: int,
)
    requires
        prev.building(hp, h, depth, first, j),
        j <= needed_branches(prev.tree_type as int, prev.totleaf as int),
        j < next_level(prev.tree_type as int, first),
        cur.task_effect(prev, hp, depth, first, j),
        cur.building(hp, h, depth, first, j + 1),
        prev.tightening(hp, depth, first, j),
    ensures
        cur.tightening(hp, depth, first, j + 1),
{
    let t = prev.tree_type as int;
    let sj = cur.totleaf - 1 + j;
    let from = hp.spec_index(depth, j - first);
    let to = hp.spec_index(depth, j - first + 1);
    let slots0 = arena_slots(prev.node_array);
    let handles = prev.nodes@.subrange(from, to);
    lemma_node_layout(hp, t, h, depth, first, j);
    lemma_level_next(t, depth, first);
    lemma_needed_branches(t, prev.totleaf as int, prev.totleaf as int);
    assert(prev.totleaf < prev.nodes@.len());
    assert forall|s: int, a: int|
        #![trigger cur.snug_lo(hp, depth, first, j + 1, s, a)]
        #![trigger cur.snug_hi(hp, depth, first, j + 1, s, a)]
        cur.totleaf <= s < cur.totleaf - 1 + (j + 1) && cur.start_axis <= a
            < cur.stop_axis implies cur.snug_lo(hp, depth, first, j + 1, s, a) && cur.snug_hi(
        hp,
        depth,
        first,
        j + 1,
        s,
        a,
    ) by {
        if s == sj {
            lemma_union_bounds(slots0, handles, a);
            assert(lo(cur.bv(sj), a) == union_lo(slots0, handles, a));
            assert(hi(cur.bv(sj), a) == union_hi(slots0, handles, a));
            if lo(cur.bv(sj), a) != HULL_EMPTY {
                let p = choose|p: int|
                    0 <= p < handles.len() && union_lo(slots0, handles, a) == lo(
                        slots0[#[trigger] handles[p] as int].bv@,
                        a,
                    );
                let l = handles[p] as int;
                assert(l == prev.nodes@[from + p]);
                assert(0 <= l < prev.totleaf);
                assert(same_core(cur.node(l), prev.node(l)));
                assert(occurs_in(prev.nodes@, from, to, l as usize));
                lemma_holds_built(prev, cur, hp, h, depth, first, j, l);
                assert(cur.holds(hp, depth, first, j + 1, s, l) && lo(cur.bv(s), a) == lo(
                    cur.bv(l),
                    a,
                ));
            }
            if hi(cur.bv(sj), a) != -HULL_EMPTY {
                let p = choose|p: int|
                    0 <= p < handles.len() && union_hi(slots0, handles, a) == hi(
                        slots0[#[trigger] handles[p] as int].bv@,
                        a,
                    );
                let l = handles[p] as int;
                assert(l == prev.nodes@[from + p]);
                assert(0 <= l < prev.totleaf);
                assert(same_core(cur.node(l), prev.node(l)));
                assert(occurs_in(prev.nodes@, from, to, l as usize));
                lemma_holds_built(prev, cur, hp, h, depth, first, j, l);
                assert(cur.holds(hp, depth, first, j + 1, s, l) && hi(cur.bv(s), a) == hi(
                    cur.bv(l),
                    a,
                ));
            }
        } else {
            assert(prev.snug_lo(hp, depth, first, j, s, a));
            assert(prev.snug_hi(hp, depth, first, j, s, a));
            assert(same_core(cur.node(s), prev.node(s)));
            if lo(prev.bv(s), a) != HULL_EMPTY {
                let l = choose|l: int|
                    0 <= l < prev.totleaf && #[trigger] prev.holds(hp, depth, first, j, s, l)
                        && lo(prev.bv(s), a) == lo(prev.bv(l), a);
                assert(same_core(cur.node(l), prev.node(l)));
                lemma_holds_kept(prev, cur, hp, h, depth, first, j, s, l);
                assert(cur.holds(hp, depth, first, j + 1, s, l) && lo(cur.bv(s), a) == lo(
                    cur.bv(l),
                    a,
                ));
            }
            if hi(prev.bv(s), a) != -HULL_EMPTY {
                let l = choose|l: int|
                    0 <= l < prev.totleaf && #[trigger] prev.holds(hp, depth, first, j, s, l)
                        && hi(prev.bv(s), a) == hi(prev.bv(l), a);
                assert(same_core(cur.node(l), prev.node(l)));
                lemma_holds_kept(prev, cur, hp, h, depth, first, j, s, l);
                assert(cur.holds(hp, depth, first, j + 1, s, l) && hi(cur.bv(s), a) == hi(
                    cur.bv(l),
                    a,
                ));
            }
        }
    }
}

/// When a level is done, the built nodes are snug as seen from the level
/// below.
pub proof fn lemma_tightening_level<E: Copy>(
    tree: &BVHTree<E>,
    hp: BVHBuildHelper,
    h: int,
    depth: int,
    first: int,
)
    requires
        tree.building(hp, h, depth, first, next_level(tree.tree_type as int, first)),
        next_level(tree.tree_type as int, first) <= needed_branches(
            tree.tree_type as int,
            tree.totleaf as int,
        ),
        tree.tightening(hp, depth, first, next_level(tree.tree_type as int, first)),
    ensures
        tree.tightening(
            hp,
            depth + 1,
            next_level(tree.tree_type as int, first),
            next_level(tree.tree_type as int, first),
        ),
{
    let t = tree.tree_type as int;
    let next = next_level(t, first);
    lemma_level_next(t, depth, first);
    assert forall|s: int, a: int|
        #![trigger tree.snug_lo(hp, depth + 1, next, next, s, a)]
        #![trigger tree.snug_hi(hp, depth + 1, next, next, s, a)]
        tree.totleaf <= s < tree.totleaf - 1 + next && tree.start_axis <= a
            < tree.stop_axis implies tree.snug_lo(hp, depth + 1, next, next, s, a)
        && tree.snug_hi(hp, depth + 1, next, next, s, a) by {
        assert(tree.snug_lo(hp, depth, first, next, s, a));
        assert(tree.snug_hi(hp, depth, first, next, s, a));
        if lo(tree.bv(s), a) != HULL_EMPTY {
            let l = choose|l: int|
                0 <= l < tree.totleaf && #[trigger] tree.holds(hp, depth, first, next, s, l)
                    && lo(tree.bv(s), a) == lo(tree.bv(l), a);
            lemma_holds_level(tree, hp, h, depth, first, s, l);
            assert(tree.holds(hp, depth + 1, next, next, s, l) && lo(tree.bv(s), a) == lo(
                tree.bv(l),
                a,
            ));
        }
        if hi(tree.bv(s), a) != -HULL_EMPTY {
            let l = choose|l: int|
                0 <= l < tree.totleaf && #[trigger] tree.holds(hp, depth, first, next, s, l)
                    && hi(tree.bv(s), a) == hi(tree.bv(l), a);
            lemma_holds_level(tree, hp, h, depth, first, s, l);
            assert(tree.holds(hp, depth + 1, next, next, s, l) && hi(tree.bv(s), a) == hi(
                tree.bv(l),
                a,
            ));
        }
    }
}

/// When all the inner nodes are built, each is snug.
pub proof fn lemma_tightening_done<E: Copy>(
    tree: &BVHTree<E>,
    hp: BVHBuildHelper,
    h: int,
    depth: int,
    first: int,
)
    requires
        tree.building(
            hp,
            h,
            depth,
            first,
            needed_branches(tree.tree_type as int, tree.totleaf as int) + 1,
        ),
        tree.tightening(
            hp,
            depth,
            first,
            needed_branches(tree.tree_type as int, tree.totleaf as int) + 1,
        ),
    ensures
        forall|s: int, a: int|
            tree.totleaf <= s < tree.totleaf + needed_branches(
                tree.tree_type as int,
                tree.totleaf as int,
            ) && tree.start_axis <= a < tree.stop_axis ==> #[trigger] tree.snug(s, a),
{
    let t = tree.tree_type as int;
    let nb = needed_branches(t, tree.totleaf as int);
    lemma_level_next(t, depth, first);
    lemma_needed_branches(t, tree.totleaf as int, tree.totleaf as int);
    assert forall|s: int, a: int|
        tree.totleaf <= s < tree.totleaf + nb && tree.start_axis <= a
            < tree.stop_axis implies #[trigger] tree.snug(s, a) by {
        assert(tree.snug_lo(hp, depth, first, nb + 1, s, a));
        assert(tree.snug_hi(hp, depth, first, nb + 1, s, a));
        assert(tree.built_ok(hp, depth, first, nb + 1, s));
        assert(lo(tree.bv(s), a) <= HULL_EMPTY && -HULL_EMPTY <= hi(tree.bv(s), a));
        if lo(tree.bv(s), a) != HULL_EMPTY {
            let l = choose|l: int|
                0 <= l < tree.totleaf && #[trigger] tree.holds(hp, depth, first, nb + 1, s, l)
                    && lo(tree.bv(s), a) == lo(tree.bv(l), a);
            lemma_holds_reaches(tree, hp, h, depth, first, s, l);
            assert(tree.reaches(s, l) && lo(tree.bv(s), a) == lo(tree.bv(l), a));
        }
        if hi(tree.bv(s), a) != -HULL_EMPTY {
            let l = choose|l: int|
                0 <= l < tree.totleaf && #[trigger] tree.holds(hp, depth, first, nb + 1, s, l)
                    && hi(tree.bv(s), a) == hi(tree.bv(l), a);
            lemma_holds_reaches(tree, hp, h, depth, first, s, l);
            assert(tree.reaches(s, l) && hi(tree.bv(s), a) == hi(tree.bv(l), a));
        }
    }
}

/// In a well-formed tree, an inner node that is snug on every active axis
/// has exactly the union of the volumes of its children.
pub proof fn lemma_snug_joined<E: Copy>(tree: &BVHTree<E>, s: int)
    requires
        tree.wf(),
        tree.totleaf <= s < tree.totleaf + tree.branches(),
        forall|a: int| tree.start_axis <= a < tree.stop_axis ==> #[trigger] tree.snug(s, a),
    ensures
        tree.joined(s),
{
    let slots = arena_slots(tree.node_array);
    let kids = tree.children_of(s);
    let bv = tree.bv(s);
    assert(tree.branch_shape(s, tree.branches()));
    tree.lemma_branch(s);
    assert forall|p: int| 0 <= p < kids.len() implies slots.dom().contains(
        #[trigger] kids[p] as int,
    ) by {
        assert(kids[p] == tree.node(s).children@[p]);
        tree.lemma_child(s, p);
    }
    assert forall|a: int|
        #![trigger lo(bv, a)]
        #![trigger hi(bv, a)]
        tree.start_axis <= a < tree.stop_axis implies lo(bv, a) == union_lo(slots, kids, a)
        && hi(bv, a) == union_hi(slots, kids, a) by {
        assert(tree.snug(s, a));
        lemma_union_bounds(slots, kids, a);
        // the node is no larger than the union
        if union_lo(slots, kids, a) != HULL_EMPTY {
            let p = choose|p: int|
                0 <= p < kids.len() && union_lo(slots, kids, a) == lo(
                    slots[#[trigger] kids[p] as int].bv@,
                    a,
                );
            assert(kids[p] == tree.node(s).children@[p]);
            assert(contains_bv(
                tree.bv(s),
                tree.bv(tree.node(s).children@[p] as int),
                tree.start_axis as int,
                tree.stop_axis as int,
            ));
            assert(lo(bv, a) <= lo(tree.bv(kids[p] as int), a));
        }
        if union_hi(slots, kids, a) != -HULL_EMPTY {
            let p = choose|p: int|
                0 <= p < kids.len() && union_hi(slots, kids, a) == hi(
                    slots[#[trigger] kids[p] as int].bv@,
                    a,
                );
            assert(kids[p] == tree.node(s).children@[p]);
            assert(contains_bv(
                tree.bv(s),
                tree.bv(tree.node(s).children@[p] as int),
                tree.start_axis as int,
                tree.stop_axis as int,
            ));
            assert(hi(tree.bv(kids[p] as int), a) <= hi(bv, a));
        }
        // the union is no larger than the node
        if lo(bv, a) != HULL_EMPTY {
            let l = choose|l: int|
                0 <= l < tree.totleaf && #[trigger] tree.reaches(s, l) && lo(tree.bv(s), a) == lo(
                    tree.bv(l),
                    a,
                );
            let k = choose|k: int|
                0 <= k < tree.node(s).totnode && tree.rank(
                    #[trigger] tree.node(s).children@[k] as int,
                ) < tree.rank(s) && tree.reaches(tree.node(s).children@[k] as int, l);
            let c = tree.node(s).children@[k] as int;
            tree.lemma_child(s, k);
            tree.law_contains_leaves(c, l);
            assert(lo(tree.bv(c), a) <= lo(tree.bv(l), a));
            assert(kids[k] == tree.node(s).children@[k]);
            assert(union_lo(slots, kids, a) <= lo(slots[kids[k] as int].bv@, a));
        }
        if hi(bv, a) != -HULL_EMPTY {
            let l = choose|l: int|
                0 <= l < tree.totleaf && #[trigger] tree.reaches(s, l) && hi(tree.bv(s), a) == hi(
                    tree.bv(l),
                    a,
                );
            let k = choose|k: int|
                0 <= k < tree.node(s).totnode && tree.rank(
                    #[trigger] tree.node(s).children@[k] as int,
                ) < tree.rank(s) && tree.reaches(tree.node(s).children@[k] as int, l);
            let c = tree.node(s).children@[k] as int;
            tree.lemma_child(s, k);
            tree.law_contains_leaves(c, l);
            assert(hi(tree.bv(l), a) <= hi(tree.bv(c), a));
            assert(kids[k] == tree.node(s).children@[k]);
            assert(hi(slots[kids[k] as int].bv@, a) <= union_hi(slots, kids, a));
        }
    }
}

} // verus!
