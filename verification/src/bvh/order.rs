//! While the inner nodes are built, the leaves under the children of a
//! node stay split by key.

use crate::bvh::balance::{node_range, same_core};
use crate::bvh::construct::{all_le, key, occurs_in};
use crate::bvh::gather::lemma_pending_untouched;
use crate::bvh::layout::{
    lemma_index_mono, lemma_level_next, lemma_level_products, lemma_node_layout, next_level,
    BVHBuildHelper,
};
use crate::bvh::store::arena_slots;
use crate::bvh::{lemma_needed_branches, needed_branches, BVHTree};
use vstd::prelude::*;

verus! {

impl<E: Copy> BVHTree<E> {
    /// The entry of a bounding volume by which the leaves under the inner
    /// node in slot `s` are split among its children: the lower end on the
    /// node's split axis, the cardinal axis on which its volume is widest.
    pub open spec fn split_key(&self, s: int) -> int {
        2 * self.node(s).main_axis as int
    }

    /// Whether, along the split key of the inner node in slot `s`, the
    /// leaf `l` held under child `k` has no larger key than the leaf `m`
    /// held under the later child `n`.
    pub open spec fn in_order(
        &self,
        hp: BVHBuildHelper,
        depth: int,
        first: int,
        j: int,
        s: int,
        k: int,
        n: int,
        l: int,
        m: int,
    ) -> bool {
        self.holds(hp, depth, first, j, self.node(s).children@[k] as int, l) && self.holds(
            hp,
            depth,
            first,
            j,
            self.node(s).children@[n] as int,
            m,
        ) ==> self.bv(l)[self.split_key(s)] <= self.bv(m)[self.split_key(s)]
    }

    /// Whether the leaves held under the children of every built node are
    /// in the order of the children, by the node's split key.
    pub open spec fn sorting(&self, hp: BVHBuildHelper, depth: int, first: int, j: int) -> bool {
        forall|s: int, k: int, n: int, l: int, m: int|
            self.totleaf <= s < self.totleaf - 1 + j && 0 <= k < n < self.node(s).totnode && 0
                <= l < self.totleaf && 0 <= m < self.totleaf ==> #[trigger] self.in_order(
                hp,
                depth,
                first,
                j,
                s,
                k,
                n,
                l,
                m,
            )
    }

    /// Whether, along the split key of the inner node in slot `s`, no leaf
    /// under a child has a larger key than a leaf under a later child.
    pub open spec fn ordered(&self, s: int) -> bool {
        forall|k: int, n: int, l: int, m: int|
            0 <= k < n < self.node(s).totnode && #[trigger] self.reaches(
                self.node(s).children@[k] as int,
                l,
            ) && #[trigger] self.reaches(self.node(s).children@[n] as int, m) ==> self.bv(
                l,
            )[self.split_key(s)] <= self.bv(m)[self.split_key(s)]
    }
}

/// A leaf held under a child of a built node after a node is built was
/// held under that child before.
pub proof fn lemma_child_held_before<E: Copy>(
    prev: &BVHTree<E>,
    cur: &BVHTree<E>,
    hp: BVHBuildHelper,
    h: int,
    depth: int,
    first: int,
    j: int,
    s: int,
    k: int,
    l: int,
)
    requires
        prev.building(hp, h, depth, first, j),
        j <= needed_branches(prev.tree_type as int, prev.totleaf as int),
        j < next_level(prev.tree_type as int, first),
        cur.task_effect(prev, hp, depth, first, j),
        cur.building(hp, h, depth, first, j + 1),
        0 <= l < prev.totleaf,
        prev.totleaf <= s < prev.totleaf - 1 + j,
        0 <= k < prev.node(s).totnode,
        cur.holds(hp, depth, first, j + 1, prev.node(s).children@[k] as int, l),
    ensures
        prev.holds(hp, depth, first, j, prev.node(s).children@[k] as int, l),
    decreases prev.rank(s),
{
    let t = prev.tree_type as int;
    lemma_level_next(t, depth, first);
    lemma_needed_branches(t, prev.totleaf as int, prev.totleaf as int);
    assert(prev.built_ok(hp, depth, first, j, s));
    assert(prev.shape_ok(s));
    let c = prev.node(s).children@[k] as int;
    assert(prev.link_ok(hp, depth, first, j, s, c));
    let x = c - (prev.totleaf - 1);
    if c < prev.totleaf {
    } else if x < j {
        lemma_held_before(prev, cur, hp, h, depth, first, j, c, l);
    } else if x == j {
        lemma_built_held_before(prev, cur, hp, h, depth, first, j, l);
    } else {
        lemma_pending_untouched(prev, cur, hp, h, depth, first, j, s, c);
        let r = node_range(hp, t, depth, first, x);
        let q = choose|q: int| r.0 <= q < r.1 && #[trigger] cur.nodes@[q] == l as usize;
        assert(prev.nodes@[q] == l as usize);
        assert(occurs_in(prev.nodes@, r.0, r.1, l as usize));
    }
}

/// A leaf held under a built node after another node is built was held
/// under it before.
pub proof fn lemma_held_before<E: Copy>(
    prev: &BVHTree<E>,
    cur: &BVHTree<E>,
    hp: BVHBuildHelper,
    h: int,
    depth: int,
    first: int,
    j: int,
    n: int,
    l: int,
)
    requires
        prev.building(hp, h, depth, first, j),
        j <= needed_branches(prev.tree_type as int, prev.totleaf as int),
        j < next_level(prev.tree_type as int, first),
        cur.task_effect(prev, hp, depth, first, j),
        cur.building(hp, h, depth, first, j + 1),
        0 <= l < prev.totleaf,
        prev.totleaf <= n < prev.totleaf - 1 + j,
        cur.holds(hp, depth, first, j + 1, n, l),
    ensures
        prev.holds(hp, depth, first, j, n, l),
    decreases prev.rank(n), 0nat,
{
    let t = prev.tree_type as int;
    lemma_level_next(t, depth, first);
    lemma_needed_branches(t, prev.totleaf as int, prev.totleaf as int);
    assert(prev.totleaf < prev.nodes@.len());
    assert(same_core(cur.node(n), prev.node(n)));
    assert(prev.built_ok(hp, depth, first, j, n));
    let k = choose|k: int|
        0 <= k < cur.node(n).totnode && cur.rank(#[trigger] cur.node(n).children@[k] as int)
            < cur.rank(n) && cur.holds(hp, depth, first, j + 1, cur.node(n).children@[k] as int, l);
    assert(cur.node(n).children@[k] == prev.node(n).children@[k]);
    let c = prev.node(n).children@[k] as int;
    assert(prev.link_ok(hp, depth, first, j, n, c));
    assert(prev.rank(c) == cur.rank(c));
    assert(prev.rank(n) == cur.rank(n));
    let x = c - (prev.totleaf - 1);
    if c < prev.totleaf {
    } else if x < j {
        lemma_held_before(prev, cur, hp, h, depth, first, j, c, l);
    } else if x == j {
        lemma_built_held_before(prev, cur, hp, h, depth, first, j, l);
    } else {
        lemma_pending_untouched(prev, cur, hp, h, depth, first, j, n, c);
        let r = node_range(hp, t, depth, first, x);
        let q = choose|q: int| r.0 <= q < r.1 && #[trigger] cur.nodes@[q] == l as usize;
        assert(prev.nodes@[q] == l as usize);
        assert(occurs_in(prev.nodes@, r.0, r.1, l as usize));
    }
    assert(prev.holds(hp, depth, first, j, prev.node(n).children@[k] as int, l));
}

/// Where a leaf held under a child of the node just built is: among the
/// leaves of that child.
pub proof fn lemma_new_child_holds<E: Copy>(
    prev: &BVHTree<E>,
    cur: &BVHTree<E>,
    hp: BVHBuildHelper,
    h: int,
    depth: int,
    first: int,
    j: int,
    k: int,
    l: int,
) -> (p: int)
    requires
        prev.building(hp, h, depth, first, j),
        j <= needed_branches(prev.tree_type as int, prev.totleaf as int),
        j < next_level(prev.tree_type as int, first),
        cur.task_effect(prev, hp, depth, first, j),
        cur.building(hp, h, depth, first, j + 1),
        0 <= l < prev.totleaf,
        0 <= k < cur.node(cur.totleaf - 1 + j).totnode,
        cur.holds(
            hp,
            depth,
            first,
            j + 1,
            cur.node(cur.totleaf - 1 + j).children@[k] as int,
            l,
        ),
    ensures
        hp.spec_index(depth + 1, prev.tree_type * (j - first) + k) <= p < hp.spec_index(
            depth + 1,
            prev.tree_type * (j - first) + k + 1,
        ),
        cur.nodes@[p] == l as usize,
        hp.spec_index(depth, j - first) <= p < hp.spec_index(depth, j - first + 1),
{
    let t = prev.tree_type as int;
    let nb = needed_branches(t, prev.totleaf as int);
    let sj = cur.totleaf - 1 + j;
    let cc = t * (j - first);
    let next = next_level(t, first);
    lemma_node_layout(hp, t, h, depth, first, j);
    lemma_level_next(t, depth, first);
    lemma_level_products(hp, t, h, depth + 1);
    lemma_needed_branches(t, prev.totleaf as int, prev.totleaf as int);
    let cb = hp.spec_index(depth + 1, cc + k);
    let ce = hp.spec_index(depth + 1, cc + k + 1);
    assert(cur.child_set(hp, depth, first, j, k));
    lemma_index_mono(hp, t, h, depth + 1, cc, cc + k);
    lemma_index_mono(hp, t, h, depth + 1, cc + k + 1, cc + t);
    let child = cur.node(sj).children@[k] as int;
    if ce - cb == 1 {
        assert(child == cur.nodes@[cb]);
        assert(0 <= cur.nodes@[cb] < cur.totleaf);
        cb
    } else {
        let x = j * t + 2 - t + k;
        assert(child == cur.totleaf - 1 + x);
        assert(x == next + cc + k);
        assert(node_range(hp, t, depth, first, x) == (cb, ce));
        let q = choose|q: int| cb <= q < ce && #[trigger] cur.nodes@[q] == l as usize;
        q
    }
}

/// A leaf held under the node just built was among the leaves that the
/// node was responsible for.
pub proof fn lemma_built_held_before<E: Copy>(
    prev: &BVHTree<E>,
    cur: &BVHTree<E>,
    hp: BVHBuildHelper,
    h: int,
    depth: int,
    first: int,
    j: int,
    l: int,
)
    requires
        prev.building(hp, h, depth, first, j),
        j <= needed_branches(prev.tree_type as int, prev.totleaf as int),
        j < next_level(prev.tree_type as int, first),
        cur.task_effect(prev, hp, depth, first, j),
        cur.building(hp, h, depth, first, j + 1),
        0 <= l < prev.totleaf,
        cur.holds(hp, depth, first, j + 1, cur.totleaf - 1 + j, l),
    ensures
        prev.holds(hp, depth, first, j, prev.totleaf - 1 + j, l),
{
    let t = prev.tree_type as int;
    let sj = cur.totleaf - 1 + j;
    let from = hp.spec_index(depth, j - first);
    let to = hp.spec_index(depth, j - first + 1);
    lemma_level_next(t, depth, first);
    lemma_needed_branches(t, prev.totleaf as int, prev.totleaf as int);
    assert(cur.built_ok(hp, depth, first, j + 1, sj));
    let k = choose|k: int|
        0 <= k < cur.node(sj).totnode && cur.rank(#[trigger] cur.node(sj).children@[k] as int)
            < cur.rank(sj) && cur.holds(
            hp,
            depth,
            first,
            j + 1,
            cur.node(sj).children@[k] as int,
            l,
        );
    let p = lemma_new_child_holds(prev, cur, hp, h, depth, first, j, k, l);
    assert(occurs_in(prev.nodes@, from, to, cur.nodes@[p]));
    assert(node_range(hp, t, depth, first, j) == (from, to));
}

/// Building a node keeps the leaves under the children of the built nodes
/// in order, and puts those under the node's own children in order.
pub proof fn lemma_sorting_kept<E: Copy>(
    prev: &BVHTree<E>,
    cur: &BVHTree<E>,
    hp: BVHBuildHelper,
    h: int,
    depth: int,
    first: int,
    j: int,
)
    requires
        prev.building(hp, h, depth, first, j),
        j <= needed_branches(prev.tree_type as int, prev.totleaf as int),
        j < next_level(prev.tree_type as int, first),
        cur.task_effect(prev, hp, depth, first, j),
        cur.building(hp, h, depth, first, j + 1),
        prev.sorting(hp, depth, first, j),
    ensures
        cur.sorting(hp, depth, first, j + 1),
{
    let t = prev.tree_type as int;
    let sj = cur.totleaf - 1 + j;
    let cc = t * (j - first);
    lemma_node_layout(hp, t, h, depth, first, j);
    lemma_level_next(t, depth, first);
    lemma_level_products(hp, t, h, depth + 1);
    lemma_needed_branches(t, prev.totleaf as int, prev.totleaf as int);
    assert(prev.totleaf < prev.nodes@.len());
    assert forall|s: int, k: int, n: int, l: int, m: int|
        cur.totleaf <= s < cur.totleaf - 1 + (j + 1) && 0 <= k < n < cur.node(s).totnode && 0
            <= l < cur.totleaf && 0 <= m < cur.totleaf implies #[trigger] cur.in_order(
        hp,
        depth,
        first,
        j + 1,
        s,
        k,
        n,
        l,
        m,
    ) by {
        assert(same_core(cur.node(l), prev.node(l)));
        assert(same_core(cur.node(m), prev.node(m)));
        if cur.holds(hp, depth, first, j + 1, cur.node(s).children@[k] as int, l) && cur.holds(
            hp,
            depth,
            first,
            j + 1,
            cur.node(s).children@[n] as int,
            m,
        ) {
            if s == sj {
                let p = lemma_new_child_holds(prev, cur, hp, h, depth, first, j, k, l);
                let q = lemma_new_child_holds(prev, cur, hp, h, depth, first, j, n, m);
                // child `k` ends before child `k + 1`, where the leaves
                // are split
                assert(cur.parted(hp, depth, first, j, k + 1));
                lemma_index_mono(hp, t, h, depth + 1, cc + k + 1, cc + n);
                lemma_index_mono(hp, t, h, depth + 1, cc + n + 1, cc + t);
                let ax = cur.split_key(sj);
                assert(key(arena_slots(cur.node_array), cur.nodes@[p], ax) <= key(
                    arena_slots(cur.node_array),
                    cur.nodes@[q],
                    ax,
                ));
            } else {
                assert(same_core(cur.node(s), prev.node(s)));
                assert(cur.node(s).children@[k] == prev.node(s).children@[k]);
                assert(cur.node(s).children@[n] == prev.node(s).children@[n]);
                lemma_child_held_before(prev, cur, hp, h, depth, first, j, s, k, l);
                lemma_child_held_before(prev, cur, hp, h, depth, first, j, s, n, m);
                assert(prev.in_order(hp, depth, first, j, s, k, n, l, m));
            }
        }
    }
}

/// When a level is done, a leaf held under a child of a built node as
/// seen from the level below is held under it as seen from the level.
pub proof fn lemma_child_held_level<E: Copy>(
    tree: &BVHTree<E>,
    hp: BVHBuildHelper,
    h: int,
    depth: int,
    first: int,
    s: int,
    k: int,
    l: int,
)
    requires
        tree.building(hp, h, depth, first, next_level(tree.tree_type as int, first)),
        next_level(tree.tree_type as int, first) <= needed_branches(
            tree.tree_type as int,
            tree.totleaf as int,
        ),
        0 <= l < tree.totleaf,
        tree.totleaf <= s < tree.totleaf - 1 + next_level(tree.tree_type as int, first),
        0 <= k < tree.node(s).totnode,
        tree.holds(
            hp,
            depth + 1,
            next_level(tree.tree_type as int, first),
            next_level(tree.tree_type as int, first),
            tree.node(s).children@[k] as int,
            l,
        ),
    ensures
        tree.holds(
            hp,
            depth,
            first,
            next_level(tree.tree_type as int, first),
            tree.node(s).children@[k] as int,
            l,
        ),
    decreases tree.rank(s),
{
    let t = tree.tree_type as int;
    let next = next_level(t, first);
    let next2 = next_level(t, next);
    lemma_level_next(t, depth, first);
    assert(tree.built_ok(hp, depth, first, next, s));
    let c = tree.node(s).children@[k] as int;
    assert(tree.link_ok(hp, depth, first, next, s, c));
    let x = c - (tree.totleaf - 1);
    let y = s - (tree.totleaf - 1);
    if c < tree.totleaf {
    } else if x < next {
        assert(x > y) by (nonlinear_arith)
            requires
                y * t + 2 - t <= x,
                y >= 1,
                t >= 2,
        ;
        assert(tree.rank(c) < tree.rank(s));
        assert(tree.built_ok(hp, depth, first, next, c));
        let kk = choose|kk: int|
            0 <= kk < tree.node(c).totnode && tree.rank(
                #[trigger] tree.node(c).children@[kk] as int,
            ) < tree.rank(c) && tree.holds(
                hp,
                depth + 1,
                next,
                next,
                tree.node(c).children@[kk] as int,
                l,
            );
        lemma_child_held_level(tree, hp, h, depth, first, c, kk, l);
    } else {
        assert(x < next2) by (nonlinear_arith)
            requires
                x < y * t + 2,
                y <= next - 1,
                next2 == next * t + 2 - t,
                t >= 2,
        ;
        assert(node_range(hp, t, depth + 1, next, x) == node_range(hp, t, depth, first, x));
    }
}

/// When a level is done, the leaves under the children of the built nodes
/// are in order as seen from the level below.
pub proof fn lemma_sorting_level<E: Copy>(
    tree: &BVHTree<E>,
    hp: BVHBuildHelper,
    h: int,
    depth: int,
    first: int,
)
    requires
        tree.building(hp, h, depth, first, next_level(tree.tree_type as int, first)),
        next_level(tree.tree_type as int, first) <= needed_branches(
            tree.tree_type as int,
            tree.totleaf as int,
        ),
        tree.sorting(hp, depth, first, next_level(tree.tree_type as int, first)),
    ensures
        tree.sorting(
            hp,
            depth + 1,
            next_level(tree.tree_type as int, first),
            next_level(tree.tree_type as int, first),
        ),
{
    let t = tree.tree_type as int;
    let next = next_level(t, first);
    lemma_level_next(t, depth, first);
    assert forall|s: int, k: int, n: int, l: int, m: int|
        tree.totleaf <= s < tree.totleaf - 1 + next && 0 <= k < n < tree.node(s).totnode && 0
            <= l < tree.totleaf && 0 <= m < tree.totleaf implies #[trigger] tree.in_order(
        hp,
        depth + 1,
        next,
        next,
        s,
        k,
        n,
        l,
        m,
    ) by {
        if tree.holds(hp, depth + 1, next, next, tree.node(s).children@[k] as int, l)
            && tree.holds(hp, depth + 1, next, next, tree.node(s).children@[n] as int, m) {
            lemma_child_held_level(tree, hp, h, depth, first, s, k, l);
            lemma_child_held_level(tree, hp, h, depth, first, s, n, m);
            assert(tree.in_order(hp, depth, first, next, s, k, n, l, m));
        }
    }
}

/// When all the inner nodes are built, a leaf that lies under a node is
/// held under it.
pub proof fn lemma_reaches_holds<E: Copy>(
    tree: &BVHTree<E>,
    hp: BVHBuildHelper,
    h: int,
    depth: int,
    first: int,
    n: int,
    l: int,
)
    requires
        tree.building(
            hp,
            h,
            depth,
            first,
            needed_branches(tree.tree_type as int, tree.totleaf as int) + 1,
        ),
        0 <= n < tree.totleaf + needed_branches(tree.tree_type as int, tree.totleaf as int),
        tree.reaches(n, l),
    ensures
        0 <= l < tree.totleaf,
        tree.holds(
            hp,
            depth,
            first,
            needed_branches(tree.tree_type as int, tree.totleaf as int) + 1,
            n,
            l,
        ),
    decreases tree.rank(n),
{
    let t = tree.tree_type as int;
    let nb = needed_branches(t, tree.totleaf as int);
    if n < tree.totleaf {
        assert(tree.leaf_ok(n));
    } else {
        assert(tree.built_ok(hp, depth, first, nb + 1, n));
        let k = choose|k: int|
            0 <= k < tree.node(n).totnode && tree.rank(
                #[trigger] tree.node(n).children@[k] as int,
            ) < tree.rank(n) && tree.reaches(tree.node(n).children@[k] as int, l);
        let c = tree.node(n).children@[k] as int;
        assert(tree.link_ok(hp, depth, first, nb + 1, n, c));
        lemma_reaches_holds(tree, hp, h, depth, first, c, l);
    }
}

/// When all the inner nodes are built, the leaves under the children of
/// each are in order.
pub proof fn lemma_sorting_done<E: Copy>(
    tree: &BVHTree<E>,
    hp: BVHBuildHelper,
    h: int,
    depth: int,
    first: int,
)
    requires
        tree.building(
            hp,
            h,
            depth,
            first,
            needed_branches(tree.tree_type as int, tree.totleaf as int) + 1,
        ),
        tree.sorting(
            hp,
            depth,
            first,
            needed_branches(tree.tree_type as int, tree.totleaf as int) + 1,
        ),
    ensures
        forall|s: int|
            tree.totleaf <= s < tree.totleaf + needed_branches(
                tree.tree_type as int,
                tree.totleaf as int,
            ) ==> #[trigger] tree.ordered(s),
{
    let t = tree.tree_type as int;
    let nb = needed_branches(t, tree.totleaf as int);
    lemma_needed_branches(t, tree.totleaf as int, tree.totleaf as int);
    assert forall|s: int| tree.totleaf <= s < tree.totleaf + nb implies #[trigger] tree.ordered(
        s,
    ) by {
        assert(tree.built_ok(hp, depth, first, nb + 1, s));
        assert forall|k: int, n: int, l: int, m: int|
            0 <= k < n < tree.node(s).totnode && #[trigger] tree.reaches(
                tree.node(s).children@[k] as int,
                l,
            ) && #[trigger] tree.reaches(tree.node(s).children@[n] as int, m) implies tree.bv(
            l,
        )[tree.split_key(s)] <= tree.bv(m)[tree.split_key(s)] by {
            let ck = tree.node(s).children@[k] as int;
            let cn = tree.node(s).children@[n] as int;
            assert(tree.link_ok(hp, depth, first, nb + 1, s, ck));
            assert(tree.link_ok(hp, depth, first, nb + 1, s, cn));
            lemma_reaches_holds(tree, hp, h, depth, first, ck, l);
            lemma_reaches_holds(tree, hp, h, depth, first, cn, m);
            assert(tree.in_order(hp, depth, first, nb + 1, s, k, n, l, m));
        }
    }
}

} // verus!
