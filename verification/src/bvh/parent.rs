//! While the inner nodes are built, every child comes to name its parent:
//! no node is the child of two.

use crate::bvh::balance::node_range;
use crate::bvh::construct::occurs_in;
use crate::bvh::layout::{
    lemma_branch_has_two, lemma_index_mono, lemma_level_next, lemma_level_products,
    lemma_node_layout, next_level, BVHBuildHelper,
};
use crate::bvh::{lemma_needed_branches, needed_branches, BVHTree};
use vstd::prelude::*;

verus! {

impl<E: Copy> BVHTree<E> {
    /// Whether inner node number `x` waits to be built, while the nodes
    /// numbered below `j` are built on the level that starts at `first`:
    /// it is a later node of this level, or a child of a built node of it.
    pub open spec fn pending(&self, first: int, j: int, x: int) -> bool {
        let t = self.tree_type as int;
        &&& j <= x <= needed_branches(t, self.totleaf as int)
        &&& x < next_level(t, first) + t * (j - first)
    }

    /// Whether no leaf that is a child of a built node is among the leaves
    /// that a node yet to be built is responsible for.
    pub open spec fn apart(&self, hp: BVHBuildHelper, depth: int, first: int, j: int) -> bool {
        let t = self.tree_type as int;
        forall|s: int, k: int, x: int|
            #![trigger self.node(s).children@[k], self.pending(first, j, x)]
            self.totleaf <= s < self.totleaf - 1 + j && 0 <= k < self.node(s).totnode
                && self.node(s).children@[k] < self.totleaf && self.pending(first, j, x)
                ==> !occurs_in(
                self.nodes@,
                node_range(hp, t, depth, first, x).0,
                node_range(hp, t, depth, first, x).1,
                self.node(s).children@[k],
            )
    }

    /// Whether every child of an inner node numbered below `j` names that
    /// node as its parent.
    pub open spec fn named(&self, j: int) -> bool {
        forall|s: int, k: int|
            self.totleaf <= s < self.totleaf - 1 + j && 0 <= k < self.node(s).totnode
                ==> self.node(#[trigger] self.node(s).children@[k] as int).parent == Some(
                s as usize,
            )
    }

    /// Whether no inner node numbered below `j` has a child twice.
    pub open spec fn unlike(&self, j: int) -> bool {
        forall|s: int, k: int, m: int|
            self.totleaf <= s < self.totleaf - 1 + j && 0 <= k < m < self.node(s).totnode
                ==> #[trigger] self.node(s).children@[k] != #[trigger] self.node(s).children@[m]
    }

    /// Whether every child of an inner node numbered below `j` names that
    /// node as its parent, and is its child once.
    pub open spec fn parented(&self, j: int) -> bool {
        &&& self.named(j)
        &&& self.unlike(j)
    }

    /// Whether every child of an inner node names that node as its
    /// parent, and is its child once: no node is the child of two, or
    /// twice the child of one.
    pub open spec fn linked(&self) -> bool {
        self.parented(self.branches() + 1)
    }

    /// Whether the parent links of the built nodes are made, and will not
    /// be remade by a node yet to be built.
    pub open spec fn linking(&self, hp: BVHBuildHelper, depth: int, first: int, j: int) -> bool {
        &&& self.apart(hp, depth, first, j)
        &&& self.parented(j)
    }
}

/// Where the leaves of a node that waits to be built lie, once inner node
/// number `j` is built: within the range of `j` if it is a child of `j`,
/// and else clear of that range, as a node that waited before.
pub proof fn lemma_pending_range<E: Copy>(
    tree: &BVHTree<E>,
    hp: BVHBuildHelper,
    h: int,
    depth: int,
    first: int,
    j: int,
    x: int,
)
    requires
        tree.building(hp, h, depth, first, j),
        j <= needed_branches(tree.tree_type as int, tree.totleaf as int),
        j < next_level(tree.tree_type as int, first),
        tree.pending(first, j + 1, x),
    ensures
        ({
            let t = tree.tree_type as int;
            let r = node_range(hp, t, depth, first, x);
            let from = hp.spec_index(depth, j - first);
            let to = hp.spec_index(depth, j - first + 1);
            let k = x - (j * t + 2 - t);
            &&& 0 <= r.0 <= r.1 <= tree.totleaf
            &&& 0 <= from <= to <= tree.totleaf
            &&& if 0 <= k < t {
                &&& r.0 == hp.spec_index(depth + 1, t * (j - first) + k)
                &&& r.1 == hp.spec_index(depth + 1, t * (j - first) + k + 1)
                &&& from <= r.0
                &&& r.1 <= to
                &&& r.1 - r.0 >= 2
            } else {
                &&& tree.pending(first, j, x)
                &&& (r.1 <= from || to <= r.0)
            }
        }),
{
    let t = tree.tree_type as int;
    let next = next_level(t, first);
    let r = node_range(hp, t, depth, first, x);
    let from = hp.spec_index(depth, j - first);
    let to = hp.spec_index(depth, j - first + 1);
    let k = x - (j * t + 2 - t);
    lemma_node_layout(hp, t, h, depth, first, j);
    lemma_level_next(t, depth, first);
    lemma_level_products(hp, t, h, depth);
    lemma_level_products(hp, t, h, depth + 1);
    assert(j * t + 2 - t == next + t * (j - first)) by (nonlinear_arith)
        requires
            next == first * t + 2 - t,
    ;
    assert(t * (j - first) + t <= t * hp.bol(depth - 1)) by (nonlinear_arith)
        requires
            0 <= j - first < hp.bol(depth - 1),
            2 <= t,
    ;
    if x < next {
        lemma_index_mono(hp, t, h, depth, j - first + 1, x - first);
        lemma_index_mono(hp, t, h, depth, x - first, x - first + 1);
        assert(k < 0);
    } else {
        let c = x - next;
        assert(t * (j + 1 - first) == t * (j - first) + t) by (nonlinear_arith);
        assert(0 <= c < t * (j - first) + t);
        lemma_index_mono(hp, t, h, depth + 1, c, c + 1);
        if 0 <= k < t {
            assert(c == t * (j - first) + k);
            lemma_index_mono(hp, t, h, depth + 1, t * (j - first), c);
            lemma_index_mono(hp, t, h, depth + 1, c + 1, t * (j - first) + t);
            lemma_level_next(t, depth + 1, next);
            assert(next_level(t, next) == next + t * (next - first)) by (nonlinear_arith)
                requires
                    next == first * t + 2 - t,
            ;
            assert(t * (j - first) + t <= t * (next - first)) by (nonlinear_arith)
                requires
                    j < next,
                    2 <= t,
            ;
            lemma_branch_has_two(hp, t, h, depth + 1, next, x);
        } else {
            assert(c < t * (j - first));
            lemma_index_mono(hp, t, h, depth + 1, c + 1, t * (j - first));
        }
    }
}

/// Building a node keeps the leaves that are children of built nodes
/// clear of the nodes yet to be built.
pub proof fn lemma_apart_kept<E: Copy>(
    prev: &BVHTree<E>,
    cur: &BVHTree<E>,
    hp: BVHBuildHelper,
    h: int,
    depth: int,
    first: int,
    j: int,
)
    requires
        prev.building(hp, h, depth, first, j),
        j <= needed_branches(prev.tree_type as int, prev.totleaf as int),
        j < next_level(prev.tree_type as int, first),
        cur.task_effect(prev, hp, depth, first, j),
        cur.building(hp, h, depth, first, j + 1),
        prev.apart(hp, depth, first, j),
    ensures
        cur.apart(hp, depth, first, j + 1),
{
    let t = prev.tree_type as int;
    let sj = cur.totleaf - 1 + j;
    let from = hp.spec_index(depth, j - first);
    let to = hp.spec_index(depth, j - first + 1);
    lemma_node_layout(hp, t, h, depth, first, j);
    lemma_level_next(t, depth, first);
    lemma_needed_branches(t, prev.totleaf as int, prev.totleaf as int);
    assert(prev.pending(first, j, j)) by (nonlinear_arith)
        requires
            j <= needed_branches(t, prev.totleaf as int),
            j < next_level(t, first),
            first <= j,
            2 <= t,
            prev.tree_type as int == t,
    ;
    assert(node_range(hp, t, depth, first, j) == (from, to));
    assert forall|s: int, k: int, x: int|
        #![trigger cur.node(s).children@[k], cur.pending(first, j + 1, x)]
        cur.totleaf <= s < cur.totleaf - 1 + (j + 1) && 0 <= k < cur.node(s).totnode
            && cur.node(s).children@[k] < cur.totleaf && cur.pending(
            first,
            j + 1,
            x,
        ) implies !occurs_in(
        cur.nodes@,
        node_range(hp, t, depth, first, x).0,
        node_range(hp, t, depth, first, x).1,
        cur.node(s).children@[k],
    ) by {
        let c = cur.node(s).children@[k];
        let r = node_range(hp, t, depth, first, x);
        let kx = x - (j * t + 2 - t);
        assert(prev.pending(first, j + 1, x));
        lemma_pending_range(prev, hp, h, depth, first, j, x);
        if occurs_in(cur.nodes@, r.0, r.1, c) {
            let q = choose|q: int| r.0 <= q < r.1 && #[trigger] cur.nodes@[q] == c;
            if s < sj {
                assert(cur.node(s).children@ == prev.node(s).children@);
                assert(cur.node(s).totnode == prev.node(s).totnode);
                assert(prev.node(s).children@[k] == c);
                if 0 <= kx < t {
                    assert(occurs_in(prev.nodes@, from, to, cur.nodes@[q]));
                    assert(!occurs_in(prev.nodes@, from, to, prev.node(s).children@[k]));
                } else {
                    assert(prev.nodes@[q] == c);
                    assert(occurs_in(prev.nodes@, r.0, r.1, c));
                    assert(!occurs_in(prev.nodes@, r.0, r.1, prev.node(s).children@[k]));
                }
            } else {
                assert(cur.child_set(hp, depth, first, j, k));
                let fk = hp.spec_index(depth + 1, t * (j - first) + k);
                let tk = hp.spec_index(depth + 1, t * (j - first) + k + 1);
                lemma_level_products(hp, t, h, depth + 1);
                lemma_level_products(hp, t, h, depth);
                assert(t * (j - first) + t <= hp.bol(depth)) by (nonlinear_arith)
                    requires
                        0 <= j - first < hp.bol(depth - 1),
                        hp.bol(depth) == t * hp.bol(depth - 1),
                        2 <= t,
                ;
                lemma_index_mono(hp, t, h, depth + 1, t * (j - first), t * (j - first) + k);
                lemma_index_mono(
                    hp,
                    t,
                    h,
                    depth + 1,
                    t * (j - first) + k + 1,
                    t * (j - first) + t,
                );
                assert(tk - fk == 1 && c == cur.nodes@[fk]);
                assert(from <= fk < to);
                if 0 <= kx < t {
                    if kx < k {
                        lemma_index_mono(
                            hp,
                            t,
                            h,
                            depth + 1,
                            t * (j - first) + kx + 1,
                            t * (j - first) + k,
                        );
                    } else if kx > k {
                        lemma_index_mono(
                            hp,
                            t,
                            h,
                            depth + 1,
                            t * (j - first) + k + 1,
                            t * (j - first) + kx,
                        );
                    }
                }
                assert(q != fk);
                assert(cur.nodes@[q] != cur.nodes@[fk]);
            }
        }
    }
}

/// Building a node makes it the parent of its children, and leaves the
/// children of the built nodes with the parent that they have.
pub proof fn lemma_parented_kept<E: Copy>(
    prev: &BVHTree<E>,
    cur: &BVHTree<E>,
    hp: BVHBuildHelper,
    h: int,
    depth: int,
    first: int,
    j: int,
)
    requires
        prev.building(hp, h, depth, first, j),
        j <= needed_branches(prev.tree_type as int, prev.totleaf as int),
        j < next_level(prev.tree_type as int, first),
        cur.task_effect(prev, hp, depth, first, j),
        cur.building(hp, h, depth, first, j + 1),
        prev.linking(hp, depth, first, j),
    ensures
        cur.parented(j + 1),
{
    let t = prev.tree_type as int;
    let sj = cur.totleaf - 1 + j;
    let from = hp.spec_index(depth, j - first);
    let to = hp.spec_index(depth, j - first + 1);
    lemma_node_layout(hp, t, h, depth, first, j);
    lemma_level_next(t, depth, first);
    lemma_level_products(hp, t, h, depth);
    lemma_level_products(hp, t, h, depth + 1);
    lemma_needed_branches(t, prev.totleaf as int, prev.totleaf as int);
    assert(prev.pending(first, j, j)) by (nonlinear_arith)
        requires
            j <= needed_branches(t, prev.totleaf as int),
            j < next_level(t, first),
            first <= j,
            2 <= t,
            prev.tree_type as int == t,
    ;
    assert(node_range(hp, t, depth, first, j) == (from, to));
    assert(t * (j - first) + t <= hp.bol(depth)) by (nonlinear_arith)
        requires
            0 <= j - first < hp.bol(depth - 1),
            hp.bol(depth) == t * hp.bol(depth - 1),
            2 <= t,
    ;
    assert forall|s: int, k: int|
        cur.totleaf <= s < cur.totleaf - 1 + (j + 1) && 0 <= k < cur.node(s).totnode implies cur.node(
        #[trigger] cur.node(s).children@[k] as int,
    ).parent == Some(s as usize) by {
        let c = cur.node(s).children@[k];
        if s < sj {
            let y = s - (cur.totleaf - 1);
            assert(cur.node(s).children@ == prev.node(s).children@);
            assert(cur.node(s).totnode == prev.node(s).totnode);
            assert(prev.node(s).children@[k] == c);
            assert(prev.node(prev.node(s).children@[k] as int).parent == Some(s as usize));
            assert(prev.built_ok(hp, depth, first, j, s));
            assert(prev.link_ok(hp, depth, first, j, s, c as int));
            assert(0 <= c < cur.nodes@.len());
            if cur.is_child(sj, c as int) {
                let k2 = choose|k2: int|
                    0 <= k2 < cur.node(sj).totnode && #[trigger] cur.node(sj).children@[k2] == c;
                assert(cur.child_set(hp, depth, first, j, k2));
                let fk = hp.spec_index(depth + 1, t * (j - first) + k2);
                let tk = hp.spec_index(depth + 1, t * (j - first) + k2 + 1);
                lemma_index_mono(hp, t, h, depth + 1, t * (j - first), t * (j - first) + k2);
                lemma_index_mono(
                    hp,
                    t,
                    h,
                    depth + 1,
                    t * (j - first) + k2 + 1,
                    t * (j - first) + t,
                );
                if tk - fk == 1 {
                    assert(c == cur.nodes@[fk]);
                    assert(from <= fk < to);
                    assert(c < cur.totleaf);
                    assert(occurs_in(prev.nodes@, from, to, cur.nodes@[fk]));
                    assert(!occurs_in(prev.nodes@, from, to, prev.node(s).children@[k]));
                } else {
                    assert(c == cur.totleaf - 1 + (j * t + 2 - t + k2));
                    assert(j * t + 2 - t >= y * t + 2) by (nonlinear_arith)
                        requires
                            y < j,
                            2 <= t,
                    ;
                }
            }
        }
    }
    assert forall|s: int, k: int, m: int|
        cur.totleaf <= s < cur.totleaf - 1 + (j + 1) && 0 <= k < m < cur.node(s).totnode implies #[trigger] cur.node(
        s,
    ).children@[k] != #[trigger] cur.node(s).children@[m] by {
        if s < sj {
            assert(cur.node(s).children@ == prev.node(s).children@);
            assert(cur.node(s).totnode == prev.node(s).totnode);
            assert(prev.node(s).children@[k] != prev.node(s).children@[m]);
        } else {
            assert(cur.child_set(hp, depth, first, j, k));
            assert(cur.child_set(hp, depth, first, j, m));
            let cc = t * (j - first);
            lemma_index_mono(hp, t, h, depth + 1, 0, cc + k);
            lemma_index_mono(hp, t, h, depth + 1, cc + k + 1, cc + m);
            lemma_index_mono(hp, t, h, depth + 1, cc + m + 1, cc + t);
            let fk = hp.spec_index(depth + 1, cc + k);
            let fm = hp.spec_index(depth + 1, cc + m);
            if hp.spec_index(depth + 1, cc + k + 1) - fk == 1 && hp.spec_index(
                depth + 1,
                cc + m + 1,
            ) - fm == 1 {
                assert(fk < fm < cur.totleaf);
                assert(cur.nodes@[fk] != cur.nodes@[fm]);
            } else if hp.spec_index(depth + 1, cc + k + 1) - fk == 1 {
                assert(0 <= cur.nodes@[fk] < cur.totleaf);
            } else if hp.spec_index(depth + 1, cc + m + 1) - fm == 1 {
                assert(0 <= cur.nodes@[fm] < cur.totleaf);
            }
        }
    }
}

/// Building a node keeps the parent links of the built nodes and makes
/// its own.
pub proof fn lemma_linking_kept<E: Copy>(
    prev: &BVHTree<E>,
    cur: &BVHTree<E>,
    hp: BVHBuildHelper,
    h: int,
    depth: int,
    first: int,
    j: int,
)
    requires
        prev.building(hp, h, depth, first, j),
        j <= needed_branches(prev.tree_type as int, prev.totleaf as int),
        j < next_level(prev.tree_type as int, first),
        cur.task_effect(prev, hp, depth, first, j),
        cur.building(hp, h, depth, first, j + 1),
        prev.linking(hp, depth, first, j),
    ensures
        cur.linking(hp, depth, first, j + 1),
{
    lemma_apart_kept(prev, cur, hp, h, depth, first, j);
    lemma_parented_kept(prev, cur, hp, h, depth, first, j);
}

/// Once a level is built, what holds of the links holds at the start of
/// the level below.
pub proof fn lemma_linking_level<E: Copy>(
    tree: &BVHTree<E>,
    hp: BVHBuildHelper,
    h: int,
    depth: int,
    first: int,
)
    requires
        tree.building(hp, h, depth, first, next_level(tree.tree_type as int, first)),
        tree.linking(hp, depth, first, next_level(tree.tree_type as int, first)),
    ensures
        tree.linking(
            hp,
            depth + 1,
            next_level(tree.tree_type as int, first),
            next_level(tree.tree_type as int, first),
        ),
{
    let t = tree.tree_type as int;
    let next = next_level(t, first);
    lemma_level_next(t, depth, first);
    assert(next_level(t, next) == next + t * (next - first)) by (nonlinear_arith)
        requires
            next == first * t + 2 - t,
            next_level(t, next) == next * t + 2 - t,
    ;
    assert forall|s: int, k: int, x: int|
        #![trigger tree.node(s).children@[k], tree.pending(next, next, x)]
        tree.totleaf <= s < tree.totleaf - 1 + next && 0 <= k < tree.node(s).totnode
            && tree.node(s).children@[k] < tree.totleaf && tree.pending(
            next,
            next,
            x,
        ) implies !occurs_in(
        tree.nodes@,
        node_range(hp, t, depth + 1, next, x).0,
        node_range(hp, t, depth + 1, next, x).1,
        tree.node(s).children@[k],
    ) by {
        assert(tree.pending(first, next, x));
        assert(node_range(hp, t, depth + 1, next, x) == node_range(hp, t, depth, first, x));
    }
}

/// Building a node leaves the root without the parent that it did not
/// have: the root is the child of no node.
pub proof fn lemma_root_kept<E: Copy>(
    prev: &BVHTree<E>,
    cur: &BVHTree<E>,
    hp: BVHBuildHelper,
    h: int,
    depth: int,
    first: int,
    j: int,
)
    requires
        prev.building(hp, h, depth, first, j),
        j <= needed_branches(prev.tree_type as int, prev.totleaf as int),
        j < next_level(prev.tree_type as int, first),
        cur.task_effect(prev, hp, depth, first, j),
        cur.building(hp, h, depth, first, j + 1),
    ensures
        cur.node(cur.totleaf as int).parent == prev.node(prev.totleaf as int).parent,
{
    let t = prev.tree_type as int;
    let sj = cur.totleaf - 1 + j;
    let root = cur.totleaf as int;
    lemma_node_layout(hp, t, h, depth, first, j);
    lemma_level_next(t, depth, first);
    lemma_level_products(hp, t, h, depth);
    lemma_level_products(hp, t, h, depth + 1);
    lemma_needed_branches(t, prev.totleaf as int, prev.totleaf as int);
    assert(t * (j - first) + t <= hp.bol(depth)) by (nonlinear_arith)
        requires
            0 <= j - first < hp.bol(depth - 1),
            hp.bol(depth) == t * hp.bol(depth - 1),
            2 <= t,
    ;
    if cur.is_child(sj, root) {
        let k = choose|k: int|
            0 <= k < cur.node(sj).totnode && #[trigger] cur.node(sj).children@[k] == root;
        assert(cur.child_set(hp, depth, first, j, k));
        lemma_index_mono(hp, t, h, depth + 1, t * (j - first), t * (j - first) + k);
        lemma_index_mono(hp, t, h, depth + 1, t * (j - first) + k + 1, t * (j - first) + t);
        assert(j * t + 2 - t >= 2) by (nonlinear_arith)
            requires
                j >= 1,
                t >= 2,
        ;
    }
}

impl<E: Copy> BVHTree<E> {
    /// Whether this tree has the nodes of `prev` with the children and the
    /// parents that they have there.
    pub open spec fn same_links(&self, prev: &Self) -> bool {
        &&& self.totleaf == prev.totleaf
        &&& self.branches() == prev.branches()
        &&& self.nodes@.len() == prev.nodes@.len()
        &&& forall|s: int|
            #![trigger self.node(s)]
            #![trigger prev.node(s)]
            0 <= s < self.nodes@.len() ==> self.node(s).children@ == prev.node(s).children@
                && self.node(s).totnode == prev.node(s).totnode && self.node(s).parent
                == prev.node(s).parent
    }

    /// A tree whose children name their parents stays so while no node
    /// changes its children or its parent.
    pub proof fn lemma_linked_kept(&self, prev: &Self)
        requires
            prev.structured(),
            prev.linked(),
            self.same_links(prev),
        ensures
            self.linked(),
    {
        assert forall|s: int, k: int|
            self.totleaf <= s < self.totleaf - 1 + (self.branches() + 1) && 0 <= k < self.node(
                s,
            ).totnode implies self.node(#[trigger] self.node(s).children@[k] as int).parent
            == Some(s as usize) by {
            prev.lemma_child(s, k);
            let c = prev.node(s).children@[k] as int;
            assert(self.node(s).children@[k] == c);
            assert(prev.node(prev.node(s).children@[k] as int).parent == Some(s as usize));
            assert(self.node(c).parent == prev.node(c).parent);
        }
        assert forall|s: int, k: int, m: int|
            self.totleaf <= s < self.totleaf - 1 + (self.branches() + 1) && 0 <= k < m
                < self.node(s).totnode implies #[trigger] self.node(s).children@[k]
            != #[trigger] self.node(s).children@[m] by {
            assert(prev.node(s).children@[k] != prev.node(s).children@[m]);
        }
    }
}

} // verus!
