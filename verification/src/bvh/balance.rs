//! Building the inner nodes over the inserted leaves.

use crate::bvh::construct::{
    all_le, distinct, is_union, lemma_rearranged_refl, lemma_rearranged_within, lemma_union_bounds,
    occurs_in, rearranged, refit_kdop_hull, split_leafs, union_hi, union_lo,
};
use crate::bvh::kdop::{
    bounded, contains_bv, first_axis, fits, get_largest_axis, hi, largest_axis, lo, same_outside,
    BV_MAX,
    HULL_EMPTY,
};
use crate::bvh::layout::{
    build_implicit_helper, index_safe, lemma_level_of, level_first, lemma_index_mono, lemma_level_next, lemma_level_products,
    lemma_node_layout, lemma_root_range, level_start, next_level, BVHBuildHelper,
};
use crate::bvh::store::{arena_get_mut, arena_slots, BVHNode, UNKNOWN};
use crate::bvh::{
    implicit_needed_branches, lemma_needed_branches, needed_branches, no_children, BVHTree,
    MAX_LEAVES, MAX_TREETYPE,
};
use vstd::prelude::*;

verus! {

/// Where the level-by-level division of the leaves stands.
pub struct BVHDivNodesData<'a> {
    /// Slot before that of the root.
    pub brances_array_start: usize,
    /// What turns `tree_type` times a node's number into the number of its
    /// first child.
    pub tree_offset: isize,
    pub data: &'a BVHBuildHelper,
    pub depth: usize,
    /// Number of the first inner node on the current level.
    pub i: usize,
    pub first_of_next_level: usize,
}

impl<'a> BVHDivNodesData<'a> {
    /// Makes a record of the values given.
    pub fn new(
        brances_array_start: usize,
        tree_offset: isize,
        data: &'a BVHBuildHelper,
        depth: usize,
        i: usize,
        first_of_next_level: usize,
    ) -> (r: Self)
        ensures
            r.brances_array_start == brances_array_start,
            r.tree_offset == tree_offset,
            *r.data == *data,
            r.depth == depth,
            r.i == i,
            r.first_of_next_level == first_of_next_level,
    {
        Self { brances_array_start, tree_offset, data, depth, i, first_of_next_level }
    }
}

/// Whether two nodes agree on everything but the parent link.
pub open spec fn same_core(a: BVHNode, b: BVHNode) -> bool {
    &&& a.children@ == b.children@
    &&& a.bv@ == b.bv@
    &&& a.elem_index == b.elem_index
    &&& a.totnode == b.totnode
    &&& a.main_axis == b.main_axis
}

/// The leaf positions that inner node number `x` is responsible for, where
/// `x` is on the level that starts at `first` or on the level below.
pub open spec fn node_range(hp: BVHBuildHelper, t: int, depth: int, first: int, x: int) -> (
    int,
    int,
) {
    if x < next_level(t, first) {
        (hp.spec_index(depth, x - first), hp.spec_index(depth, x - first + 1))
    } else {
        (
            hp.spec_index(depth + 1, x - next_level(t, first)),
            hp.spec_index(depth + 1, x - next_level(t, first) + 1),
        )
    }
}

impl<E: Copy> BVHTree<E> {
    /// Whether the volume of the node in slot `s` contains that of every
    /// leaf at the positions `from..to` of the handle list.
    pub open spec fn covers(&self, s: int, from: int, to: int) -> bool {
        forall|p: int|
            from <= p < to ==> contains_bv(
                self.bv(s),
                self.bv(#[trigger] self.nodes@[p] as int),
                self.start_axis as int,
                self.stop_axis as int,
            )
    }

    /// Whether the inner node in slot `s` records as its split axis the
    /// cardinal axis on which its volume is widest.
    pub open spec fn split_recorded(&self, s: int) -> bool {
        self.node(s).main_axis == largest_axis(self.bv(s)) / 2
    }

    /// Whether, on every active axis, the volume of the node in slot `s`
    /// is no emptier than the empty interval.
    pub open spec fn hull_like(&self, s: int) -> bool {
        forall|a: int|
            #![trigger lo(self.bv(s), a)]
            #![trigger hi(self.bv(s), a)]
            self.start_axis <= a < self.stop_axis ==> lo(self.bv(s), a) <= HULL_EMPTY
                && -HULL_EMPTY <= hi(self.bv(s), a)
    }

    /// Whether the link from the built node in slot `s` to its child `c` is
    /// sound while the nodes numbered below `j` are built: a leaf or a built
    /// child lies within the parent's volume, and for a child yet to be
    /// built, every leaf it is responsible for does.
    pub open spec fn link_ok(
        &self,
        hp: BVHBuildHelper,
        depth: int,
        first: int,
        j: int,
        s: int,
        c: int,
    ) -> bool {
        let t = self.tree_type as int;
        let x = c - (self.totleaf - 1);
        let y = s - (self.totleaf - 1);
        if c < self.totleaf {
            &&& 0 <= c
            &&& contains_bv(
                self.bv(s),
                self.bv(c),
                self.start_axis as int,
                self.stop_axis as int,
            )
        } else {
            &&& x <= needed_branches(t, self.totleaf as int)
            &&& y * t + 2 - t <= x < y * t + 2
            &&& if x < j {
                contains_bv(
                    self.bv(s),
                    self.bv(c),
                    self.start_axis as int,
                    self.stop_axis as int,
                )
            } else {
                self.covers(
                    s,
                    node_range(hp, t, depth, first, x).0,
                    node_range(hp, t, depth, first, x).1,
                )
            }
        }
    }

    /// Whether slot `s` holds a built inner node, while the nodes numbered
    /// below `j` are built.
    pub open spec fn built_ok(
        &self,
        hp: BVHBuildHelper,
        depth: int,
        first: int,
        j: int,
        s: int,
    ) -> bool {
        &&& self.node(s).elem_index.is_none()
        &&& 1 <= self.node(s).totnode <= self.tree_type
        &&& self.node(s).main_axis < 3
        &&& self.split_recorded(s)
        &&& self.hull_like(s)
        &&& forall|k: int|
            0 <= k < self.node(s).totnode ==> self.link_ok(
                hp,
                depth,
                first,
                j,
                s,
                #[trigger] self.node(s).children@[k] as int,
            )
        &&& forall|k: int|
            self.node(s).totnode <= k < self.tree_type ==> #[trigger] self.node(s).children@[k]
                == UNKNOWN
    }

    /// What holds of every tree, built or not: the parameters, the slots
    /// and the leaves.
    pub open spec fn base_ok(&self) -> bool {
        &&& self.config_ok()
        &&& arena_slots(self.node_array).dom() =~= Set::new(
            |s: int| 0 <= s < self.nodes@.len(),
        )
        &&& self.totleaf <= self.max_size
        &&& self.elems@.len() == self.totleaf
        &&& forall|s: int| 0 <= s < self.nodes@.len() ==> #[trigger] self.shape_ok(s)
        &&& forall|s: int| 0 <= s < self.totleaf ==> #[trigger] self.leaf_ok(s)
        &&& forall|p: int| 0 <= p < self.totleaf ==> 0 <= #[trigger] self.nodes@[p] < self.totleaf
        &&& distinct(self.nodes@, 0, self.totleaf as int)
    }

    /// The state of the tree while `balance` builds the inner nodes level
    /// by level: those numbered below `j` are built, the others untouched.
    /// `first` is the number of the first inner node at depth `depth - 1`.
    pub open spec fn building(
        &self,
        hp: BVHBuildHelper,
        h: int,
        depth: int,
        first: int,
        j: int,
    ) -> bool {
        let t = self.tree_type as int;
        let nb = needed_branches(t, self.totleaf as int);
        &&& self.base_ok()
        &&& hp.table_ok(t, h)
        &&& hp.totleafs == self.totleaf
        &&& self.totbranch == 0
        &&& 1 <= depth <= h + 1
        &&& level_start(t, depth, first)
        &&& first <= j <= next_level(t, first)
        &&& j <= nb + 1
        &&& self.totleaf + nb <= self.nodes@.len()
        &&& forall|p: int|
            self.totleaf <= p < self.nodes@.len() ==> #[trigger] self.nodes@[p] == UNKNOWN
        &&& forall|s: int|
            self.totleaf <= s < self.totleaf - 1 + j ==> #[trigger] self.built_ok(
                hp,
                depth,
                first,
                j,
                s,
            )
        &&& forall|s: int|
            self.totleaf - 1 + j <= s < self.nodes@.len() ==> #[trigger] self.blank_ok(s)
    }
}

/// A volume that contains each of some volumes, and is no emptier than the
/// empty interval, contains their union.
pub proof fn lemma_union_contained(
    outer: Seq<i64>,
    bv: Seq<i64>,
    slots: Map<int, BVHNode>,
    handles: Seq<usize>,
    start: int,
    stop: int,
)
    requires
        is_union(bv, slots, handles, start, stop),
        forall|p: int|
            0 <= p < handles.len() ==> contains_bv(
                outer,
                slots[#[trigger] handles[p] as int].bv@,
                start,
                stop,
            ),
        forall|a: int|
            #![trigger lo(outer, a)]
            #![trigger hi(outer, a)]
            start <= a < stop ==> lo(outer, a) <= HULL_EMPTY && -HULL_EMPTY <= hi(outer, a),
    ensures
        contains_bv(outer, bv, start, stop),
{
    assert forall|a: int|
        #![trigger lo(outer, a)]
        #![trigger hi(outer, a)]
        #![trigger lo(bv, a)]
        #![trigger hi(bv, a)]
        start <= a < stop implies lo(outer, a) <= lo(bv, a) && hi(bv, a) <= hi(outer, a) by {
        lemma_union_bounds(slots, handles, a);
        assert(lo(bv, a) == union_lo(slots, handles, a));
        assert(hi(bv, a) == union_hi(slots, handles, a));
        assert(lo(outer, a) <= HULL_EMPTY && -HULL_EMPTY <= hi(outer, a));
        if union_lo(slots, handles, a) != HULL_EMPTY {
            let p = choose|p: int|
                0 <= p < handles.len() && union_lo(slots, handles, a) == lo(
                    slots[#[trigger] handles[p] as int].bv@,
                    a,
                );
            assert(contains_bv(outer, slots[handles[p] as int].bv@, start, stop));
            assert(lo(outer, a) <= lo(slots[handles[p] as int].bv@, a));
        }
        if union_hi(slots, handles, a) != -HULL_EMPTY {
            let p = choose|p: int|
                0 <= p < handles.len() && union_hi(slots, handles, a) == hi(
                    slots[#[trigger] handles[p] as int].bv@,
                    a,
                );
            assert(contains_bv(outer, slots[handles[p] as int].bv@, start, stop));
            assert(hi(slots[handles[p] as int].bv@, a) <= hi(outer, a));
        }
    }
}

/// The union of some volumes contains each of them.
pub proof fn lemma_union_contains_member(
    bv: Seq<i64>,
    slots: Map<int, BVHNode>,
    handles: Seq<usize>,
    start: int,
    stop: int,
    p: int,
)
    requires
        is_union(bv, slots, handles, start, stop),
        0 <= p < handles.len(),
    ensures
        contains_bv(bv, slots[handles[p] as int].bv@, start, stop),
{
    let inner = slots[handles[p] as int].bv@;
    assert forall|a: int|
        #![trigger lo(bv, a)]
        #![trigger hi(bv, a)]
        #![trigger lo(inner, a)]
        #![trigger hi(inner, a)]
        start <= a < stop implies lo(bv, a) <= lo(inner, a) && hi(inner, a) <= hi(bv, a) by {
        lemma_union_bounds(slots, handles, a);
        assert(lo(bv, a) == union_lo(slots, handles, a));
        assert(hi(bv, a) == union_hi(slots, handles, a));
    }
}

impl<E: Copy> BVHTree<E> {
    /// Whether child `k` of inner node number `j` is what the layout asks
    /// for: the one leaf of its range, or the inner node with the child's
    /// number where the range holds more.
    pub open spec fn child_set(
        &self,
        hp: BVHBuildHelper,
        depth: int,
        first: int,
        j: int,
        k: int,
    ) -> bool {
        let t = self.tree_type as int;
        let from = hp.spec_index(depth + 1, t * (j - first) + k);
        let to = hp.spec_index(depth + 1, t * (j - first) + k + 1);
        let child = self.node(self.totleaf - 1 + j).children@[k];
        ||| (to - from == 1 && child == self.nodes@[from])
        ||| (to - from > 1 && child == self.totleaf - 1 + (j * t + 2 - t + k))
    }

    /// What building inner node number `j` does to the tree `prev`: the
    /// handles of the node's leaves are rearranged, the node gets the union
    /// of their volumes, a split axis and its children, and elsewhere only
    /// parent links change.
    pub open spec fn task_effect(
        &self,
        prev: &Self,
        hp: BVHBuildHelper,
        depth: int,
        first: int,
        j: int,
    ) -> bool {
        let sj = self.totleaf - 1 + j;
        let from = hp.spec_index(depth, j - first);
        let to = hp.spec_index(depth, j - first + 1);
        &&& self.same_config(prev)
        &&& self.totleaf == prev.totleaf
        &&& self.totbranch == prev.totbranch
        &&& self.elems@ == prev.elems@
        &&& arena_slots(self.node_array).dom() =~= arena_slots(prev.node_array).dom()
        &&& rearranged(prev.nodes@, self.nodes@, from, to)
        &&& forall|s: int|
            0 <= s < self.nodes@.len() && s != sj ==> same_core(
                #[trigger] self.node(s),
                prev.node(s),
            )
        &&& self.node(sj).elem_index == prev.node(sj).elem_index
        &&& self.bv(sj).len() == prev.bv(sj).len()
        &&& bounded(self.bv(sj))
        &&& is_union(
            self.bv(sj),
            arena_slots(prev.node_array),
            prev.nodes@.subrange(from, to),
            self.start_axis as int,
            self.stop_axis as int,
        )
        &&& self.node(sj).main_axis < 3
        &&& self.split_recorded(sj)
        &&& self.node(sj).children@.len() == self.tree_type
        &&& 1 <= self.node(sj).totnode <= self.tree_type
        &&& forall|k: int|
            0 <= k < self.node(sj).totnode ==> #[trigger] self.child_set(hp, depth, first, j, k)
        &&& forall|k: int|
            self.node(sj).totnode <= k < self.tree_type ==> #[trigger] self.node(sj).children@[k]
                == UNKNOWN
        &&& self.last_child(hp, depth, first, j)
        &&& forall|m: int| 1 <= m < self.tree_type ==> #[trigger] self.parted(hp, depth, first, j, m)
        &&& self.adopted(prev, sj)
    }

    /// Whether the leaves of inner node number `j` are split by key
    /// between its children before child `m` and those from child `m` on:
    /// along the node's split axis, no leaf of the former has a larger
    /// lower end than a leaf of the latter.
    pub open spec fn parted(
        &self,
        hp: BVHBuildHelper,
        depth: int,
        first: int,
        j: int,
        m: int,
    ) -> bool {
        let t = self.tree_type as int;
        let cc = t * (j - first);
        all_le(
            self.nodes@,
            arena_slots(self.node_array),
            2 * self.node(self.totleaf - 1 + j).main_axis as int,
            hp.spec_index(depth + 1, cc + m - 1),
            hp.spec_index(depth + 1, cc + m),
            hp.spec_index(depth + 1, cc + m),
            hp.spec_index(depth + 1, cc + t),
        )
    }

    /// Whether slot `c` holds a child of the inner node in slot `s`.
    pub open spec fn is_child(&self, s: int, c: int) -> bool {
        exists|k: int| 0 <= k < self.node(s).totnode && #[trigger] self.node(s).children@[k] == c
    }

    /// Whether the children of the inner node in slot `s` name it as their
    /// parent, and every other node has the parent that it has in `prev`.
    pub open spec fn adopted(&self, prev: &Self, s: int) -> bool {
        &&& forall|k: int|
            0 <= k < self.node(s).totnode ==> self.node(
                #[trigger] self.node(s).children@[k] as int,
            ).parent == Some(s as usize)
        &&& forall|c: int|
            0 <= c < self.nodes@.len() && !self.is_child(s, c) ==> #[trigger] self.node(c).parent
                == prev.node(c).parent
    }

    /// Whether the children of inner node number `j` end where the layout
    /// has no more leaves for them: the node has all `tree_type` children,
    /// or the child after its last has no leaf.
    pub open spec fn last_child(&self, hp: BVHBuildHelper, depth: int, first: int, j: int) -> bool {
        let t = self.tree_type as int;
        let m = self.node(self.totleaf - 1 + j).totnode as int;
        m < t ==> hp.spec_index(depth + 1, t * (j - first) + m + 1) == hp.spec_index(
            depth + 1,
            t * (j - first) + m,
        )
    }
}

/// After inner node number `j` is built, its volume contains that of every
/// leaf at the positions it is responsible for.
pub proof fn lemma_built_covers<E: Copy>(
    prev: &BVHTree<E>,
    cur: &BVHTree<E>,
    hp: BVHBuildHelper,
    h: int,
    depth: int,
    first: int,
    j: int,
)
    requires
        prev.building(hp, h, depth, first, j),
        j <= needed_branches(prev.tree_type as int, prev.totleaf as int),
        j < next_level(prev.tree_type as int, first),
        cur.task_effect(prev, hp, depth, first, j),
    ensures
        cur.covers(
            cur.totleaf - 1 + j,
            hp.spec_index(depth, j - first),
            hp.spec_index(depth, j - first + 1),
        ),
{
    let t = prev.tree_type as int;
    let sj = cur.totleaf - 1 + j;
    let from = hp.spec_index(depth, j - first);
    let to = hp.spec_index(depth, j - first + 1);
    let slots0 = arena_slots(prev.node_array);
    let handles = prev.nodes@.subrange(from, to);
    lemma_node_layout(hp, t, h, depth, first, j);
    lemma_level_next(t, depth, first);
    assert(prev.totleaf < prev.nodes@.len());
    assert forall|p: int| from <= p < to implies contains_bv(
        cur.bv(sj),
        cur.bv(#[trigger] cur.nodes@[p] as int),
        cur.start_axis as int,
        cur.stop_axis as int,
    ) by {
        assert(occurs_in(prev.nodes@, from, to, cur.nodes@[p]));
        let q = choose|q: int| from <= q < to && #[trigger] prev.nodes@[q] == cur.nodes@[p];
        assert(handles[q - from] == prev.nodes@[q]);
        lemma_union_contains_member(
            cur.bv(sj),
            slots0,
            handles,
            cur.start_axis as int,
            cur.stop_axis as int,
            q - from,
        );
        let leaf = prev.nodes@[q] as int;
        assert(0 <= leaf < prev.totleaf);
        assert(same_core(cur.node(leaf), prev.node(leaf)));
    }
}

/// Building inner node number `j` keeps the links of the nodes built
/// before sound.
pub proof fn lemma_link_kept<E: Copy>(
    prev: &BVHTree<E>,
    cur: &BVHTree<E>,
    hp: BVHBuildHelper,
    h: int,
    depth: int,
    first: int,
    j: int,
    s: int,
    c: int,
)
    requires
        prev.building(hp, h, depth, first, j),
        j <= needed_branches(prev.tree_type as int, prev.totleaf as int),
        j < next_level(prev.tree_type as int, first),
        cur.task_effect(prev, hp, depth, first, j),
        prev.totleaf <= s < prev.totleaf - 1 + j,
        prev.hull_like(s),
        prev.link_ok(hp, depth, first, j, s, c),
    ensures
        cur.link_ok(hp, depth, first, j + 1, s, c),
{
    let t = prev.tree_type as int;
    let nb = needed_branches(t, prev.totleaf as int);
    let sj = cur.totleaf - 1 + j;
    let from = hp.spec_index(depth, j - first);
    let to = hp.spec_index(depth, j - first + 1);
    let next = next_level(t, first);
    let slots0 = arena_slots(prev.node_array);
    let x = c - (prev.totleaf - 1);
    let y = s - (prev.totleaf - 1);
    lemma_node_layout(hp, t, h, depth, first, j);
    lemma_level_next(t, depth, first);
    lemma_level_products(hp, t, h, depth);
    assert(prev.totleaf < prev.nodes@.len());
    assert(same_core(cur.node(s), prev.node(s)));
    if c < prev.totleaf {
        assert(same_core(cur.node(c), prev.node(c)));
    } else if x < j {
        assert(same_core(cur.node(c), prev.node(c)));
    } else if x == j {
        // the node just built: it was covered leaf by leaf
        let handles = prev.nodes@.subrange(from, to);
        assert forall|p: int| 0 <= p < handles.len() implies contains_bv(
            prev.bv(s),
            slots0[#[trigger] handles[p] as int].bv@,
            prev.start_axis as int,
            prev.stop_axis as int,
        ) by {
            assert(handles[p] == prev.nodes@[from + p]);
        }
        lemma_union_contained(
            prev.bv(s),
            cur.bv(sj),
            slots0,
            handles,
            prev.start_axis as int,
            prev.stop_axis as int,
        );
    } else {
        // a node yet to be built: its leaves were not moved
        let r = node_range(hp, t, depth, first, x);
        assert(y >= 1);
        if x < next {
            lemma_index_mono(hp, t, h, depth, j - first + 1, x - first);
            lemma_index_mono(hp, t, h, depth, x - first, x - first + 1);
            assert(to <= r.0);
            assert(r.1 <= prev.totleaf);
        } else {
            // a child of a node of this level, to the left of `j`
            assert(y >= first) by (nonlinear_arith)
                requires
                    x < y * t + 2,
                    x >= first * t + 2 - t,
                    t >= 2,
            ;
            lemma_node_layout(hp, t, h, depth, first, y);
            let k = x - (y * t + 2 - t);
            assert(x - next == t * (y - first) + k) by (nonlinear_arith)
                requires
                    k == x - (y * t + 2 - t),
                    next == first * t + 2 - t,
            ;
            lemma_level_products(hp, t, h, depth + 1);
            lemma_index_mono(hp, t, h, depth + 1, x - next, x - next + 1);
            lemma_index_mono(hp, t, h, depth + 1, x - next + 1, t * (y - first) + t);
            lemma_index_mono(hp, t, h, depth, y - first + 1, j - first);
            assert(r.1 <= from);
            assert(0 <= r.0);
        }
        assert forall|p: int| r.0 <= p < r.1 implies contains_bv(
            cur.bv(s),
            cur.bv(#[trigger] cur.nodes@[p] as int),
            cur.start_axis as int,
            cur.stop_axis as int,
        ) by {
            assert(cur.nodes@[p] == prev.nodes@[p]);
            let leaf = prev.nodes@[p] as int;
            assert(0 <= leaf < prev.totleaf);
            assert(same_core(cur.node(leaf), prev.node(leaf)));
        }
    }
}

/// The links of the node just built are sound.
pub proof fn lemma_link_made<E: Copy>(
    prev: &BVHTree<E>,
    cur: &BVHTree<E>,
    hp: BVHBuildHelper,
    h: int,
    depth: int,
    first: int,
    j: int,
    k: int,
)
    requires
        prev.building(hp, h, depth, first, j),
        j <= needed_branches(prev.tree_type as int, prev.totleaf as int),
        j < next_level(prev.tree_type as int, first),
        cur.task_effect(prev, hp, depth, first, j),
        0 <= k < cur.node(cur.totleaf - 1 + j).totnode,
    ensures
        cur.link_ok(
            hp,
            depth,
            first,
            j + 1,
            cur.totleaf - 1 + j,
            cur.node(cur.totleaf - 1 + j).children@[k] as int,
        ),
{
    let t = prev.tree_type as int;
    let sj = cur.totleaf - 1 + j;
    let from = hp.spec_index(depth, j - first);
    let to = hp.spec_index(depth, j - first + 1);
    let next = next_level(t, first);
    let cc = t * (j - first);
    let cb = hp.spec_index(depth + 1, cc + k);
    let ce = hp.spec_index(depth + 1, cc + k + 1);
    let child = cur.node(sj).children@[k] as int;
    lemma_node_layout(hp, t, h, depth, first, j);
    lemma_level_next(t, depth, first);
    lemma_level_products(hp, t, h, depth + 1);
    lemma_built_covers(prev, cur, hp, h, depth, first, j);
    assert(cur.child_set(hp, depth, first, j, k));
    lemma_index_mono(hp, t, h, depth + 1, cc, cc + k);
    lemma_index_mono(hp, t, h, depth + 1, cc + k + 1, cc + t);
    assert(from <= cb <= ce <= to);
    if ce - cb == 1 {
        assert(child == cur.nodes@[cb]);
        assert(occurs_in(prev.nodes@, from, to, cur.nodes@[cb]));
        assert(0 <= child < prev.totleaf);
    } else {
        let x = j * t + 2 - t + k;
        assert(child == cur.totleaf - 1 + x);
        assert(x == next + cc + k);
        assert(node_range(hp, t, depth, first, x) == (cb, ce));
    }
}

/// Building inner node number `j` takes the tree from the state where the
/// nodes numbered below `j` are built to the state where `j` is built too.
pub proof fn lemma_task_done<E: Copy>(
    prev: &BVHTree<E>,
    cur: &BVHTree<E>,
    hp: BVHBuildHelper,
    h: int,
    depth: int,
    first: int,
    j: int,
)
    requires
        prev.building(hp, h, depth, first, j),
        j <= needed_branches(prev.tree_type as int, prev.totleaf as int),
        j < next_level(prev.tree_type as int, first),
        cur.task_effect(prev, hp, depth, first, j),
    ensures
        cur.building(hp, h, depth, first, j + 1),
{
    let t = prev.tree_type as int;
    let sj = cur.totleaf - 1 + j;
    let from = hp.spec_index(depth, j - first);
    let to = hp.spec_index(depth, j - first + 1);
    lemma_node_layout(hp, t, h, depth, first, j);
    lemma_level_next(t, depth, first);
    assert(prev.totleaf < prev.nodes@.len());
    assert forall|s: int| 0 <= s < cur.nodes@.len() implies #[trigger] cur.shape_ok(s) by {
        assert(prev.shape_ok(s));
        if s != sj {
            assert(same_core(cur.node(s), prev.node(s)));
        }
    }
    assert forall|s: int| 0 <= s < cur.totleaf implies #[trigger] cur.leaf_ok(s) by {
        assert(prev.leaf_ok(s));
        assert(same_core(cur.node(s), prev.node(s)));
    }
    lemma_rearranged_refl(prev.nodes@, 0, prev.totleaf as int);
    lemma_rearranged_within(prev.nodes@, prev.nodes@, cur.nodes@, 0, prev.totleaf as int, from, to);
    assert forall|p: int| 0 <= p < cur.totleaf implies 0 <= #[trigger] cur.nodes@[p]
        < cur.totleaf by {
        assert(occurs_in(prev.nodes@, 0, prev.totleaf as int, cur.nodes@[p]));
    }
    assert(cur.base_ok());
    assert forall|s: int| cur.totleaf - 1 + (j + 1) <= s < cur.nodes@.len() implies #[trigger] cur.blank_ok(
        s,
    ) by {
        assert(prev.blank_ok(s));
        assert(same_core(cur.node(s), prev.node(s)));
    }
    assert(prev.blank_ok(sj));
    assert forall|s: int| cur.totleaf <= s < cur.totleaf - 1 + (j + 1) implies #[trigger] cur.built_ok(
        hp,
        depth,
        first,
        j + 1,
        s,
    ) by {
        if s == sj {
            assert forall|a: int|
                #![trigger lo(cur.bv(s), a)]
                #![trigger hi(cur.bv(s), a)]
                cur.start_axis <= a < cur.stop_axis implies lo(cur.bv(s), a) <= HULL_EMPTY
                && -HULL_EMPTY <= hi(cur.bv(s), a) by {
                lemma_union_bounds(
                    arena_slots(prev.node_array),
                    prev.nodes@.subrange(from, to),
                    a,
                );
            }
            assert forall|k: int| 0 <= k < cur.node(s).totnode implies cur.link_ok(
                hp,
                depth,
                first,
                j + 1,
                s,
                #[trigger] cur.node(s).children@[k] as int,
            ) by {
                lemma_link_made(prev, cur, hp, h, depth, first, j, k);
            }
        } else {
            assert(prev.built_ok(hp, depth, first, j, s));
            assert(same_core(cur.node(s), prev.node(s)));
            assert forall|a: int|
                #![trigger lo(cur.bv(s), a)]
                #![trigger hi(cur.bv(s), a)]
                cur.start_axis <= a < cur.stop_axis implies lo(cur.bv(s), a) <= HULL_EMPTY
                && -HULL_EMPTY <= hi(cur.bv(s), a) by {
                assert(lo(prev.bv(s), a) <= HULL_EMPTY && -HULL_EMPTY <= hi(prev.bv(s), a));
            }
            assert forall|k: int| 0 <= k < cur.node(s).totnode implies cur.link_ok(
                hp,
                depth,
                first,
                j + 1,
                s,
                #[trigger] cur.node(s).children@[k] as int,
            ) by {
                let c = prev.node(s).children@[k] as int;
                assert(prev.link_ok(hp, depth, first, j, s, c));
                lemma_link_kept(prev, cur, hp, h, depth, first, j, s, c);
            }
        }
    }
}

/// The union of bounded volumes is bounded.
pub proof fn lemma_union_bounded(
    bv: Seq<i64>,
    before: Seq<i64>,
    slots: Map<int, BVHNode>,
    handles: Seq<usize>,
    start: int,
    stop: int,
)
    requires
        fits(bv, start, stop),
        is_union(bv, slots, handles, start, stop),
        same_outside(bv, before, start, stop),
        bounded(before),
        forall|p: int| 0 <= p < handles.len() ==> bounded(slots[#[trigger] handles[p] as int].bv@),
        forall|p: int|
            0 <= p < handles.len() ==> fits(slots[#[trigger] handles[p] as int].bv@, start, stop),
    ensures
        bounded(bv),
{
    assert forall|k: int| 0 <= k < bv.len() implies -BV_MAX <= #[trigger] bv[k] <= BV_MAX by {
        let f = first_axis(bv);
        if 2 * (start - f) <= k < 2 * (stop - f) {
            let a = k / 2 + f;
            lemma_union_bounds(slots, handles, a);
            if k % 2 == 0 {
                assert(bv[k] == lo(bv, a));
                if union_lo(slots, handles, a) != HULL_EMPTY {
                    let p = choose|p: int|
                        0 <= p < handles.len() && union_lo(slots, handles, a) == lo(
                            slots[#[trigger] handles[p] as int].bv@,
                            a,
                        );
                    let held = slots[handles[p] as int].bv@;
                    assert(bounded(held));
                    assert(fits(held, start, stop));
                    assert(lo(held, a) == held[2 * (a - first_axis(held))]);
                }
            } else {
                assert(bv[k] == hi(bv, a));
                if union_hi(slots, handles, a) != -HULL_EMPTY {
                    let p = choose|p: int|
                        0 <= p < handles.len() && union_hi(slots, handles, a) == hi(
                            slots[#[trigger] handles[p] as int].bv@,
                            a,
                        );
                    let held = slots[handles[p] as int].bv@;
                    assert(bounded(held));
                    assert(fits(held, start, stop));
                    assert(hi(held, a) == held[2 * (a - first_axis(held)) + 1]);
                }
            }
        } else {
            assert(bv[k] == before[k]);
        }
    }
}

/// Makes a list of `n` zero positions.
fn zero_positions(n: usize) -> (r: Vec<usize>)
    ensures
        r@.len() == n,
        forall|k: int| 0 <= k < n ==> #[trigger] r@[k] == 0,
{
    let mut r: Vec<usize> = Vec::new();
    let mut k: usize = 0;
    while k < n
        invariant
            k <= n,
            r@.len() == k,
            forall|q: int| 0 <= q < k ==> #[trigger] r@[q] == 0,
        decreases n - k,
    {
        r.push(0);
        k = k + 1;
    }
    r
}

impl<'a> BVHDivNodesData<'a> {
    /// Whether this record describes the level of `tree` that starts at
    /// inner node number `first`, at depth `depth - 1`.
    pub open spec fn describes<E: Copy>(
        &self,
        tree: &BVHTree<E>,
        hp: BVHBuildHelper,
        depth: int,
        first: int,
    ) -> bool {
        &&& self.brances_array_start == tree.totleaf - 1
        &&& self.tree_offset == 2 - tree.tree_type
        &&& *self.data == hp
        &&& self.depth == depth
        &&& self.i == first
        &&& self.first_of_next_level == next_level(tree.tree_type as int, first)
    }
}

impl<E: Copy> BVHTree<E> {
    /// Computes where the leaves of inner node number `j` are to be split
    /// among its children: the node's own range, divided at the first leaf
    /// position of each child but the first.
    fn child_positions(
        &self,
        data: &BVHDivNodesData,
        j: usize,
        Ghost(h): Ghost<int>,
    ) -> (nth_positions: Vec<usize>)
        requires
            self.building(*data.data, h, data.depth as int, data.i as int, j as int),
            data.describes(self, *data.data, data.depth as int, data.i as int),
            j <= needed_branches(self.tree_type as int, self.totleaf as int),
            j < data.first_of_next_level,
        ensures
            nth_positions@.len() == MAX_TREETYPE_PLUS_ONE,
            forall|k: int|
                0 <= k <= self.tree_type ==> #[trigger] nth_positions@[k]
                    == data.data.spec_index(
                    data.depth + 1,
                    self.tree_type * (j - data.i) + k,
                ),
    {
        let ghost hp = *data.data;
        let ghost t = self.tree_type as int;
        let ghost depth = data.depth as int;
        let ghost first = data.i as int;
        proof {
            lemma_node_layout(hp, t, h, depth, first, j as int);
            lemma_level_next(t, depth, first);
            lemma_needed_branches(t, self.totleaf as int, self.totleaf as int);
            assert(index_safe(hp, depth + 1, t * (j - first) + 0));
            assert(index_safe(hp, depth + 1, t * (j - first) + t));
        }
        let tree_type: usize = self.tree_type as usize;
        let parent_level_index: usize = j - data.i;
        let parent_leafs_begin = data.data.implicit_leafs_index(data.depth, parent_level_index);
        let parent_leafs_end = data.data.implicit_leafs_index(
            data.depth,
            parent_level_index + 1,
        );
        let mut nth_positions = zero_positions(33);
        nth_positions.set(0, parent_leafs_begin);
        nth_positions.set(tree_type, parent_leafs_end);
        let mut k: usize = 1;
        while k < tree_type
            invariant
                1 <= k <= tree_type,
                tree_type == self.tree_type,
                2 <= tree_type <= 32,
                t == tree_type,
                hp == *data.data,
                depth == data.depth,
                first == data.i,
                first <= j,
                j <= needed_branches(t, self.totleaf as int) <= MAX_LEAVES,
                data.tree_offset == 2 - t,
                data.first_of_next_level == next_level(t, first),
                j * t + 2 - t == next_level(t, first) + t * (j - first),
                1 <= depth < 31,
                forall|q: int| 0 <= q <= t ==> #[trigger] index_safe(hp, depth + 1, t * (j - first) + q),
                nth_positions@.len() == 33,
                nth_positions@[0] == hp.spec_index(depth + 1, t * (j - first)),
                nth_positions@[t] == hp.spec_index(depth + 1, t * (j - first) + t),
                forall|q: int|
                    1 <= q < k ==> #[trigger] nth_positions@[q] == hp.spec_index(
                        depth + 1,
                        t * (j - first) + q,
                    ),
            decreases tree_type - k,
        {
            proof {
                assert(index_safe(hp, depth + 1, t * (j - first) + k));
                assert(j * t <= 0x200_0000 * 32) by (nonlinear_arith)
                    requires
                        0 <= j <= 0x200_0000,
                        2 <= t <= 32,
                ;
            }
            let child_index: usize = ((j * tree_type) as isize + data.tree_offset
                + k as isize) as usize;
            let child_level_index: usize = child_index - data.first_of_next_level;
            let position = data.data.implicit_leafs_index(data.depth + 1, child_level_index);
            nth_positions.set(k, position);
            k = k + 1;
        }
        nth_positions
    }
}

/// Length of the list of split positions: one more than `MAX_TREETYPE`.
pub const MAX_TREETYPE_PLUS_ONE: usize = 33;

impl<E: Copy> BVHTree<E> {
    /// Links inner node number `j` to its children: for each child in turn,
    /// the inner node with the child's number where the child is
    /// responsible for several leaves, the leaf itself where for one, and
    /// nothing more from the first child without leaves on.
    fn link_children(&mut self, data: &BVHDivNodesData, j: usize, Ghost(h): Ghost<int>)
        requires
            data.describes(old(self), *data.data, data.depth as int, data.i as int),
            data.data.table_ok(old(self).tree_type as int, h),
            data.data.totleafs == old(self).totleaf,
            1 <= data.depth <= h + 1,
            level_start(old(self).tree_type as int, data.depth as int, data.i as int),
            data.i <= j <= needed_branches(old(self).tree_type as int, old(self).totleaf as int),
            j < data.first_of_next_level,
            old(self).totleaf + needed_branches(
                old(self).tree_type as int,
                old(self).totleaf as int,
            ) <= old(self).nodes@.len(),
            arena_slots(old(self).node_array).dom() =~= Set::new(
                |s: int| 0 <= s < old(self).nodes@.len(),
            ),
            forall|p: int|
                0 <= p < old(self).totleaf ==> 0 <= #[trigger] old(self).nodes@[p] < old(
                    self,
                ).totleaf,
            old(self).node(old(self).totleaf - 1 + j).children@.len() == old(self).tree_type,
            no_children(old(self).node(old(self).totleaf - 1 + j).children@),
        ensures
            final(self).same_config(old(self)),
            final(self).totleaf == old(self).totleaf,
            final(self).totbranch == old(self).totbranch,
            final(self).elems@ == old(self).elems@,
            final(self).nodes@ == old(self).nodes@,
            arena_slots(final(self).node_array).dom() =~= arena_slots(old(self).node_array).dom(),
            forall|s: int|
                0 <= s < old(self).nodes@.len() && s != old(self).totleaf - 1 + j ==> same_core(
                    #[trigger] final(self).node(s),
                    old(self).node(s),
                ),
            final(self).bv(old(self).totleaf - 1 + j) == old(self).bv(old(self).totleaf - 1 + j),
            final(self).node(old(self).totleaf - 1 + j).elem_index == old(self).node(
                old(self).totleaf - 1 + j,
            ).elem_index,
            final(self).node(old(self).totleaf - 1 + j).main_axis == old(self).node(
                old(self).totleaf - 1 + j,
            ).main_axis,
            final(self).node(old(self).totleaf - 1 + j).children@.len() == old(self).tree_type,
            1 <= final(self).node(old(self).totleaf - 1 + j).totnode <= old(self).tree_type,
            forall|k: int|
                0 <= k < final(self).node(old(self).totleaf - 1 + j).totnode
                    ==> #[trigger] final(self).child_set(
                    *data.data,
                    data.depth as int,
                    data.i as int,
                    j as int,
                    k,
                ),
            forall|k: int|
                final(self).node(old(self).totleaf - 1 + j).totnode <= k < old(self).tree_type
                    ==> #[trigger] final(self).node(old(self).totleaf - 1 + j).children@[k]
                    == UNKNOWN,
            final(self).last_child(*data.data, data.depth as int, data.i as int, j as int),
            final(self).adopted(old(self), old(self).totleaf - 1 + j),
    {
        let ghost hp = *data.data;
        let ghost t = self.tree_type as int;
        let ghost depth = data.depth as int;
        let ghost first = data.i as int;
        let ghost nb = needed_branches(t, self.totleaf as int);
        let ghost sj = self.totleaf - 1 + j;
        let ghost cc = t * (j - first);
        proof {
            lemma_node_layout(hp, t, h, depth, first, j as int);
            lemma_level_next(t, depth, first);
            lemma_needed_branches(t, self.totleaf as int, self.totleaf as int);
            assert(j * t <= 0x200_0000 * 32) by (nonlinear_arith)
                requires
                    0 <= j <= 0x200_0000,
                    2 <= t <= 32,
            ;
            assert(cc >= 0) by (nonlinear_arith)
                requires
                    cc == t * (j - first),
                    j >= first,
                    t >= 2,
            ;
            lemma_level_products(hp, t, h, depth + 1);
            lemma_index_mono(hp, t, h, depth + 1, cc + t, cc + t);
        }
        let tree_type: usize = self.tree_type as usize;
        let parent_index: usize = data.brances_array_start + j;
        let mut totnode: u8 = 0;
        let mut k: usize = 0;
        while k < tree_type
            invariant
                0 <= k <= tree_type,
                totnode == k,
                tree_type == t,
                t == self.tree_type,
                2 <= t <= 32,
                hp == *data.data,
                hp.table_ok(t, h),
                depth == data.depth,
                depth <= h,
                1 <= first,
                cc >= 0,
                cc + t <= hp.bol(depth),
                first == data.i,
                cc == t * (j - first),
                sj == self.totleaf - 1 + j,
                parent_index == sj,
                nb == needed_branches(t, self.totleaf as int),
                first <= j <= nb <= MAX_LEAVES,
                self.totleaf <= MAX_LEAVES,
                self.totleaf + nb <= self.nodes@.len(),
                data.tree_offset == 2 - t,
                data.brances_array_start == self.totleaf - 1,
                data.first_of_next_level == next_level(t, first),
                j * t + 2 - t == next_level(t, first) + cc,
                j * t <= 0x200_0000 * 32,
                1 <= depth < 31,
                forall|q: int| 0 <= q <= t ==> #[trigger] index_safe(hp, depth + 1, cc + q),
                forall|q: int|
                    0 <= q < t ==> hp.spec_index(depth + 1, cc + q) <= #[trigger] hp.spec_index(
                        depth + 1,
                        cc + q + 1,
                    ),
                forall|q: int|
                    0 <= q < t && #[trigger] hp.spec_index(depth + 1, cc + q + 1) - hp.spec_index(
                        depth + 1,
                        cc + q,
                    ) > 1 ==> next_level(t, first) + cc + q <= nb,
                hp.spec_index(depth + 1, cc) < hp.spec_index(depth + 1, cc + 1),
                hp.spec_index(depth + 1, cc + t) <= self.totleaf,
                j < next_level(t, first) + cc,
                self.same_config(old(self)),
                self.totleaf == old(self).totleaf,
                self.totbranch == old(self).totbranch,
                self.elems@ == old(self).elems@,
                self.nodes@ == old(self).nodes@,
                arena_slots(self.node_array).dom() =~= Set::new(
                    |s: int| 0 <= s < self.nodes@.len(),
                ),
                forall|p: int|
                    0 <= p < self.totleaf ==> 0 <= #[trigger] self.nodes@[p] < self.totleaf,
                forall|s: int|
                    0 <= s < self.nodes@.len() && s != sj ==> same_core(
                        #[trigger] self.node(s),
                        old(self).node(s),
                    ),
                self.bv(sj) == old(self).bv(sj),
                self.node(sj).elem_index == old(self).node(sj).elem_index,
                self.node(sj).main_axis == old(self).node(sj).main_axis,
                self.node(sj).children@.len() == t,
                forall|q: int| 0 <= q < k ==> #[trigger] self.child_set(hp, depth, first, j as int, q),
                forall|q: int| k <= q < t ==> #[trigger] self.node(sj).children@[q] == UNKNOWN,
                forall|q: int|
                    0 <= q < k ==> self.node(#[trigger] self.node(sj).children@[q] as int).parent
                        == Some(sj as usize),
                forall|q: int|
                    0 <= q < k ==> 0 <= #[trigger] self.node(sj).children@[q] < self.nodes@.len()
                        && self.node(sj).children@[q] != sj,
                forall|c: int|
                    0 <= c < self.nodes@.len() && !(exists|q: int|
                        0 <= q < k && #[trigger] self.node(sj).children@[q] == c)
                        ==> #[trigger] self.node(c).parent == old(self).node(c).parent,
            ensures
                totnode >= 1,
                totnode < t ==> hp.spec_index(depth + 1, cc + totnode + 1) == hp.spec_index(
                    depth + 1,
                    cc + totnode,
                ),
            decreases tree_type - k,
        {
            proof {
                assert(index_safe(hp, depth + 1, cc + k));
                assert(index_safe(hp, depth + 1, cc + (k + 1)));
                assert(hp.spec_index(depth + 1, cc + k) <= hp.spec_index(depth + 1, cc + k + 1));
                lemma_index_mono(hp, t, h, depth + 1, cc + k + 1, cc + t);
                lemma_index_mono(hp, t, h, depth + 1, 0, cc + k);
            }
            let child_index: usize = ((j * tree_type) as isize + data.tree_offset
                + k as isize) as usize;
            let child_level_index: usize = child_index - data.first_of_next_level;
            let child_leafs_begin = data.data.implicit_leafs_index(
                data.depth + 1,
                child_level_index,
            );
            let child_leafs_end = data.data.implicit_leafs_index(
                data.depth + 1,
                child_level_index + 1,
            );
            let ghost before = *self;
            let ghost from = hp.spec_index(depth + 1, cc + k);
            let ghost to = hp.spec_index(depth + 1, cc + k + 1);
            proof {
                assert(child_index == j * t + 2 - t + k);
                assert(child_level_index == cc + k);
                assert(child_leafs_begin == from);
                assert(child_leafs_end == to);
            }
            let child: usize;
            if child_leafs_end - child_leafs_begin > 1 {
                proof {
                    assert(next_level(t, first) + cc + k <= nb);
                }
                child = data.brances_array_start + child_index;
            } else if child_leafs_end - child_leafs_begin == 1 {
                child = self.nodes[child_leafs_begin];
            } else {
                proof {
                    assert(k >= 1);
                }
                break ;
            }
            proof {
                assert(child != sj);
                assert(0 <= child < self.nodes@.len());
            }
            let parent = arena_get_mut(&mut self.node_array, parent_index);
            parent.children.set(k, child);
            let child_node = arena_get_mut(&mut self.node_array, child);
            child_node.parent = Some(parent_index);
            totnode = totnode + 1;
            proof {
                assert forall|s: int| 0 <= s < self.nodes@.len() && s != sj implies same_core(
                    #[trigger] self.node(s),
                    old(self).node(s),
                ) by {
                    assert(same_core(before.node(s), old(self).node(s)));
                }
                assert forall|q: int| 0 <= q < k + 1 implies self.node(
                    #[trigger] self.node(sj).children@[q] as int,
                ).parent == Some(sj as usize) && 0 <= self.node(sj).children@[q]
                    < self.nodes@.len() && self.node(sj).children@[q] != sj by {
                    if q < k {
                        assert(self.node(sj).children@[q] == before.node(sj).children@[q]);
                        let c = before.node(sj).children@[q] as int;
                        assert(before.node(c).parent == Some(sj as usize));
                    }
                }
                assert forall|c: int|
                    0 <= c < self.nodes@.len() && !(exists|q: int|
                        0 <= q < k + 1 && #[trigger] self.node(sj).children@[q]
                            == c) implies #[trigger] self.node(c).parent == old(self).node(c).parent by {
                    assert(self.node(sj).children@[k as int] == child);
                    assert(c != child);
                    if exists|q: int| 0 <= q < k && #[trigger] before.node(sj).children@[q] == c {
                        let q = choose|q: int|
                            0 <= q < k && #[trigger] before.node(sj).children@[q] == c;
                        assert(self.node(sj).children@[q] == c);
                    }
                    assert(before.node(c).parent == old(self).node(c).parent);
                }
                assert forall|q: int| 0 <= q < k + 1 implies #[trigger] self.child_set(
                    hp,
                    depth,
                    first,
                    j as int,
                    q,
                ) by {
                    if q < k {
                        assert(before.child_set(hp, depth, first, j as int, q));
                        assert(self.node(sj).children@[q] == before.node(sj).children@[q]);
                        assert(self.tree_type == before.tree_type);
                        assert(self.totleaf == before.totleaf);
                        assert(self.nodes@ == before.nodes@);
                        assert(self.child_set(hp, depth, first, j as int, q));
                    } else {
                        assert(q == k);
                        assert(self.node(sj).children@[q] == child);
                        assert(hp.spec_index(depth + 1, t * (j - first) + q) == from);
                        assert(hp.spec_index(depth + 1, t * (j - first) + q + 1) == to);
                        assert(self.nodes@ == before.nodes@);
                        if to - from == 1 {
                            assert(child == self.nodes@[from]);
                        } else {
                            assert(to - from > 1);
                            assert(child == self.totleaf - 1 + (j * t + 2 - t + q));
                        }
                        assert(self.tree_type as int == t);
                        assert(self.child_set(hp, depth, first, j as int, q));
                    }
                }
            }
            k = k + 1;
        }
        let ghost linked = *self;
        let parent = arena_get_mut(&mut self.node_array, parent_index);
        parent.totnode = totnode;
        proof {
            assert forall|q: int| 0 <= q < totnode implies #[trigger] self.child_set(
                hp,
                depth,
                first,
                j as int,
                q,
            ) by {
                assert(linked.child_set(hp, depth, first, j as int, q));
            }
            assert forall|s: int| 0 <= s < self.nodes@.len() && s != sj implies same_core(
                #[trigger] self.node(s),
                old(self).node(s),
            ) by {
                assert(same_core(linked.node(s), old(self).node(s)));
            }
            assert forall|q: int| 0 <= q < self.node(sj).totnode implies self.node(
                #[trigger] self.node(sj).children@[q] as int,
            ).parent == Some(sj as usize) by {
                assert(self.node(sj).children@[q] == linked.node(sj).children@[q]);
                let c = linked.node(sj).children@[q] as int;
                assert(linked.node(c).parent == Some(sj as usize));
                assert(c != sj);
            }
            assert forall|c: int|
                0 <= c < self.nodes@.len() && !self.is_child(sj, c) implies #[trigger] self.node(
                c,
            ).parent == old(self).node(c).parent by {
                if exists|q: int| 0 <= q < totnode && #[trigger] linked.node(sj).children@[q] == c {
                    let q = choose|q: int|
                        0 <= q < totnode && #[trigger] linked.node(sj).children@[q] == c;
                    assert(self.node(sj).children@[q] == c);
                }
                assert(linked.node(c).parent == old(self).node(c).parent);
            }
        }
    }
}

impl<E: Copy> BVHTree<E> {
    /// Builds inner node number `j`: gives it the union of the volumes of
    /// the leaves it is responsible for, picks the split axis, rearranges
    /// those leaves so that each child's range holds the leaves that
    /// sorting by the split key would put there, and links the children.
    #[verifier::rlimit(60)]
    fn non_recursive_bvh_div_nodes_task_cb(
        &mut self,
        data: &BVHDivNodesData,
        j: usize,
        Ghost(h): Ghost<int>,
    )
        requires
            old(self).building(*data.data, h, data.depth as int, data.i as int, j as int),
            data.describes(old(self), *data.data, data.depth as int, data.i as int),
            j <= needed_branches(old(self).tree_type as int, old(self).totleaf as int),
            j < data.first_of_next_level,
            old(self).gathering(*data.data, data.depth as int, data.i as int, j as int),
            old(self).tightening(*data.data, data.depth as int, data.i as int, j as int),
            old(self).sorting(*data.data, data.depth as int, data.i as int, j as int),
            old(self).shaping(*data.data, h, j as int),
            old(self).linking(*data.data, data.depth as int, data.i as int, j as int),
        ensures
            final(self).linking(*data.data, data.depth as int, data.i as int, j + 1),
            final(self).node(old(self).totleaf as int).parent == old(self).node(
                old(self).totleaf as int,
            ).parent,
            final(self).sorting(*data.data, data.depth as int, data.i as int, j + 1),
            final(self).shaping(*data.data, h, j + 1),
            final(self).building(*data.data, h, data.depth as int, data.i as int, j + 1),
            final(self).gathering(*data.data, data.depth as int, data.i as int, j + 1),
            final(self).tightening(*data.data, data.depth as int, data.i as int, j + 1),
            final(self).task_effect(
                old(self),
                *data.data,
                data.depth as int,
                data.i as int,
                j as int,
            ),
    {
        let ghost hp = *data.data;
        let ghost t = self.tree_type as int;
        let ghost depth = data.depth as int;
        let ghost first = data.i as int;
        let ghost sj = self.totleaf - 1 + j;
        let ghost cc = t * (j - first);
        let ghost slots0 = arena_slots(self.node_array);
        proof {
            lemma_node_layout(hp, t, h, depth, first, j as int);
            lemma_level_next(t, depth, first);
            lemma_needed_branches(t, self.totleaf as int, self.totleaf as int);
            assert(old(self).blank_ok(sj));
            assert(old(self).shape_ok(sj));
        }
        let tree_type: usize = self.tree_type as usize;
        let start_axis = self.start_axis;
        let stop_axis = self.stop_axis;
        let nth_positions = self.child_positions(data, j, Ghost(h));
        let parent_leafs_begin = nth_positions[0];
        let parent_leafs_end = nth_positions[tree_type];
        let parent_index: usize = data.brances_array_start + j;
        let ghost handles = self.nodes@.subrange(
            parent_leafs_begin as int,
            parent_leafs_end as int,
        );
        proof {
            assert(nth_positions@[0] == hp.spec_index(depth + 1, cc + 0));
            assert(nth_positions@[t] == hp.spec_index(depth + 1, cc + t));
            assert forall|p: int| parent_leafs_begin <= p < parent_leafs_end implies arena_slots(
                self.node_array,
            ).dom().contains(#[trigger] self.nodes@[p] as int) && self.nodes@[p] != parent_index
                && fits(
                arena_slots(self.node_array)[self.nodes@[p] as int].bv@,
                start_axis as int,
                stop_axis as int,
            ) by {
                assert(self.shape_ok(self.nodes@[p] as int));
            }
        }
        // the bounding volume of this branch, whose longest axis is the one
        // to divide the leaves along
        refit_kdop_hull(
            &self.nodes,
            &mut self.node_array,
            parent_index,
            parent_leafs_begin,
            parent_leafs_end,
            start_axis,
            stop_axis,
        );
        proof {
            let slots1 = arena_slots(self.node_array);
            assert forall|p: int| 0 <= p < handles.len() implies bounded(
                slots0[#[trigger] handles[p] as int].bv@,
            ) && fits(slots0[handles[p] as int].bv@, start_axis as int, stop_axis as int) by {
                assert(handles[p] == old(self).nodes@[parent_leafs_begin + p]);
                assert(old(self).shape_ok(handles[p] as int));
            }
            lemma_union_bounded(
                slots1[sj].bv@,
                slots0[sj].bv@,
                slots0,
                handles,
                start_axis as int,
                stop_axis as int,
            );
        }
        let split_axis: u8;
        {
            let parent = arena_get_mut(&mut self.node_array, parent_index);
            split_axis = get_largest_axis(&parent.bv);
            // the split axis is kept to speed up the queries
            parent.main_axis = split_axis / 2;
        }
        let ghost mid = *self;
        proof {
            assert forall|i: int, k: int| 0 <= i <= k <= t implies #[trigger] nth_positions@[i]
                <= #[trigger] nth_positions@[k] by {
                lemma_level_products(hp, t, h, depth + 1);
                lemma_index_mono(hp, t, h, depth + 1, cc + i, cc + k);
            }
            assert forall|p: int| parent_leafs_begin <= p < parent_leafs_end implies arena_slots(
                self.node_array,
            ).dom().contains(#[trigger] self.nodes@[p] as int) && arena_slots(
                self.node_array,
            )[self.nodes@[p] as int].bv@.len() > (split_axis as int) by {
                assert(old(self).shape_ok(self.nodes@[p] as int));
            }
        }
        // the leaves need not be sorted: it is enough that each child gets
        // the leaves it would get if they were
        split_leafs(
            &mut self.nodes,
            &self.node_array,
            &nth_positions,
            tree_type,
            (split_axis - 1) as usize,
        );
        let ghost split = *self;
        proof {
            lemma_rearranged_refl(old(self).nodes@, 0, self.totleaf as int);
            lemma_rearranged_within(
                old(self).nodes@,
                old(self).nodes@,
                self.nodes@,
                0,
                self.totleaf as int,
                parent_leafs_begin as int,
                parent_leafs_end as int,
            );
            assert forall|p: int| 0 <= p < self.totleaf implies 0 <= #[trigger] self.nodes@[p]
                < self.totleaf by {
                assert(occurs_in(old(self).nodes@, 0, self.totleaf as int, self.nodes@[p]));
            }
        }
        self.link_children(data, j, Ghost(h));
        proof {
            assert forall|s: int| 0 <= s < self.nodes@.len() && s != sj implies same_core(
                #[trigger] self.node(s),
                old(self).node(s),
            ) by {
                assert(same_core(self.node(s), split.node(s)));
            }
            assert forall|m: int| 1 <= m < self.tree_type implies #[trigger] self.parted(
                hp,
                depth,
                first,
                j as int,
                m,
            ) by {
                let ax = split_axis as int - 1;
                assert(nth_positions@[m - 1] == hp.spec_index(depth + 1, cc + (m - 1)));
                assert(nth_positions@[m] == hp.spec_index(depth + 1, cc + m));
                assert(nth_positions@[t] == hp.spec_index(depth + 1, cc + t));
                assert(all_le(
                    split.nodes@,
                    arena_slots(split.node_array),
                    ax,
                    nth_positions@[m - 1] as int,
                    nth_positions@[m] as int,
                    nth_positions@[m] as int,
                    nth_positions@[t] as int,
                ));
                lemma_index_mono(hp, t, h, depth + 1, cc, cc + m - 1);
                lemma_index_mono(hp, t, h, depth + 1, cc + m, cc + t);
                assert forall|p: int, q: int|
                    nth_positions@[m - 1] <= p < nth_positions@[m] && nth_positions@[m] <= q
                        < nth_positions@[t] implies crate::bvh::construct::key(
                    arena_slots(self.node_array),
                    #[trigger] self.nodes@[p],
                    ax,
                ) <= crate::bvh::construct::key(
                    arena_slots(self.node_array),
                    #[trigger] self.nodes@[q],
                    ax,
                ) by {
                    assert(0 <= self.nodes@[p] < self.totleaf);
                    assert(0 <= self.nodes@[q] < self.totleaf);
                    assert(same_core(
                        self.node(self.nodes@[p] as int),
                        split.node(self.nodes@[p] as int),
                    ));
                    assert(same_core(
                        self.node(self.nodes@[q] as int),
                        split.node(self.nodes@[q] as int),
                    ));
                    assert(crate::bvh::construct::key(
                        arena_slots(split.node_array),
                        split.nodes@[p],
                        ax,
                    ) <= crate::bvh::construct::key(
                        arena_slots(split.node_array),
                        split.nodes@[q],
                        ax,
                    ));
                }
            }
            assert(self.task_effect(old(self), hp, depth, first, j as int));
            lemma_task_done(old(self), self, hp, h, depth, first, j as int);
            crate::bvh::gather::lemma_gathering_kept(
                old(self),
                self,
                hp,
                h,
                depth,
                first,
                j as int,
            );
            crate::bvh::gather::lemma_tightening_kept(
                old(self),
                self,
                hp,
                h,
                depth,
                first,
                j as int,
            );
            crate::bvh::order::lemma_sorting_kept(old(self), self, hp, h, depth, first, j as int);
            lemma_shaping_kept(old(self), self, hp, h, depth, first, j as int);
            crate::bvh::parent::lemma_linking_kept(old(self), self, hp, h, depth, first, j as int);
            crate::bvh::parent::lemma_root_kept(old(self), self, hp, h, depth, first, j as int);
        }
    }
}

impl<E: Copy> BVHTree<E> {
    /// The number of inner nodes to build over the leaves: one over a
    /// single leaf.
    pub open spec fn to_build(&self) -> int {
        if self.totleaf == 1 {
            1
        } else {
            needed_branches(self.tree_type as int, self.totleaf as int)
        }
    }

    /// The state of the tree once the leaves are divided among `count`
    /// inner nodes and before `totbranch` and the handles of the inner nodes
    /// are recorded (over a single leaf, the root's handle already is).
    pub open spec fn divided(&self, count: int) -> bool {
        &&& self.base_ok()
        &&& self.totbranch == 0
        &&& 1 <= self.totleaf
        &&& 1 <= count
        &&& self.totleaf + count <= self.nodes@.len()
        &&& forall|p: int|
            self.totleaf <= p < self.nodes@.len() ==> #[trigger] self.nodes@[p] == if self.totleaf
                == 1 && p == 1 {
                1
            } else {
                UNKNOWN
            }
        &&& forall|s: int|
            self.totleaf <= s < self.totleaf + count ==> #[trigger] self.branch_within(s, count)
        &&& forall|s: int|
            self.totleaf <= s < self.totleaf + count ==> #[trigger] self.split_recorded(s)
        &&& forall|s: int|
            self.totleaf + count <= s < self.nodes@.len() ==> #[trigger] self.blank_ok(s)
    }
}

/// When the last node of a level is built and inner nodes remain, the
/// state is that of the start of the level below.
pub proof fn lemma_level_done<E: Copy>(
    tree: &BVHTree<E>,
    hp: BVHBuildHelper,
    h: int,
    depth: int,
    first: int,
)
    requires
        tree.building(hp, h, depth, first, next_level(tree.tree_type as int, first)),
        next_level(tree.tree_type as int, first) <= needed_branches(
            tree.tree_type as int,
            tree.totleaf as int,
        ),
    ensures
        tree.building(
            hp,
            h,
            depth + 1,
            next_level(tree.tree_type as int, first),
            next_level(tree.tree_type as int, first),
        ),
{
    let t = tree.tree_type as int;
    let next = next_level(t, first);
    let next2 = next_level(t, next);
    lemma_level_next(t, depth, first);
    lemma_node_layout(hp, t, h, depth, first, first);
    lemma_level_next(t, depth + 1, next);
    assert forall|s: int| tree.totleaf <= s < tree.totleaf - 1 + next implies #[trigger] tree.built_ok(
        hp,
        depth + 1,
        next,
        next,
        s,
    ) by {
        assert(tree.built_ok(hp, depth, first, next, s));
        assert forall|k: int| 0 <= k < tree.node(s).totnode implies tree.link_ok(
            hp,
            depth + 1,
            next,
            next,
            s,
            #[trigger] tree.node(s).children@[k] as int,
        ) by {
            let c = tree.node(s).children@[k] as int;
            assert(tree.link_ok(hp, depth, first, next, s, c));
            let x = c - (tree.totleaf - 1);
            let y = s - (tree.totleaf - 1);
            if c >= tree.totleaf && x >= next {
                assert(x < next2) by (nonlinear_arith)
                    requires
                        x < y * t + 2,
                        y <= next - 1,
                        next2 == next * t + 2 - t,
                        t >= 2,
                ;
            }
        }
    }
}

/// When the last inner node is built, the leaves are divided.
pub proof fn lemma_all_built<E: Copy>(
    tree: &BVHTree<E>,
    hp: BVHBuildHelper,
    h: int,
    depth: int,
    first: int,
)
    requires
        tree.building(
            hp,
            h,
            depth,
            first,
            needed_branches(tree.tree_type as int, tree.totleaf as int) + 1,
        ),
    ensures
        tree.divided(needed_branches(tree.tree_type as int, tree.totleaf as int)),
{
    let t = tree.tree_type as int;
    let nb = needed_branches(t, tree.totleaf as int);
    lemma_needed_branches(t, tree.totleaf as int, tree.totleaf as int);
    assert forall|s: int| tree.totleaf <= s < tree.totleaf + nb implies #[trigger] tree.split_recorded(
        s,
    ) by {
        assert(tree.built_ok(hp, depth, first, nb + 1, s));
    }
    assert forall|s: int| tree.totleaf <= s < tree.totleaf + nb implies #[trigger] tree.branch_within(
        s,
        nb,
    ) by {
        assert(tree.built_ok(hp, depth, first, nb + 1, s));
        assert forall|k: int| 0 <= k < tree.node(s).totnode implies tree.child_within(
            s,
            #[trigger] tree.node(s).children@[k] as int,
            nb,
        ) by {
            let c = tree.node(s).children@[k] as int;
            assert(tree.link_ok(hp, depth, first, nb + 1, s, c));
            let x = c - (tree.totleaf - 1);
            let y = s - (tree.totleaf - 1);
            if c >= tree.totleaf {
                assert(x > y) by (nonlinear_arith)
                    requires
                        y * t + 2 - t <= x,
                        y >= 1,
                        t >= 2,
                ;
            }
        }
    }
}

impl<E: Copy> BVHTree<E> {
    /// Divides the leaves among the inner nodes, level by level from the
    /// root. Over a single leaf, the root is made with that leaf as its
    /// only child.
    fn non_recursive_bvh_div_nodes(&mut self, branches_array_start: usize, num_leafs: usize)
        requires
            old(self).wf(),
            !old(self).balanced(),
            1 <= old(self).totleaf,
            num_leafs == old(self).totleaf,
            branches_array_start == old(self).totleaf - 1,
        ensures
            final(self).divided(old(self).to_build()),
            final(self).same_config(old(self)),
            final(self).totleaf == old(self).totleaf,
            final(self).elems@ == old(self).elems@,
            forall|s: int|
                0 <= s < old(self).totleaf ==> same_core(
                    #[trigger] final(self).node(s),
                    old(self).node(s),
                ),
            rearranged(old(self).nodes@, final(self).nodes@, 0, old(self).totleaf as int)
                || old(self).totleaf == 1,
            old(self).totleaf == 1 ==> final(self).nodes@[0] == old(self).nodes@[0]
                && final(self).node(1).totnode == 1 && final(self).node(1).children@[0] == old(
                self,
            ).nodes@[0],
            is_union(
                final(self).bv(old(self).totleaf as int),
                arena_slots(old(self).node_array),
                old(self).nodes@.subrange(0, old(self).totleaf as int),
                old(self).start_axis as int,
                old(self).stop_axis as int,
            ),
            final(self).spanning(),
            forall|s: int, a: int|
                old(self).totleaf <= s < old(self).totleaf + old(self).to_build() && old(
                    self,
                ).start_axis <= a < old(self).stop_axis ==> #[trigger] final(self).snug(s, a),
            forall|s: int|
                old(self).totleaf <= s < old(self).totleaf + old(self).to_build()
                    ==> #[trigger] final(self).ordered(s),
            old(self).totleaf >= 2 ==> exists|hp: BVHBuildHelper, h: int|
                #[trigger] final(self).laid_out(hp, h),
            final(self).parented(old(self).to_build() + 1),
            final(self).node(old(self).totleaf as int).parent == old(self).node(
                old(self).totleaf as int,
            ).parent,
    {
        let tree_type = self.tree_type;
        let tree_offset: isize = 2 - tree_type as isize;
        let ghost t = tree_type as int;
        let ghost slots0 = arena_slots(self.node_array);
        let ghost all = self.nodes@.subrange(0, self.totleaf as int);
        proof {
            lemma_needed_branches(t, self.totleaf as int, self.max_size as int);
            lemma_needed_branches(t, self.totleaf as int, self.totleaf as int);
            assert(self.branches() == 0);
        }
        let num_branches = implicit_needed_branches(tree_type, num_leafs);
        if num_leafs == 1 {
            let root_index: usize = branches_array_start + 1;
            let start_axis = self.start_axis;
            let stop_axis = self.stop_axis;
            proof {
                assert(self.blank_ok(1));
                assert(self.shape_ok(1));
                assert(self.shape_ok(0));
                assert(self.leaf_ok(0));
                assert(self.nodes@[0] == 0);
                assert(self.shape_ok(self.nodes@[0] as int));
            }
            refit_kdop_hull(
                &self.nodes,
                &mut self.node_array,
                root_index,
                0,
                num_leafs,
                start_axis,
                stop_axis,
            );
            proof {
                let slots1 = arena_slots(self.node_array);
                assert forall|p: int| 0 <= p < all.len() implies bounded(
                    slots0[#[trigger] all[p] as int].bv@,
                ) && fits(slots0[all[p] as int].bv@, start_axis as int, stop_axis as int) by {
                    assert(all[p] == old(self).nodes@[p]);
                    assert(old(self).shape_ok(all[p] as int));
                }
                lemma_union_bounded(
                    slots1[1].bv@,
                    slots0[1].bv@,
                    slots0,
                    all,
                    start_axis as int,
                    stop_axis as int,
                );
                lemma_union_contains_member(
                    slots1[1].bv@,
                    slots0,
                    all,
                    start_axis as int,
                    stop_axis as int,
                    0,
                );
            }
            let root_child_index = self.nodes[0];
            {
                let root = arena_get_mut(&mut self.node_array, root_index);
                root.main_axis = get_largest_axis(&root.bv) / 2;
                root.totnode = 1;
                root.children.set(0, root_child_index);
            }
            let child = arena_get_mut(&mut self.node_array, root_child_index);
            child.parent = Some(root_index);
            // a tree cannot start with a leaf, so over a single leaf there
            // are two nodes, and the second handle is the root's
            self.nodes.set(1, root_index);
            proof {
                assert forall|s: int| 0 <= s < self.nodes@.len() implies #[trigger] self.shape_ok(
                    s,
                ) by {
                    assert(old(self).shape_ok(s));
                }
                assert forall|s: int| 0 <= s < self.totleaf implies #[trigger] self.leaf_ok(
                    s,
                ) by {
                    assert(old(self).leaf_ok(s));
                }
                assert forall|s: int| self.totleaf + 1 <= s < self.nodes@.len() implies #[trigger] self.blank_ok(
                    s,
                ) by {
                    assert(old(self).blank_ok(s));
                }
                assert(self.child_within(1, 0, 1));
                assert(self.branch_within(1, 1));
                assert(self.rank(0) < self.rank(1));
                assert(self.reaches(0, 0));
                assert(self.node(1).children@[0] == 0);
                assert(self.reaches(1, 0));
                assert(self.ordered(1));
                assert forall|s: int, a: int|
                    self.totleaf <= s < self.totleaf + 1 && self.start_axis <= a
                        < self.stop_axis implies #[trigger] self.snug(s, a) by {
                    lemma_union_bounds(slots0, all, a);
                    assert(lo(self.bv(1), a) == union_lo(slots0, all, a));
                    assert(hi(self.bv(1), a) == union_hi(slots0, all, a));
                    assert(all[0] == 0);
                    assert(all.len() == 1);
                    assert(self.bv(0) == slots0[0].bv@);
                }
            }
            return ;
        }
        let data = build_implicit_helper(num_leafs, tree_type);
        let ghost h = data.height(t);
        let mut cb_data = BVHDivNodesData::new(branches_array_start, tree_offset, &data, 0, 0, 0);
        // loop over the levels of the tree
        let mut i: usize = 1;
        let mut depth: usize = 1;
        proof {
            lemma_root_range(data, t, h);
            assert forall|s: int| self.totleaf - 1 + 1 <= s < self.nodes@.len() implies #[trigger] self.blank_ok(
                s,
            ) by {}
            assert(self.building(data, h, 1, 1, 1));
            lemma_rearranged_refl(self.nodes@, 0, self.totleaf as int);
            assert forall|l: int| 0 <= l < self.totleaf implies #[trigger] self.holds(
                data,
                1,
                1,
                1,
                self.totleaf as int,
                l,
            ) by {
                crate::bvh::gather::lemma_every_leaf_named(self.nodes@, self.totleaf as int, l);
                assert(node_range(data, t, 1, 1, 1) == (0int, self.totleaf as int));
            }
            assert(self.tightening(data, 1, 1, 1));
            assert(self.sorting(data, 1, 1, 1));
            assert(self.linking(data, 1, 1, 1));
            assert(self.shaping(data, h, 1)) by {
                assert forall|d: int, y: int|
                    1 <= d <= h && level_first(t, d) <= y < next_level(t, level_first(t, d)) && y
                        < 1 implies #[trigger] self.shaped(data, d, y) by {
                    crate::bvh::layout::lemma_level_first(t, d);
                    lemma_level_next(t, d, level_first(t, d));
                }
            }
        }
        while i <= num_branches
            invariant
                tree_type == self.tree_type,
                t == tree_type,
                tree_offset == 2 - t,
                num_branches == needed_branches(t, self.totleaf as int),
                1 <= num_branches <= MAX_LEAVES,
                data.table_ok(t, h),
                cb_data.brances_array_start == self.totleaf - 1,
                cb_data.tree_offset == tree_offset,
                *cb_data.data == data,
                1 <= i,
                1 <= depth <= 30,
                (i == 1) == (depth == 1),
                i == 1 ==> self.nodes@ == old(self).nodes@,
                i <= num_branches ==> self.building(data, h, depth as int, i as int, i as int),
                i <= num_branches ==> self.gathering(data, depth as int, i as int, i as int),
                i <= num_branches ==> self.tightening(data, depth as int, i as int, i as int),
                i <= num_branches ==> self.sorting(data, depth as int, i as int, i as int),
                i <= num_branches ==> self.linking(data, depth as int, i as int, i as int),
                i > num_branches ==> self.parented(num_branches + 1),
                self.node(self.totleaf as int).parent == old(self).node(
                    self.totleaf as int,
                ).parent,
                self.shaping(data, h, if i <= num_branches {
                    i as int
                } else {
                    num_branches + 1
                }),
                data.totleafs == self.totleaf,
                i > num_branches ==> forall|s: int|
                    self.totleaf <= s < self.totleaf + num_branches ==> #[trigger] self.ordered(
                        s,
                    ),
                i > num_branches ==> self.divided(num_branches as int),
                i > num_branches ==> self.spanning(),
                i > num_branches ==> forall|s: int, a: int|
                    self.totleaf <= s < self.totleaf + num_branches && self.start_axis <= a
                        < self.stop_axis ==> #[trigger] self.snug(s, a),
                self.same_config(old(self)),
                self.totleaf == old(self).totleaf,
                2 <= self.totleaf,
                self.elems@ == old(self).elems@,
                forall|s: int|
                    0 <= s < self.totleaf ==> same_core(#[trigger] self.node(s), old(self).node(s)),
                rearranged(old(self).nodes@, self.nodes@, 0, self.totleaf as int),
                i > 1 ==> is_union(
                    self.bv(self.totleaf as int),
                    slots0,
                    all,
                    self.start_axis as int,
                    self.stop_axis as int,
                ),
                all == old(self).nodes@.subrange(0, self.totleaf as int),
                slots0 == arena_slots(old(self).node_array),
            decreases crate::bvh::kdop::max_int(0, num_branches + 1 - i),
        {
            proof {
                assert(i * t <= 0x200_0000 * 32) by (nonlinear_arith)
                    requires
                        1 <= i <= 0x200_0000,
                        2 <= t <= 32,
                ;
                assert(i * t + 2 - t > i) by (nonlinear_arith)
                    requires
                        1 <= i,
                        2 <= t,
                ;
                lemma_node_layout(data, t, h, depth as int, i as int, i as int);
                lemma_level_next(t, depth as int, i as int);
            }
            let first_of_next_level: usize = ((i as isize * tree_type as isize)
                + tree_offset) as usize;
            // one past the last branch of this level
            let i_stop: usize = if first_of_next_level < num_branches + 1 {
                first_of_next_level
            } else {
                num_branches + 1
            };
            cb_data.first_of_next_level = first_of_next_level;
            cb_data.i = i;
            cb_data.depth = depth;
            let mut i_task: usize = i;
            while i_task < i_stop
                invariant
                    1 <= i <= i_task <= i_stop,
                    i < first_of_next_level,
                    i_stop <= num_branches + 1,
                    i_stop <= first_of_next_level,
                    (i == 1) == (depth == 1),
                    i_task == 1 ==> self.nodes@ == old(self).nodes@,
                    first_of_next_level == next_level(t, i as int),
                    tree_type == self.tree_type,
                    t == tree_type,
                    num_branches == needed_branches(t, self.totleaf as int),
                    cb_data.describes(self, data, depth as int, i as int),
                    self.building(data, h, depth as int, i as int, i_task as int),
                    self.gathering(data, depth as int, i as int, i_task as int),
                    self.tightening(data, depth as int, i as int, i_task as int),
                    self.sorting(data, depth as int, i as int, i_task as int),
                    self.linking(data, depth as int, i as int, i_task as int),
                    self.node(self.totleaf as int).parent == old(self).node(
                        self.totleaf as int,
                    ).parent,
                    self.shaping(data, h, i_task as int),
                    data.totleafs == self.totleaf,
                    self.same_config(old(self)),
                    self.totleaf == old(self).totleaf,
                    2 <= self.totleaf,
                    self.elems@ == old(self).elems@,
                    forall|s: int|
                        0 <= s < self.totleaf ==> same_core(
                            #[trigger] self.node(s),
                            old(self).node(s),
                        ),
                    rearranged(old(self).nodes@, self.nodes@, 0, self.totleaf as int),
                    i_task > 1 ==> is_union(
                        self.bv(self.totleaf as int),
                        slots0,
                        all,
                        self.start_axis as int,
                        self.stop_axis as int,
                    ),
                    all == old(self).nodes@.subrange(0, self.totleaf as int),
                    slots0 == arena_slots(old(self).node_array),
                decreases i_stop - i_task,
            {
                let ghost before = *self;
                self.non_recursive_bvh_div_nodes_task_cb(&cb_data, i_task, Ghost(h));
                proof {
                    let from = data.spec_index(depth as int, i_task - i);
                    let to = data.spec_index(depth as int, i_task - i + 1);
                    lemma_node_layout(data, t, h, depth as int, i as int, i_task as int);
                    lemma_level_next(t, depth as int, i as int);
                    lemma_rearranged_within(
                        old(self).nodes@,
                        before.nodes@,
                        self.nodes@,
                        0,
                        self.totleaf as int,
                        from,
                        to,
                    );
                    assert forall|s: int| 0 <= s < self.totleaf implies same_core(
                        #[trigger] self.node(s),
                        old(self).node(s),
                    ) by {
                        assert(same_core(self.node(s), before.node(s)));
                        assert(same_core(before.node(s), old(self).node(s)));
                    }
                    if i_task == 1 {
                        lemma_root_range(data, t, h);
                        assert(depth == 1 && i == 1);
                        assert(before.nodes@ == old(self).nodes@);
                        assert(before.nodes@.subrange(from, to) == all);
                        assert forall|p: int| 0 <= p < all.len() implies arena_slots(
                            before.node_array,
                        )[#[trigger] all[p] as int].bv@ == slots0[all[p] as int].bv@ by {
                            assert(all[p] == old(self).nodes@[p]);
                            assert(same_core(before.node(all[p] as int), old(self).node(all[p] as int)));
                        }
                        assert forall|a: int|
                            #![trigger lo(self.bv(self.totleaf as int), a)]
                            #![trigger hi(self.bv(self.totleaf as int), a)]
                            self.start_axis <= a < self.stop_axis implies lo(
                            self.bv(self.totleaf as int),
                            a,
                        ) == union_lo(slots0, all, a) && hi(self.bv(self.totleaf as int), a)
                            == union_hi(slots0, all, a) by {
                            crate::bvh::construct::lemma_union_same(
                                arena_slots(before.node_array),
                                slots0,
                                all,
                                a,
                            );
                        }
                    } else {
                        assert(same_core(
                            self.node(self.totleaf as int),
                            before.node(self.totleaf as int),
                        ));
                    }
                }
                i_task = i_task + 1;
            }
            proof {
                if i_stop == first_of_next_level && first_of_next_level <= num_branches {
                    lemma_level_done(self, data, h, depth as int, i as int);
                    crate::bvh::gather::lemma_gathering_level(
                        self,
                        data,
                        h,
                        depth as int,
                        i as int,
                    );
                    crate::bvh::gather::lemma_tightening_level(
                        self,
                        data,
                        h,
                        depth as int,
                        i as int,
                    );
                    crate::bvh::order::lemma_sorting_level(self, data, h, depth as int, i as int);
                    crate::bvh::parent::lemma_linking_level(self, data, h, depth as int, i as int);
                } else {
                    assert(i_task == num_branches + 1);
                    lemma_all_built(self, data, h, depth as int, i as int);
                    crate::bvh::gather::lemma_gathering_done(
                        self,
                        data,
                        h,
                        depth as int,
                        i as int,
                    );
                    crate::bvh::gather::lemma_tightening_done(
                        self,
                        data,
                        h,
                        depth as int,
                        i as int,
                    );
                    crate::bvh::order::lemma_sorting_done(self, data, h, depth as int, i as int);
                }
            }
            i = first_of_next_level;
            depth += 1;
        }
        proof {
            assert(self.laid_out(data, h));
        }
    }

    /// Builds the inner nodes over the inserted leaves. To be called once,
    /// after the last `insert`.
    ///
    /// Afterwards the root is the node behind the handle at position
    /// `totleaf`, and every leaf lies under it. The inner nodes have the
    /// children that the implicit layout of a balanced tree gives them,
    /// and each child names its node as parent; the root keeps the
    /// parent entry that it had, which is none after `new` and `insert`.
    /// Each inner node has the
    /// union of the volumes of its children and records the axis on which
    /// it is widest, and along that axis the leaves under an earlier child
    /// have no larger lower end than those under a later one. The leaves
    /// are as they were but for the parent; their handles are in another
    /// order.
    pub fn balance(&mut self)
        requires
            old(self).wf(),
            !old(self).balanced(),
        ensures
            final(self).wf(),
            final(self).same_config(old(self)),
            final(self).totleaf == old(self).totleaf,
            final(self).elems@ == old(self).elems@,
            final(self).totbranch == if old(self).totleaf == 0 {
                0
            } else {
                needed_branches(old(self).tree_type as int, old(self).totleaf as int)
            },
            final(self).contained(),
            final(self).spanning(),
            forall|s: int|
                old(self).totleaf <= s < old(self).totleaf + final(self).branches()
                    ==> #[trigger] final(self).joined(s),
            forall|s: int|
                old(self).totleaf <= s < old(self).totleaf + final(self).branches()
                    ==> #[trigger] final(self).ordered(s),
            old(self).totleaf >= 2 ==> exists|hp: BVHBuildHelper, h: int|
                #[trigger] final(self).laid_out(hp, h),
            final(self).linked(),
            final(self).node(old(self).totleaf as int).parent == old(self).node(
                old(self).totleaf as int,
            ).parent,
            old(self).unlinked() ==> final(self).node(old(self).totleaf as int).parent.is_none(),
            forall|s: int|
                old(self).totleaf <= s < old(self).totleaf + final(self).branches()
                    ==> #[trigger] final(self).split_recorded(s),
            old(self).totleaf > 0 ==> final(self).balanced(),
            old(self).totleaf >= 2 ==> final(self).totbranch >= 1,
            old(self).totleaf == 1 && old(self).tree_type == 2 ==> final(self).totbranch == 1,
            old(self).totleaf == 0 ==> *final(self) == *old(self),
            old(self).totleaf > 0 ==> final(self).nodes@[old(self).totleaf as int] == old(
                self,
            ).totleaf,
            forall|s: int|
                0 <= s < old(self).totleaf ==> same_core(
                    #[trigger] final(self).node(s),
                    old(self).node(s),
                ),
            forall|p: int|
                0 <= p < old(self).totleaf ==> occurs_in(
                    old(self).nodes@,
                    0,
                    old(self).totleaf as int,
                    #[trigger] final(self).nodes@[p],
                ),
            old(self).totleaf > 0 ==> is_union(
                final(self).bv(old(self).totleaf as int),
                arena_slots(old(self).node_array),
                old(self).nodes@.subrange(0, old(self).totleaf as int),
                old(self).start_axis as int,
                old(self).stop_axis as int,
            ),
            old(self).totleaf == 1 ==> final(self).node(1).totnode == 1 && final(self).node(
                1,
            ).children@[0] == old(self).nodes@[0],
    {
        if self.totleaf == 0 {
            // nothing to balance
            return ;
        }
        proof {
            assert(needed_branches(2, 1) == 1) by (nonlinear_arith);
            lemma_needed_branches(
                self.tree_type as int,
                self.totleaf as int,
                self.totleaf as int,
            );
            lemma_needed_branches(
                self.tree_type as int,
                self.totleaf as int,
                self.max_size as int,
            );
        }
        self.non_recursive_bvh_div_nodes(self.totleaf - 1, self.totleaf);
        let ghost divided = *self;
        proof {
            lemma_needed_branches(
                self.tree_type as int,
                self.max_size as int,
                self.max_size as int,
            );
        }
        let ghost count = if self.totleaf == 1 {
            1
        } else {
            needed_branches(self.tree_type as int, self.totleaf as int)
        };
        self.totbranch = implicit_needed_branches(self.tree_type, self.totleaf);
        let mut i: usize = 0;
        while i < self.totbranch
            invariant
                i <= self.totbranch,
                self.totbranch == needed_branches(self.tree_type as int, self.totleaf as int),
                self.totbranch <= count,
                self.totleaf + count <= self.nodes@.len(),
                self.nodes@.len() <= 0x1000_0000,
                self.nodes@.len() == divided.nodes@.len(),
                self.node_array == divided.node_array,
                self.elems == divided.elems,
                self.same_config(&divided),
                self.totleaf == divided.totleaf,
                forall|p: int| 0 <= p < self.totleaf ==> #[trigger] self.nodes@[p] == divided.nodes@[p],
                forall|p: int| self.totleaf <= p < self.totleaf + i ==> #[trigger] self.nodes@[p] == p,
                forall|p: int|
                    self.totleaf + i <= p < self.nodes@.len() ==> #[trigger] self.nodes@[p]
                        == divided.nodes@[p],
            decreases self.totbranch - i,
        {
            let position = self.totleaf + i;
            self.nodes.set(position, position);
            i = i + 1;
        }
        proof {
            assert(self.branches() == count);
            assert(self.linked()) by {
                assert(divided.parented(count + 1));
                assert forall|s: int, k: int|
                    self.totleaf <= s < self.totleaf - 1 + (count + 1) && 0 <= k < self.node(
                        s,
                    ).totnode implies self.node(
                    #[trigger] self.node(s).children@[k] as int,
                ).parent == Some(s as usize) by {
                    assert(divided.node(divided.node(s).children@[k] as int).parent == Some(
                        s as usize,
                    ));
                }
                assert forall|s: int, k: int, m: int|
                    self.totleaf <= s < self.totleaf - 1 + (count + 1) && 0 <= k < m < self.node(
                        s,
                    ).totnode implies #[trigger] self.node(s).children@[k]
                    != #[trigger] self.node(s).children@[m] by {
                    assert(divided.node(s).children@[k] != divided.node(s).children@[m]);
                }
            }
            assert forall|s: int| 0 <= s < self.nodes@.len() implies #[trigger] self.shape_ok(
                s,
            ) by {
                assert(divided.shape_ok(s));
            }
            assert forall|s: int| 0 <= s < self.totleaf implies #[trigger] self.leaf_ok(s) by {
                assert(divided.leaf_ok(s));
            }
            assert forall|s: int|
                self.totleaf <= s < self.totleaf + self.branches() implies #[trigger] self.branch_ok(
                s,
            ) by {
                assert(divided.branch_within(s, count));
                assert forall|k: int| 0 <= k < self.node(s).totnode implies self.child_within(
                    s,
                    #[trigger] self.node(s).children@[k] as int,
                    count,
                ) by {
                    assert(divided.child_within(s, divided.node(s).children@[k] as int, count));
                }
            }
            assert forall|s: int|
                self.totleaf + self.branches() <= s < self.nodes@.len() implies #[trigger] self.blank_ok(
                s,
            ) by {
                assert(divided.blank_ok(s));
            }
            assert forall|s: int|
                self.totleaf <= s < self.totleaf + self.branches() implies #[trigger] self.branch_shape(
                s,
                self.branches(),
            ) by {
                assert(self.branch_ok(s));
                assert forall|k: int| 0 <= k < self.node(s).totnode implies self.child_placed(
                    s,
                    #[trigger] self.node(s).children@[k] as int,
                    count,
                ) by {
                    assert(self.child_within(s, self.node(s).children@[k] as int, count));
                }
            }
            self.lemma_wf_from_branches();
            assert forall|s: int|
                self.totleaf <= s < self.totleaf + self.branches() implies #[trigger] self.split_recorded(
                s,
            ) by {
                assert(divided.split_recorded(s));
            }
            assert forall|l: int| 0 <= l < self.totleaf implies #[trigger] self.reaches(
                self.root(),
                l,
            ) by {
                assert(divided.reaches(divided.root(), l));
                self.lemma_reaches_same(&divided, self.root(), l);
            }
            assert forall|s: int|
                self.totleaf <= s < self.totleaf + self.branches() implies #[trigger] self.joined(
                s,
            ) by {
                assert forall|a: int|
                    self.start_axis <= a < self.stop_axis implies #[trigger] self.snug(s, a) by {
                    assert(divided.snug(s, a));
                    if lo(divided.bv(s), a) != HULL_EMPTY {
                        let l = choose|l: int|
                            0 <= l < divided.totleaf && #[trigger] divided.reaches(s, l) && lo(
                                divided.bv(s),
                                a,
                            ) == lo(divided.bv(l), a);
                        self.lemma_reaches_same(&divided, s, l);
                        assert(self.reaches(s, l) && lo(self.bv(s), a) == lo(self.bv(l), a));
                    }
                    if hi(divided.bv(s), a) != -HULL_EMPTY {
                        let l = choose|l: int|
                            0 <= l < divided.totleaf && #[trigger] divided.reaches(s, l) && hi(
                                divided.bv(s),
                                a,
                            ) == hi(divided.bv(l), a);
                        self.lemma_reaches_same(&divided, s, l);
                        assert(self.reaches(s, l) && hi(self.bv(s), a) == hi(self.bv(l), a));
                    }
                }
                crate::bvh::gather::lemma_snug_joined(self, s);
            }
            if self.totleaf >= 2 {
                let (hp, h) = choose|hp: BVHBuildHelper, h: int| #[trigger] divided.laid_out(hp, h);
                let t = self.tree_type as int;
                assert forall|d: int, y: int|
                    1 <= d <= h && level_first(t, d) <= y < next_level(t, level_first(t, d)) && y
                        < needed_branches(t, self.totleaf as int) + 1 implies #[trigger] self.shaped(
                    hp,
                    d,
                    y,
                ) by {
                    assert(divided.shaped(hp, d, y));
                    assert forall|k: int|
                        0 <= k < self.node(
                            self.totleaf - 1 + y,
                        ).totnode implies #[trigger] self.child_shaped(hp, d, y, k) by {
                        assert(divided.child_shaped(hp, d, y, k));
                    }
                }
                assert(self.laid_out(hp, h));
            }
            assert forall|s: int|
                self.totleaf <= s < self.totleaf + self.branches() implies #[trigger] self.ordered(
                s,
            ) by {
                assert(divided.ordered(s));
                assert forall|k: int, n: int, l: int, m: int|
                    0 <= k < n < self.node(s).totnode && #[trigger] self.reaches(
                        self.node(s).children@[k] as int,
                        l,
                    ) && #[trigger] self.reaches(
                        self.node(s).children@[n] as int,
                        m,
                    ) implies self.bv(l)[self.split_key(s)] <= self.bv(m)[self.split_key(s)] by {
                    self.lemma_reaches_same(&divided, self.node(s).children@[k] as int, l);
                    self.lemma_reaches_same(&divided, self.node(s).children@[n] as int, m);
                }
            }
            assert forall|s: int| 0 <= s < old(self).totleaf implies same_core(
                #[trigger] self.node(s),
                old(self).node(s),
            ) by {
                assert(same_core(divided.node(s), old(self).node(s)));
            }
            assert forall|p: int| 0 <= p < old(self).totleaf implies occurs_in(
                old(self).nodes@,
                0,
                old(self).totleaf as int,
                #[trigger] self.nodes@[p],
            ) by {
                assert(self.nodes@[p] == divided.nodes@[p]);
                if old(self).totleaf == 1 {
                    assert(old(self).nodes@[0] == divided.nodes@[0]);
                }
            }
        }
    }
}

impl<E: Copy> BVHTree<E> {
    /// The number of leaves that child `k` of inner node number `y`, at
    /// depth `depth - 1`, is responsible for by the layout.
    pub open spec fn child_size(&self, hp: BVHBuildHelper, depth: int, y: int, k: int) -> int {
        let t = self.tree_type as int;
        let first_child = t * (y - level_first(t, depth));
        hp.spec_index(depth + 1, first_child + k + 1) - hp.spec_index(depth + 1, first_child + k)
    }

    /// Whether child `k` of inner node number `y`, at depth `depth - 1`,
    /// is what the layout gives: its range holds leaves, and it is a leaf
    /// where the range holds one, and else the inner node with the child's
    /// number.
    pub open spec fn child_shaped(&self, hp: BVHBuildHelper, depth: int, y: int, k: int) -> bool {
        let t = self.tree_type as int;
        let child = self.node(self.totleaf - 1 + y).children@[k];
        let size = self.child_size(hp, depth, y, k);
        &&& size >= 1
        &&& size == 1 ==> 0 <= child < self.totleaf
        &&& size > 1 ==> child == self.totleaf - 1 + (y * t + 2 - t + k)
    }

    /// Whether inner node number `y`, at depth `depth - 1`, has the
    /// children that the layout gives it: a child for each of its leading
    /// child ranges that hold leaves.
    pub open spec fn shaped(&self, hp: BVHBuildHelper, depth: int, y: int) -> bool {
        let t = self.tree_type as int;
        let m = self.node(self.totleaf - 1 + y).totnode as int;
        &&& forall|k: int| 0 <= k < m ==> #[trigger] self.child_shaped(hp, depth, y, k)
        &&& m < t ==> self.child_size(hp, depth, y, m) == 0
    }

    /// Whether every inner node numbered below `j` has the children that
    /// the layout gives it.
    pub open spec fn shaping(&self, hp: BVHBuildHelper, h: int, j: int) -> bool {
        let t = self.tree_type as int;
        forall|depth: int, y: int|
            1 <= depth <= h && level_first(t, depth) <= y < next_level(t, level_first(t, depth))
                && y < j ==> #[trigger] self.shaped(hp, depth, y)
    }

    /// Whether the inner nodes are those of the balanced tree that the
    /// layout `hp` describes.
    pub open spec fn laid_out(&self, hp: BVHBuildHelper, h: int) -> bool {
        &&& hp.table_ok(self.tree_type as int, h)
        &&& hp.totleafs == self.totleaf
        &&& self.shaping(
            hp,
            h,
            needed_branches(self.tree_type as int, self.totleaf as int) + 1,
        )
    }
}

/// Building a node gives it the children that the layout gives it, and
/// leaves the children of the built nodes as they are.
pub proof fn lemma_shaping_kept<E: Copy>(
    prev: &BVHTree<E>,
    cur: &BVHTree<E>,
    hp: BVHBuildHelper,
    h: int,
    depth: int,
    first: int,
    j: int,
)
    requires
        prev.building(hp, h, depth, first, j),
        j <= needed_branches(prev.tree_type as int, prev.totleaf as int),
        j < next_level(prev.tree_type as int, first),
        cur.task_effect(prev, hp, depth, first, j),
        cur.building(hp, h, depth, first, j + 1),
        prev.shaping(hp, h, j),
    ensures
        cur.shaping(hp, h, j + 1),
{
    let t = prev.tree_type as int;
    let sj = cur.totleaf - 1 + j;
    lemma_node_layout(hp, t, h, depth, first, j);
    lemma_level_next(t, depth, first);
    lemma_needed_branches(t, prev.totleaf as int, prev.totleaf as int);
    assert(prev.totleaf < prev.nodes@.len());
    assert forall|d: int, y: int|
        1 <= d <= h && level_first(t, d) <= y < next_level(t, level_first(t, d)) && y < j
            + 1 implies #[trigger] cur.shaped(hp, d, y) by {
        let s = cur.totleaf - 1 + y;
        crate::bvh::layout::lemma_level_first(t, d);
        lemma_level_next(t, d, level_first(t, d));
        if y < j {
            assert(prev.shaped(hp, d, y));
            assert(same_core(cur.node(s), prev.node(s)));
            assert forall|k: int| 0 <= k < cur.node(s).totnode implies #[trigger] cur.child_shaped(
                hp,
                d,
                y,
                k,
            ) by {
                assert(prev.child_shaped(hp, d, y, k));
            }
        } else {
            lemma_level_of(t, depth, first, d, j);
            let cc = t * (j - first);
            assert(cur.last_child(hp, depth, first, j));
            assert forall|k: int| 0 <= k < cur.node(s).totnode implies #[trigger] cur.child_shaped(
                hp,
                d,
                y,
                k,
            ) by {
                assert(cur.child_set(hp, depth, first, j, k));
                lemma_level_products(hp, t, h, depth + 1);
                lemma_index_mono(hp, t, h, depth + 1, cc + k + 1, cc + t);
                lemma_index_mono(hp, t, h, depth + 1, 0, cc + k);
                let from = hp.spec_index(depth + 1, cc + k);
                if hp.spec_index(depth + 1, cc + k + 1) - from == 1 {
                    assert(0 <= cur.nodes@[from] < cur.totleaf);
                }
            }
        }
    }
}

} // verus!
