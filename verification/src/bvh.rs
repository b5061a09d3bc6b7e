//! A bounding volume hierarchy over k-DOP bounding volumes.
//!
//! Leaves are inserted one by one, `balance` builds the inner nodes over
//! them once, and the queries (overlap, nearest point, ray cast) walk the
//! finished tree. Coordinates are exact lattice values.

pub mod balance;
pub mod construct;
pub mod gather;
pub mod inspect;
pub mod kdop;
pub mod laws;
pub mod layout;
pub mod nearest;
pub mod nearest_law;
pub mod once;
pub mod order;
pub mod overlap;
pub mod parent;
pub mod ratio;
pub mod ray;
pub mod ray_law;
pub mod store;
pub mod update;

use crate::bvh::kdop::{
    all_in_range, attained, bounded, contains_bv, create_kdop_hull, first_axis, first_axis_of, fits,
    hi, hull_hi, hull_lo,
    lemma_grow_bounds, lo, max_int, project, same_outside, BV_MAX, COORD_MAX, HULL_EMPTY,
    KDOP_AXES,
};
use crate::bvh::store::{
    arena_get_mut, arena_insert, arena_limit, arena_slots, arena_with_capacity, BVHNode, UNKNOWN,
};
use crate::vector::Vec3;
use generational_arena::Arena;
use vstd::prelude::*;

verus! {

/// Largest number of children a node can have.
pub const MAX_TREETYPE: u8 = 32;

/// Largest number of leaves a tree can be sized for: 2^25. This is a
/// limit of the machine and not of the tree. The layout of a balanced
/// tree multiplies the number of nodes of a level by the number of
/// children per node, at most 32, and the store holds the leaves, the
/// inner nodes and the spare entries: with this many leaves all of it
/// fits the machine's word, also where that has 32 bits.
pub const MAX_LEAVES: usize = 0x200_0000;

/// What `update_node` can object to.
#[derive(Debug, Clone, Copy, PartialEq, Eq, Structural)]
pub enum BVHError {
    /// The position given is not that of a leaf.
    IndexOutOfRange,
    /// The two point lists differ in length.
    DifferentNumPoints,
}

impl BVHError {
    /// The text that describes this error.
    pub open spec fn spec_message(self) -> Seq<char> {
        match self {
            BVHError::IndexOutOfRange => "Index given is out of range"@,
            BVHError::DifferentNumPoints => "Different number of points given"@,
        }
    }

    /// The text that describes this error.
    pub fn message(&self) -> (r: &'static str)
        ensures
            r@ == self.spec_message(),
    {
        match self {
            BVHError::IndexOutOfRange => "Index given is out of range",
            BVHError::DifferentNumPoints => "Different number of points given",
        }
    }
}

/// A pair of elements, one from each tree, whose bounding volumes meet.
#[derive(Debug)]
pub struct BVHTreeOverlap<E: Copy> {
    pub index_1: E,
    pub index_2: E,
}

impl<E: Copy> BVHTreeOverlap<E> {
    /// Pairs two elements.
    pub fn new(index_1: E, index_2: E) -> (r: Self)
        ensures
            r.index_1 == index_1,
            r.index_2 == index_2,
    {
        Self { index_1, index_2 }
    }
}

/// The number of inner nodes of a complete `tree_type`-ary tree over `leafs`
/// leaves, which has at least one inner node.
pub open spec fn needed_branches(tree_type: int, leafs: int) -> int {
    max_int(1, leafs + tree_type - 3) / (tree_type - 1)
}

/// The number of inner nodes is not negative, at most the number of leaves
/// (or 1), at least 1 over two or more leaves, and grows with the leaves.
pub proof fn lemma_needed_branches(tree_type: int, leafs: int, more: int)
    requires
        2 <= tree_type,
        0 <= leafs <= more,
    ensures
        0 <= needed_branches(tree_type, leafs) <= max_int(1, leafs),
        leafs >= 2 ==> 1 <= needed_branches(tree_type, leafs),
        needed_branches(tree_type, leafs) <= needed_branches(tree_type, more),
{
    let d = tree_type - 1;
    let a = max_int(1, leafs + tree_type - 3);
    let b = max_int(1, more + tree_type - 3);
    assert(0 <= a / d <= a) by (nonlinear_arith)
        requires
            1 <= d,
            1 <= a,
    ;
    assert(a / d <= b / d) by (nonlinear_arith)
        requires
            1 <= d,
            a <= b,
    ;
    if leafs >= 2 {
        assert(1 <= a / d <= leafs) by (nonlinear_arith)
            requires
                1 <= d,
                a == leafs + d - 2,
                leafs >= 2,
        ;
    } else {
        assert(a / d <= 1) by (nonlinear_arith)
            requires
                1 <= d,
                1 <= a <= d,
        ;
    }
}

/// Computes the number of inner nodes needed over `leafs` leaves, where
/// the sum of the two arguments fits the machine's word.
pub fn implicit_needed_branches(tree_type: u8, leafs: usize) -> (r: usize)
    requires
        2 <= tree_type <= MAX_TREETYPE,
        leafs + tree_type <= usize::MAX,
    ensures
        r == needed_branches(tree_type as int, leafs as int),
        r <= max_int(1, leafs as int),
{
    let total: usize = leafs + tree_type as usize;
    let numerator: usize = if total > 4 {
        total - 3
    } else {
        1
    };
    let denominator: usize = (tree_type - 1) as usize;
    proof {
        let n = numerator as int;
        let d = denominator as int;
        assert(n == max_int(1, leafs + tree_type - 3));
        if leafs >= 2 {
            assert(n / d <= leafs) by (nonlinear_arith)
                requires
                    1 <= d,
                    n == leafs + d - 2,
                    leafs >= 2,
            ;
        } else {
            assert(n / d <= 1) by (nonlinear_arith)
                requires
                    1 <= d,
                    1 <= n <= d,
            ;
        }
    }
    numerator / denominator
}

/// No callback, of the type of `unused`.
pub(crate) fn absent<F>(unused: F) -> (r: Option<F>)
    ensures
        r.is_none(),
{
    None
}

/// Whether `axis` names a supported k-DOP and `start..stop` is the part of
/// the axis table that it uses.
pub open spec fn axis_config(axis: int, start: int, stop: int) -> bool {
    ||| (axis == 26 && start == 0 && stop == 13)
    ||| (axis == 18 && start == 7 && stop == 13)
    ||| (axis == 14 && start == 0 && stop == 7)
    ||| (axis == 8 && start == 0 && stop == 4)
    ||| (axis == 6 && start == 0 && stop == 3)
}

/// Whether every entry of `children` is `UNKNOWN`.
pub open spec fn no_children(children: Seq<usize>) -> bool {
    forall|k: int| 0 <= k < children.len() ==> #[trigger] children[k] == UNKNOWN
}

/// A bounding volume hierarchy whose leaves carry elements of type `E`.
pub struct BVHTree<E: Copy> {
    /// Slot handles: first the leaves, then the inner nodes in level order,
    /// the root first.
    pub nodes: Vec<usize>,
    /// Where the nodes are stored.
    pub node_array: Arena<BVHNode>,
    /// The element of each leaf, in insertion order.
    pub elems: Vec<E>,
    /// Number of leaves the tree was sized for.
    pub max_size: usize,
    /// Inflation of every leaf's bounding volume.
    pub epsilon: i64,
    pub totleaf: usize,
    pub totbranch: usize,
    pub start_axis: u8,
    pub stop_axis: u8,
    /// k-DOP type.
    pub axis: u8,
    /// Number of children per inner node.
    pub tree_type: u8,
}

impl<E: Copy> BVHTree<E> {
    /// The node held in slot `s`.
    pub open spec fn node(&self, s: int) -> BVHNode {
        arena_slots(self.node_array)[s]
    }

    /// The bounding volume of the node in slot `s`.
    pub open spec fn bv(&self, s: int) -> Seq<i64> {
        self.node(s).bv@
    }

    /// The number of inner nodes that have been built. This is `totbranch`,
    /// except over a single leaf in a tree of three or more children per
    /// node, where `totbranch` stays zero although the root is built.
    pub open spec fn branches(&self) -> int {
        if self.totbranch > 0 {
            self.totbranch as int
        } else if self.totleaf == 1 && self.nodes@[1] == 1 {
            1
        } else {
            0
        }
    }

    /// Whether the construction parameters are valid.
    pub open spec fn config_ok(&self) -> bool {
        &&& 2 <= self.tree_type <= MAX_TREETYPE
        &&& axis_config(self.axis as int, self.start_axis as int, self.stop_axis as int)
        &&& 1 <= self.epsilon <= COORD_MAX
        &&& self.max_size <= MAX_LEAVES
        &&& self.nodes@.len() == self.max_size + needed_branches(
            self.tree_type as int,
            self.max_size as int,
        ) + self.tree_type
    }

    /// Whether the node in slot `s` has arrays of the configured lengths,
    /// and so a volume with entries for the active axes, and a bounded
    /// volume.
    pub open spec fn shape_ok(&self, s: int) -> bool {
        &&& self.bv(s).len() == self.axis
        &&& first_axis(self.bv(s)) == self.start_axis
        &&& fits(self.bv(s), self.start_axis as int, self.stop_axis as int)
        &&& self.node(s).children@.len() == self.tree_type
        &&& bounded(self.bv(s))
    }

    /// Whether slot `s` holds a leaf: no children, and the element at its
    /// own position.
    pub open spec fn leaf_ok(&self, s: int) -> bool {
        &&& self.node(s).totnode == 0
        &&& self.node(s).elem_index == Some(s as usize)
        &&& no_children(self.node(s).children@)
    }

    /// Whether slot `s` holds a node that is not in use.
    pub open spec fn blank_ok(&self, s: int) -> bool {
        &&& self.node(s).totnode == 0
        &&& self.node(s).elem_index.is_none()
        &&& no_children(self.node(s).children@)
    }

    /// Whether slot `c` can be a child of the inner node in slot `s`, in a
    /// tree of `count` inner nodes: a leaf, or an inner node stored after
    /// `s`, with a bounding volume that the parent's contains on every
    /// active axis.
    pub open spec fn child_within(&self, s: int, c: int, count: int) -> bool {
        &&& self.child_placed(s, c, count)
        &&& contains_bv(self.bv(s), self.bv(c), self.start_axis as int, self.stop_axis as int)
    }

    /// Whether slot `c` is where a child of the inner node in slot `s` can
    /// be, in a tree of `count` inner nodes: a leaf, or an inner node stored
    /// after `s`.
    pub open spec fn child_placed(&self, s: int, c: int, count: int) -> bool {
        0 <= c < self.totleaf || s < c < self.totleaf + count
    }

    /// Whether slot `s` holds an inner node of a tree of `count` inner
    /// nodes, whatever its volume: no element, between one and `tree_type`
    /// children in the leading entries, each placed as a child can be.
    pub open spec fn branch_shape(&self, s: int, count: int) -> bool {
        &&& self.node(s).elem_index.is_none()
        &&& 1 <= self.node(s).totnode <= self.tree_type
        &&& self.node(s).main_axis < 3
        &&& forall|k: int|
            0 <= k < self.node(s).totnode ==> self.child_placed(
                s,
                #[trigger] self.node(s).children@[k] as int,
                count,
            )
        &&& forall|k: int|
            self.node(s).totnode <= k < self.tree_type ==> #[trigger] self.node(s).children@[k]
                == UNKNOWN
    }

    /// Whether slot `s` holds an inner node of a tree of `count` inner
    /// nodes: no element, between one and `tree_type` children in the
    /// leading entries, each a valid child.
    pub open spec fn branch_within(&self, s: int, count: int) -> bool {
        &&& self.node(s).elem_index.is_none()
        &&& 1 <= self.node(s).totnode <= self.tree_type
        &&& self.node(s).main_axis < 3
        &&& forall|k: int|
            0 <= k < self.node(s).totnode ==> self.child_within(
                s,
                #[trigger] self.node(s).children@[k] as int,
                count,
            )
        &&& forall|k: int|
            self.node(s).totnode <= k < self.tree_type ==> #[trigger] self.node(s).children@[k]
                == UNKNOWN
    }

    /// Whether slot `s` holds an inner node.
    pub open spec fn branch_ok(&self, s: int) -> bool {
        self.branch_within(s, self.branches())
    }

    /// Whether the handle list names each leaf once, then each inner node in
    /// slot order, then nothing.
    pub open spec fn handles_ok(&self) -> bool {
        &&& forall|p: int| 0 <= p < self.totleaf ==> 0 <= #[trigger] self.nodes@[p] < self.totleaf
        &&& forall|p: int, q: int|
            0 <= p < q < self.totleaf ==> #[trigger] self.nodes@[p] != #[trigger] self.nodes@[q]
        &&& forall|p: int|
            self.totleaf <= p < self.totleaf + self.branches() ==> #[trigger] self.nodes@[p] == p
        &&& forall|p: int|
            self.totleaf + self.branches() <= p < self.nodes@.len() ==> #[trigger] self.nodes@[p]
                == UNKNOWN
    }

    /// The invariant of the tree's structure, which holds whatever the
    /// bounding volumes are.
    pub open spec fn structured(&self) -> bool {
        &&& self.config_ok()
        &&& arena_slots(self.node_array).dom() =~= Set::new(
            |s: int| 0 <= s < self.nodes@.len(),
        )
        &&& self.totleaf <= self.max_size
        &&& self.elems@.len() == self.totleaf
        &&& self.totbranch == 0 || self.totbranch == needed_branches(
            self.tree_type as int,
            self.totleaf as int,
        )
        &&& self.totleaf == 0 ==> self.totbranch == 0
        &&& self.totleaf + self.branches() <= self.nodes@.len()
        &&& self.handles_ok()
        &&& forall|s: int| 0 <= s < self.nodes@.len() ==> #[trigger] self.shape_ok(s)
        &&& forall|s: int| 0 <= s < self.totleaf ==> #[trigger] self.leaf_ok(s)
        &&& forall|s: int|
            self.totleaf <= s < self.totleaf + self.branches() ==> #[trigger] self.branch_shape(
                s,
                self.branches(),
            )
        &&& forall|s: int|
            self.totleaf + self.branches() <= s < self.nodes@.len() ==> #[trigger] self.blank_ok(s)
    }

    /// Whether the volume of every inner node contains the volumes of its
    /// children, on every active axis.
    pub open spec fn contained(&self) -> bool {
        forall|s: int, k: int|
            self.totleaf <= s < self.totleaf + self.branches() && 0 <= k < self.node(s).totnode
                ==> contains_bv(
                self.bv(s),
                self.bv(#[trigger] self.node(s).children@[k] as int),
                self.start_axis as int,
                self.stop_axis as int,
            )
    }

    /// The invariant of the tree: its structure is sound and every inner
    /// node contains its children.
    pub open spec fn wf(&self) -> bool {
        &&& self.structured()
        &&& self.contained()
    }

    /// A structured tree whose inner nodes are sound together with their
    /// volumes is well-formed.
    pub proof fn lemma_wf_from_branches(&self)
        requires
            self.structured(),
            forall|s: int|
                self.totleaf <= s < self.totleaf + self.branches() ==> #[trigger] self.branch_ok(s),
        ensures
            self.wf(),
    {
        assert forall|s: int, k: int|
            self.totleaf <= s < self.totleaf + self.branches() && 0 <= k < self.node(
                s,
            ).totnode implies contains_bv(
            self.bv(s),
            self.bv(#[trigger] self.node(s).children@[k] as int),
            self.start_axis as int,
            self.stop_axis as int,
        ) by {
            assert(self.branch_ok(s));
        }
    }

    /// Whether no node names a parent, as in a tree that `balance` has not
    /// built.
    pub open spec fn unlinked(&self) -> bool {
        forall|s: int| 0 <= s < self.nodes@.len() ==> (#[trigger] self.node(s)).parent.is_none()
    }

    /// Whether the three cardinal axes are among the active ones: so in
    /// every tree but that of 18 axes, whose axes are the six diagonals of
    /// the faces.
    pub open spec fn cardinal(&self) -> bool {
        self.start_axis == 0
    }

    /// Whether `balance` has built the inner nodes.
    pub open spec fn balanced(&self) -> bool {
        self.branches() > 0
    }
}

/// Makes a node that is not in use: a zero-filled bounding volume of
/// `axis` entries and `tree_type` child entries, all `UNKNOWN`.
pub(crate) fn blank_node(axis: u8, tree_type: u8) -> (node: BVHNode)
    ensures
        node.bv@.len() == axis,
        node.children@.len() == tree_type,
        forall|k: int| 0 <= k < axis ==> #[trigger] node.bv@[k] == 0,
        no_children(node.children@),
        node.parent.is_none(),
        node.elem_index.is_none(),
        node.totnode == 0,
        node.main_axis == 0,
{
    let mut bv: Vec<i64> = Vec::new();
    let mut i: u8 = 0;
    while i < axis
        invariant
            i <= axis,
            bv@.len() == i,
            forall|k: int| 0 <= k < i ==> #[trigger] bv@[k] == 0,
        decreases axis - i,
    {
        bv.push(0);
        i = i + 1;
    }
    let mut children: Vec<usize> = Vec::new();
    let mut j: u8 = 0;
    while j < tree_type
        invariant
            j <= tree_type,
            children@.len() == j,
            no_children(children@),
        decreases tree_type - j,
    {
        children.push(UNKNOWN);
        j = j + 1;
    }
    BVHNode { children, parent: None, bv, elem_index: None, totnode: 0, main_axis: 0 }
}

/// Widens `bv` by `epsilon` at both ends of every axis in
/// `start_axis..stop_axis`.
pub(crate) fn inflate(bv: &mut Vec<i64>, start_axis: u8, stop_axis: u8, epsilon: i64)
    requires
        fits(old(bv)@, start_axis as int, stop_axis as int),
        1 <= epsilon <= COORD_MAX,
        forall|a: int|
            #![trigger lo(old(bv)@, a)]
            #![trigger hi(old(bv)@, a)]
            start_axis <= a < stop_axis ==> -HULL_EMPTY <= lo(old(bv)@, a) <= HULL_EMPTY
                && -HULL_EMPTY <= hi(old(bv)@, a) <= HULL_EMPTY,
    ensures
        same_outside(final(bv)@, old(bv)@, start_axis as int, stop_axis as int),
        forall|a: int|
            #![trigger lo(final(bv)@, a)]
            #![trigger hi(final(bv)@, a)]
            start_axis <= a < stop_axis ==> lo(final(bv)@, a) == lo(old(bv)@, a) - epsilon && hi(
                final(bv)@,
                a,
            ) == hi(old(bv)@, a) + epsilon,
{
    let first = first_axis_of(bv);
    let mut axis_iter: u8 = start_axis;
    while axis_iter < stop_axis
        invariant
            start_axis <= axis_iter <= stop_axis <= KDOP_AXES,
            bv@.len() == old(bv)@.len(),
            first == first_axis(bv@),
            fits(bv@, start_axis as int, stop_axis as int),
            1 <= epsilon <= COORD_MAX,
            forall|k: int|
                0 <= k < bv@.len() && !(2 * (start_axis - first) <= k < 2 * (axis_iter - first))
                    ==> #[trigger] bv@[k] == old(bv)@[k],
            forall|a: int|
                #![trigger lo(old(bv)@, a)]
                #![trigger hi(old(bv)@, a)]
                start_axis <= a < stop_axis ==> -HULL_EMPTY <= lo(old(bv)@, a) <= HULL_EMPTY
                    && -HULL_EMPTY <= hi(old(bv)@, a) <= HULL_EMPTY,
            forall|a: int|
                #![trigger lo(bv@, a)]
                #![trigger hi(bv@, a)]
                start_axis <= a < axis_iter ==> lo(bv@, a) == lo(old(bv)@, a) - epsilon && hi(
                    bv@,
                    a,
                ) == hi(old(bv)@, a) + epsilon,
        decreases stop_axis - axis_iter,
    {
        let k: usize = 2 * (axis_iter as usize - first);
        let ghost before = bv@;
        proof {
            let x = axis_iter as int;
            assert(-HULL_EMPTY <= lo(old(bv)@, x) <= HULL_EMPTY);
            assert(-HULL_EMPTY <= hi(old(bv)@, x) <= HULL_EMPTY);
            assert(before[k as int] == old(bv)@[k as int]);
            assert(before[k + 1] == old(bv)@[k + 1]);
        }
        let low = bv[k] - epsilon;
        let high = bv[k + 1] + epsilon;
        bv.set(k, low);
        bv.set(k + 1, high);
        proof {
            assert forall|a: int|
                #![trigger lo(bv@, a)]
                #![trigger hi(bv@, a)]
                start_axis <= a < axis_iter + 1 implies lo(bv@, a) == lo(old(bv)@, a) - epsilon
                && hi(bv@, a) == hi(old(bv)@, a) + epsilon by {
                if a < axis_iter {
                    assert(lo(before, a) == lo(old(bv)@, a) - epsilon);
                    assert(hi(before, a) == hi(old(bv)@, a) + epsilon);
                }
            }
        }
        axis_iter = axis_iter + 1;
    }
}

impl<E: Copy> BVHTree<E> {
    /// Creates an empty tree.
    ///
    /// `max_size` is the number of leaves to make room for, `epsilon` the
    /// inflation of every leaf (raised to 1, the step of the lattice, if
    /// smaller), `tree_type` the number of children per inner node and
    /// `axis` the k-DOP type.
    ///
    /// `max_size` is at most `MAX_LEAVES` and `epsilon` at most
    /// `COORD_MAX`: both are limits of the machine's arithmetic, which the
    /// two constants explain.
    ///
    /// The volume of a node has `axis` entries, which hold the lower and
    /// the upper end on each active axis from the first active axis on:
    /// entry `2 * (a - start_axis)` is the lower end on axis `a`.
    pub fn new(max_size: usize, epsilon: i64, tree_type: u8, axis: u8) -> (tree: Self)
        requires
            2 <= tree_type <= MAX_TREETYPE,
            axis == 26 || axis == 18 || axis == 14 || axis == 8 || axis == 6,
            max_size <= MAX_LEAVES,
            epsilon <= COORD_MAX,
        ensures
            tree.wf(),
            tree.totleaf == 0,
            tree.totbranch == 0,
            tree.max_size == max_size,
            tree.epsilon == max_int(epsilon as int, 1),
            tree.tree_type == tree_type,
            tree.axis == axis,
            tree.nodes@.len() == max_size + needed_branches(tree_type as int, max_size as int)
                + tree_type,
            tree.unlinked(),
            forall|s: int, k: int|
                0 <= s < tree.nodes@.len() && 0 <= k < axis ==> #[trigger] tree.bv(s)[k] == 0,
    {
        let epsilon: i64 = if epsilon < 1 {
            1
        } else {
            epsilon
        };
        let start_axis: u8;
        let stop_axis: u8;
        if axis == 26 {
            start_axis = 0;
            stop_axis = 13;
        } else if axis == 18 {
            start_axis = 7;
            stop_axis = 13;
        } else if axis == 14 {
            start_axis = 0;
            stop_axis = 7;
        } else if axis == 8 {
            start_axis = 0;
            stop_axis = 4;
        } else {
            start_axis = 0;
            stop_axis = 3;
        }
        let numnodes: usize = max_size + implicit_needed_branches(tree_type, max_size)
            + tree_type as usize;
        let mut nodes: Vec<usize> = Vec::new();
        let mut node_array = arena_with_capacity(numnodes);
        let mut i: usize = 0;
        while i < numnodes
            invariant
                i <= numnodes,
                nodes@.len() == i,
                forall|p: int| 0 <= p < i ==> #[trigger] nodes@[p] == UNKNOWN,
                arena_limit(node_array) == numnodes,
                arena_slots(node_array).dom().finite(),
                arena_slots(node_array).dom().len() == i,
                arena_slots(node_array).dom().subset_of(Set::new(|s: int| 0 <= s < numnodes)),
                forall|s: int| #[trigger]
                    arena_slots(node_array).dom().contains(s) ==> {
                        let node = arena_slots(node_array)[s];
                        &&& node.bv@.len() == axis
                        &&& node.children@.len() == tree_type
                        &&& forall|k: int| 0 <= k < axis ==> #[trigger] node.bv@[k] == 0
                        &&& no_children(node.children@)
                        &&& node.elem_index.is_none()
                        &&& node.parent.is_none()
                        &&& node.totnode == 0
                    },
            decreases numnodes - i,
        {
            nodes.push(UNKNOWN);
            let node = blank_node(axis, tree_type);
            let _slot = arena_insert(&mut node_array, node);
            i = i + 1;
        }
        proof {
            let full = Set::new(|s: int| 0 <= s < numnodes);
            assert(full =~= vstd::set_lib::set_int_range(0, numnodes as int));
            vstd::set_lib::lemma_int_range(0, numnodes as int);
            vstd::set_lib::lemma_subset_equality(arena_slots(node_array).dom(), full);
        }
        let tree = BVHTree {
            nodes,
            node_array,
            elems: Vec::new(),
            max_size,
            epsilon,
            totleaf: 0,
            totbranch: 0,
            start_axis,
            stop_axis,
            axis,
            tree_type,
        };
        proof {
            assert forall|s: int| 0 <= s < tree.nodes@.len() implies #[trigger] tree.shape_ok(
                s,
            ) by {
                assert(arena_slots(tree.node_array).dom().contains(s));
                assert forall|k: int| 0 <= k < tree.bv(s).len() implies -BV_MAX
                    <= #[trigger] tree.bv(s)[k] <= BV_MAX by {}
            }
            assert forall|s: int| 0 <= s < tree.nodes@.len() implies #[trigger] tree.blank_ok(
                s,
            ) by {
                assert(arena_slots(tree.node_array).dom().contains(s));
            }
            assert forall|s: int, k: int|
                0 <= s < tree.nodes@.len() && 0 <= k < axis implies #[trigger] tree.bv(s)[k]
                == 0 by {
                assert(arena_slots(tree.node_array).dom().contains(s));
            }
            assert forall|s: int| 0 <= s < tree.nodes@.len() implies (#[trigger] tree.node(
                s,
            )).parent.is_none() by {
                assert(arena_slots(tree.node_array).dom().contains(s));
            }
        }
        tree
    }
}

impl<E: Copy> BVHTree<E> {
    /// Whether this tree differs from `prev` at most in the node of slot
    /// `slot`, its counters, its handle list and its element table.
    pub open spec fn same_config(&self, prev: &Self) -> bool {
        &&& self.max_size == prev.max_size
        &&& self.epsilon == prev.epsilon
        &&& self.tree_type == prev.tree_type
        &&& self.axis == prev.axis
        &&& self.start_axis == prev.start_axis
        &&& self.stop_axis == prev.stop_axis
        &&& self.nodes@.len() == prev.nodes@.len()
    }

    /// Adds a leaf for the element `index`, bounded by the hull of
    /// `co_many` widened by `epsilon` on every active axis.
    pub fn insert(&mut self, index: E, co_many: &[Vec3])
        requires
            old(self).wf(),
            !old(self).balanced(),
            old(self).totleaf < old(self).max_size,
            all_in_range(co_many@),
        ensures
            final(self).wf(),
            !final(self).balanced(),
            final(self).same_config(old(self)),
            final(self).totleaf == old(self).totleaf + 1,
            final(self).totbranch == 0,
            final(self).elems@ == old(self).elems@.push(index),
            final(self).nodes@ == old(self).nodes@.update(
                old(self).totleaf as int,
                old(self).totleaf,
            ),
            forall|a: int|
                #![trigger lo(final(self).bv(old(self).totleaf as int), a)]
                #![trigger hi(final(self).bv(old(self).totleaf as int), a)]
                old(self).start_axis <= a < old(self).stop_axis ==> lo(
                    final(self).bv(old(self).totleaf as int),
                    a,
                ) == hull_lo(co_many@, a) - old(self).epsilon && hi(
                    final(self).bv(old(self).totleaf as int),
                    a,
                ) == hull_hi(co_many@, a) + old(self).epsilon,
            forall|s: int|
                0 <= s < old(self).nodes@.len() && s != old(self).totleaf
                    ==> #[trigger] final(self).node(s) == old(self).node(s),
            final(self).node(old(self).totleaf as int).parent == old(self).node(
                old(self).totleaf as int,
            ).parent,
            old(self).unlinked() ==> final(self).unlinked(),
            forall|i: int, a: int|
                0 <= i < co_many@.len() && old(self).start_axis <= a < old(self).stop_axis ==> lo(
                    final(self).bv(old(self).totleaf as int),
                    a,
                ) + old(self).epsilon <= #[trigger] project(co_many@[i], a) <= hi(
                    final(self).bv(old(self).totleaf as int),
                    a,
                ) - old(self).epsilon,
            forall|a: int|
                #![trigger lo(final(self).bv(old(self).totleaf as int), a)]
                #![trigger hi(final(self).bv(old(self).totleaf as int), a)]
                co_many@.len() > 0 && old(self).start_axis <= a < old(self).stop_axis ==> attained(
                    co_many@,
                    a,
                    lo(final(self).bv(old(self).totleaf as int), a) + old(self).epsilon,
                ) && attained(
                    co_many@,
                    a,
                    hi(final(self).bv(old(self).totleaf as int), a) - old(self).epsilon,
                ),
            co_many@.len() > 0 && old(self).cardinal() ==> crate::bvh::nearest_law::solid(
                final(self).bv(old(self).totleaf as int),
            ),
    {
        let slot = self.totleaf;
        let start_axis = self.start_axis;
        let stop_axis = self.stop_axis;
        let epsilon = self.epsilon;
        proof {
            assert(old(self).blank_ok(slot as int));
            assert(old(self).shape_ok(slot as int));
        }
        self.nodes.set(slot, slot);
        let node = arena_get_mut(&mut self.node_array, slot);
        let ghost zero = node.bv@;
        create_kdop_hull(&mut node.bv, start_axis, stop_axis, co_many, false);
        node.elem_index = Some(slot);
        let ghost tight = node.bv@;
        proof {
            assert forall|a: int|
                #![trigger lo(tight, a)]
                #![trigger hi(tight, a)]
                start_axis <= a < stop_axis implies -HULL_EMPTY <= lo(tight, a) <= HULL_EMPTY
                && -HULL_EMPTY <= hi(tight, a) <= HULL_EMPTY by {
                lemma_grow_bounds(HULL_EMPTY as int, -HULL_EMPTY as int, co_many@, a);
            }
        }
        inflate(&mut node.bv, start_axis, stop_axis, epsilon);
        let ghost wide = node.bv@;
        self.elems.push(index);
        self.totleaf = slot + 1;
        proof {
            assert forall|k: int| 0 <= k < wide.len() implies -BV_MAX <= #[trigger] wide[k]
                <= BV_MAX by {
                let f = first_axis(wide);
                assert(first_axis(tight) == f && first_axis(zero) == f);
                if 2 * (start_axis - f) <= k < 2 * (stop_axis - f) {
                    let a = k / 2 + f;
                    lemma_grow_bounds(HULL_EMPTY as int, -HULL_EMPTY as int, co_many@, a);
                    if k % 2 == 0 {
                        assert(wide[k] == lo(wide, a));
                        assert(lo(wide, a) == lo(tight, a) - epsilon);
                    } else {
                        assert(wide[k] == hi(wide, a));
                        assert(hi(wide, a) == hi(tight, a) + epsilon);
                    }
                } else {
                    assert(wide[k] == tight[k]);
                    assert(tight[k] == zero[k]);
                }
            }
            assert(self.node(slot as int).bv@ == wide);
            assert forall|s: int|
                0 <= s < old(self).nodes@.len() && s != slot implies #[trigger] self.node(s)
                == old(self).node(s) by {}
            assert forall|s: int| 0 <= s < self.nodes@.len() implies #[trigger] self.shape_ok(
                s,
            ) by {
                if s != slot {
                    assert(old(self).shape_ok(s));
                }
            }
            assert forall|s: int| 0 <= s < self.totleaf implies #[trigger] self.leaf_ok(s) by {
                if s != slot {
                    assert(old(self).leaf_ok(s));
                }
            }
            assert(self.branches() == 0);
            assert forall|s: int|
                self.totleaf + self.branches() <= s < self.nodes@.len() implies #[trigger] self.blank_ok(
                s,
            ) by {
                assert(old(self).blank_ok(s));
            }
            assert(self.handles_ok());
            assert forall|i: int, a: int|
                0 <= i < co_many@.len() && start_axis <= a < stop_axis implies lo(wide, a)
                + epsilon <= #[trigger] project(co_many@[i], a) <= hi(wide, a) - epsilon by {
                lemma_grow_bounds(HULL_EMPTY as int, -HULL_EMPTY as int, co_many@, a);
                assert(lo(wide, a) == lo(tight, a) - epsilon);
                assert(hi(wide, a) == hi(tight, a) + epsilon);
            }
            assert forall|a: int|
                #![trigger lo(wide, a)]
                #![trigger hi(wide, a)]
                co_many@.len() > 0 && start_axis <= a < stop_axis implies attained(
                co_many@,
                a,
                lo(wide, a) + epsilon,
            ) && attained(co_many@, a, hi(wide, a) - epsilon) by {
                lemma_grow_bounds(HULL_EMPTY as int, -HULL_EMPTY as int, co_many@, a);
                assert(lo(wide, a) == lo(tight, a) - epsilon);
                assert(hi(wide, a) == hi(tight, a) + epsilon);
                crate::bvh::kdop::lemma_project_bound(co_many@[0], a);
                assert(hull_lo(co_many@, a) <= project(co_many@[0], a));
            }
            if co_many@.len() > 0 && start_axis == 0 {
                assert forall|i: int|
                    #![trigger lo(wide, i)]
                    #![trigger hi(wide, i)]
                    0 <= i < 3 implies lo(wide, i) <= hi(wide, i) by {
                    assert(lo(wide, i) + epsilon <= project(co_many@[0], i) <= hi(wide, i)
                        - epsilon);
                }
            }
        }
    }
}

} // verus!
