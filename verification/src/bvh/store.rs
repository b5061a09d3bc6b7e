//! The node store: tree nodes held in a generational arena and addressed by
//! their slot position.

use generational_arena::Arena;
use vstd::prelude::*;

verus! {

/// The handle that stands for "no node".
pub const UNKNOWN: usize = usize::MAX;

/// One node of the tree.
pub struct BVHNode {
    /// Slots of the child nodes; unused entries hold `UNKNOWN`.
    pub children: Vec<usize>,
    /// Slot of the parent node, once linked.
    pub parent: Option<usize>,
    /// Interleaved `(min, max)` pairs, one per k-DOP axis, from the first
    /// axis of the tree's k-DOP on.
    pub bv: Vec<i64>,
    /// For a leaf, the position of its element in the tree's element table.
    pub elem_index: Option<usize>,
    /// Number of children in use; zero for a leaf.
    pub totnode: u8,
    /// Cardinal axis along which this node's children were split.
    pub main_axis: u8,
}

/// `generational_arena::Arena`, taken as it is: of a value nothing is
/// known but what the functions below say.
#[verifier::external_type_specification]
#[verifier::external_body]
#[verifier::reject_recursive_types(T)]
pub struct ExArena<T>(Arena<T>);

/// The occupied slots of an arena: slot position to the node held there.
pub uninterp spec fn arena_slots(a: Arena<BVHNode>) -> Map<int, BVHNode>;

/// The number of slots, occupied or free, that an arena has: what
/// `Arena::capacity` returns.
pub uninterp spec fn arena_limit(a: Arena<BVHNode>) -> nat;

/// `Arena::with_capacity`: an arena with no occupied slot and room for `n`
/// nodes, or for one node when `n` is zero.
#[verifier::external_body]
pub(crate) fn arena_with_capacity(n: usize) -> (made: Arena<BVHNode>)
    ensures
        arena_slots(made).dom() == Set::<int>::empty(),
        arena_limit(made) == vstd::math::max(n as int, 1),
{
    Arena::with_capacity(n)
}

/// `Arena::insert`, on an arena that still has a free slot: the node goes
/// into a slot that was free, every other slot keeps what it held, and no
/// slot is added. Returns the position of the slot taken, without its
/// generation.
#[verifier::external_body]
pub(crate) fn arena_insert(a: &mut Arena<BVHNode>, node: BVHNode) -> (slot: usize)
    requires
        arena_slots(*old(a)).dom().finite(),
        arena_slots(*old(a)).dom().len() < arena_limit(*old(a)),
    ensures
        slot < arena_limit(*old(a)),
        !arena_slots(*old(a)).dom().contains(slot as int),
        arena_slots(*final(a)) == arena_slots(*old(a)).insert(slot as int, node),
        arena_limit(*final(a)) == arena_limit(*old(a)),
{
    a.insert(node).into_raw_parts().0
}

/// `Arena::get_unknown_gen`: the node in slot `slot`, whatever its
/// generation, or `None` where the slot is free or out of range.
#[verifier::external_body]
pub(crate) fn arena_get(a: &Arena<BVHNode>, slot: usize) -> (r: Option<&BVHNode>)
    ensures
        r.is_some() == arena_slots(*a).dom().contains(slot as int),
        r.is_some() ==> *r.unwrap() == arena_slots(*a)[slot as int],
{
    a.get_unknown_gen(slot).map(|p| p.0)
}

/// `Arena::get_unknown_gen_mut`, on an occupied slot: exclusive access to
/// the node in slot `slot`. What is written through the reference is what
/// the slot holds afterwards; no other slot changes.
#[verifier::external_body]
pub(crate) fn arena_get_mut(a: &mut Arena<BVHNode>, slot: usize) -> (r: &mut BVHNode)
    requires
        arena_slots(*old(a)).dom().contains(slot as int),
    ensures
        *r == arena_slots(*old(a))[slot as int],
        arena_slots(*final(a)) == arena_slots(*old(a)).insert(slot as int, *final(r)),
        arena_limit(*final(a)) == arena_limit(*old(a)),
{
    a.get_unknown_gen_mut(slot).unwrap().0
}

/// `Arena::len`: the number of occupied slots.
#[verifier::external_body]
pub(crate) fn arena_len(a: &Arena<BVHNode>) -> (r: usize)
    ensures
        arena_slots(*a).dom().finite() ==> r == arena_slots(*a).dom().len(),
{
    a.len()
}

} // verus!
