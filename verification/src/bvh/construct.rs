//! Building the inner nodes: partitioning the leaf handles and laying the
//! tree out level by level.

use crate::bvh::kdop::{
    first_axis_of, fits, hi, lo, max_int, min_int, min_max_init, same_outside, HULL_EMPTY,
    KDOP_AXES,
};
use crate::bvh::store::{arena_get, arena_get_mut, arena_slots, BVHNode};
use generational_arena::Arena;
use vstd::prelude::*;

verus! {

/// The sort key of the node behind handle `h`: entry `axis` of its bounding
/// volume.
pub open spec fn key(slots: Map<int, BVHNode>, h: usize, axis: int) -> int {
    slots[h as int].bv@[axis] as int
}

/// Whether every handle in `nodes[lo..hi]` names an occupied slot whose
/// bounding volume has an entry `axis`.
pub open spec fn keyed(
    nodes: Seq<usize>,
    slots: Map<int, BVHNode>,
    lo: int,
    hi: int,
    axis: int,
) -> bool {
    forall|p: int|
        lo <= p < hi ==> slots.dom().contains(#[trigger] nodes[p] as int) && 0 <= axis
            < slots[nodes[p] as int].bv@.len()
}

/// Whether `v` is one of `a[lo..hi]`.
pub open spec fn occurs_in(a: Seq<usize>, lo: int, hi: int, v: usize) -> bool {
    exists|q: int| lo <= q < hi && #[trigger] a[q] == v
}

/// Whether the handles in `a[lo..hi]` differ from one another.
pub open spec fn distinct(a: Seq<usize>, lo: int, hi: int) -> bool {
    forall|p: int, q: int| lo <= p < q < hi ==> #[trigger] a[p] != #[trigger] a[q]
}

/// Whether `b` is `a` with the handles in `lo..hi` put into another order:
/// nothing outside the range moves, every handle in the range of the one
/// is in the range of the other, and the handles in the range still differ
/// from one another.
pub open spec fn rearranged(a: Seq<usize>, b: Seq<usize>, lo: int, hi: int) -> bool {
    &&& a.len() == b.len()
    &&& forall|p: int| 0 <= p < a.len() && !(lo <= p < hi) ==> #[trigger] b[p] == a[p]
    &&& forall|p: int| lo <= p < hi ==> occurs_in(a, lo, hi, #[trigger] b[p])
    &&& forall|p: int| lo <= p < hi ==> occurs_in(b, lo, hi, #[trigger] a[p])
    &&& distinct(b, lo, hi)
}

/// Whether the keys of `nodes[lo..hi]` ascend.
pub open spec fn sorted_by_key(
    nodes: Seq<usize>,
    slots: Map<int, BVHNode>,
    lo: int,
    hi: int,
    axis: int,
) -> bool {
    forall|p: int, q: int|
        lo <= p < q < hi ==> key(slots, #[trigger] nodes[p], axis) <= key(
            slots,
            #[trigger] nodes[q],
            axis,
        )
}

/// Whether, within `nodes[lo..hi]`, no key before position `n` exceeds a key
/// at or after it.
pub open spec fn split_at(
    nodes: Seq<usize>,
    slots: Map<int, BVHNode>,
    lo: int,
    hi: int,
    n: int,
    axis: int,
) -> bool {
    forall|p: int, q: int|
        lo <= p < n && n <= q < hi && p < hi && lo <= q ==> key(slots, #[trigger] nodes[p], axis)
            <= key(slots, #[trigger] nodes[q], axis)
}

/// Rearranging a part of a rearranged range leaves the range rearranged.
pub proof fn lemma_rearranged_within(
    a: Seq<usize>,
    b: Seq<usize>,
    c: Seq<usize>,
    lo: int,
    hi: int,
    sub_lo: int,
    sub_hi: int,
)
    requires
        0 <= lo <= sub_lo <= sub_hi <= hi <= a.len(),
        rearranged(a, b, lo, hi),
        rearranged(b, c, sub_lo, sub_hi),
    ensures
        rearranged(a, c, lo, hi),
{
    assert forall|p: int| lo <= p < hi implies occurs_in(a, lo, hi, #[trigger] c[p]) by {
        if sub_lo <= p < sub_hi {
            assert(occurs_in(b, sub_lo, sub_hi, c[p]));
            let q = choose|q: int| sub_lo <= q < sub_hi && #[trigger] b[q] == c[p];
            assert(occurs_in(a, lo, hi, b[q]));
        } else {
            assert(c[p] == b[p]);
            assert(occurs_in(a, lo, hi, b[p]));
        }
    }
    assert forall|p: int| lo <= p < hi implies occurs_in(c, lo, hi, #[trigger] a[p]) by {
        assert(occurs_in(b, lo, hi, a[p]));
        let q = choose|q: int| lo <= q < hi && #[trigger] b[q] == a[p];
        if sub_lo <= q < sub_hi {
            assert(occurs_in(c, sub_lo, sub_hi, b[q]));
            let r = choose|r: int| sub_lo <= r < sub_hi && #[trigger] c[r] == b[q];
            assert(c[r] == a[p]);
        } else {
            assert(c[q] == b[q]);
        }
    }
    assert forall|p: int, q: int| lo <= p < q < hi implies #[trigger] c[p] != #[trigger] c[q] by {
        let p_in = sub_lo <= p < sub_hi;
        let q_in = sub_lo <= q < sub_hi;
        if p_in && !q_in {
            assert(occurs_in(b, sub_lo, sub_hi, c[p]));
            let r = choose|r: int| sub_lo <= r < sub_hi && #[trigger] b[r] == c[p];
            assert(b[r] != b[q]);
        } else if !p_in && q_in {
            assert(occurs_in(b, sub_lo, sub_hi, c[q]));
            let r = choose|r: int| sub_lo <= r < sub_hi && #[trigger] b[r] == c[q];
            assert(b[p] != b[r]);
        } else if !p_in && !q_in {
            assert(b[p] != b[q]);
        }
    }
}

/// A range whose handles differ is a rearrangement of itself.
pub proof fn lemma_rearranged_refl(a: Seq<usize>, lo: int, hi: int)
    requires
        0 <= lo <= hi <= a.len(),
        distinct(a, lo, hi),
    ensures
        rearranged(a, a, lo, hi),
{
    assert forall|p: int| lo <= p < hi implies occurs_in(a, lo, hi, #[trigger] a[p]) by {}
}

/// Reads the sort key of the node behind `handle`.
pub(crate) fn node_key(node_array: &Arena<BVHNode>, handle: usize, axis: usize) -> (r: i64)
    requires
        arena_slots(*node_array).dom().contains(handle as int),
        axis < arena_slots(*node_array)[handle as int].bv@.len(),
    ensures
        r == key(arena_slots(*node_array), handle, axis as int),
{
    let node = arena_get(node_array, handle).unwrap();
    node.bv[axis]
}

/// Exchanges the handles at positions `i` and `j`.
pub(crate) fn swap_handles(nodes: &mut Vec<usize>, i: usize, j: usize)
    requires
        i < old(nodes)@.len(),
        j < old(nodes)@.len(),
    ensures
        final(nodes)@ == old(nodes)@.update(i as int, old(nodes)@[j as int]).update(
            j as int,
            old(nodes)@[i as int],
        ),
{
    let a = nodes[i];
    let b = nodes[j];
    nodes.set(i, b);
    nodes.set(j, a);
}

/// Exchanging two handles of a rearranged range leaves it rearranged.
pub proof fn lemma_swap_rearranged(
    a: Seq<usize>,
    b: Seq<usize>,
    c: Seq<usize>,
    lo: int,
    hi: int,
    i: int,
    j: int,
)
    requires
        0 <= lo <= i < hi <= a.len(),
        lo <= j < hi,
        rearranged(a, b, lo, hi),
        c == b.update(i, b[j]).update(j, b[i]),
    ensures
        rearranged(a, c, lo, hi),
{
    assert forall|p: int| lo <= p < hi implies occurs_in(a, lo, hi, #[trigger] c[p]) by {
        if p == i {
            assert(occurs_in(a, lo, hi, b[j]));
        } else if p == j {
            assert(occurs_in(a, lo, hi, b[i]));
        } else {
            assert(occurs_in(a, lo, hi, b[p]));
        }
    }
    assert forall|p: int| lo <= p < hi implies occurs_in(c, lo, hi, #[trigger] a[p]) by {
        assert(occurs_in(b, lo, hi, a[p]));
        let q = choose|q: int| lo <= q < hi && #[trigger] b[q] == a[p];
        let r = if q == i {
            j
        } else if q == j {
            i
        } else {
            q
        };
        assert(c[r] == b[q]);
    }
    assert forall|p: int, q: int| lo <= p < q < hi implies #[trigger] c[p] != #[trigger] c[q] by {
        let bp = if p == i {
            j
        } else if p == j {
            i
        } else {
            p
        };
        let bq = if q == i {
            j
        } else if q == j {
            i
        } else {
            q
        };
        assert(c[p] == b[bp]);
        assert(c[q] == b[bq]);
        if bp < bq {
            assert(b[bp] != b[bq]);
        } else {
            assert(b[bq] != b[bp]);
        }
    }
}

/// Sorts `nodes[lo..hi]` by key, moving each handle down past the larger
/// keys before it.
pub(crate) fn bvh_insertion_sort(
    nodes: &mut Vec<usize>,
    node_array: &Arena<BVHNode>,
    lo: usize,
    hi: usize,
    axis: usize,
)
    requires
        lo <= hi <= old(nodes)@.len(),
        keyed(old(nodes)@, arena_slots(*node_array), lo as int, hi as int, axis as int),
        distinct(old(nodes)@, lo as int, hi as int),
    ensures
        rearranged(old(nodes)@, final(nodes)@, lo as int, hi as int),
        keyed(final(nodes)@, arena_slots(*node_array), lo as int, hi as int, axis as int),
        sorted_by_key(final(nodes)@, arena_slots(*node_array), lo as int, hi as int, axis as int),
{
    let ghost slots = arena_slots(*node_array);
    proof {
        lemma_rearranged_refl(nodes@, lo as int, hi as int);
    }
    let mut i: usize = lo;
    while i < hi
        invariant
            lo <= i <= hi <= nodes@.len(),
            slots == arena_slots(*node_array),
            rearranged(old(nodes)@, nodes@, lo as int, hi as int),
            keyed(nodes@, slots, lo as int, hi as int, axis as int),
            sorted_by_key(nodes@, slots, lo as int, i as int, axis as int),
        decreases hi - i,
    {
        let mut j: usize = i;
        let node_t_key = node_key(node_array, nodes[i], axis);
        while j != lo && node_t_key < node_key(node_array, nodes[j - 1], axis)
            invariant
                lo <= j <= i < hi <= nodes@.len(),
                slots == arena_slots(*node_array),
                rearranged(old(nodes)@, nodes@, lo as int, hi as int),
                keyed(nodes@, slots, lo as int, hi as int, axis as int),
                node_t_key == key(slots, nodes@[j as int], axis as int),
                forall|p: int, q: int|
                    lo <= p < q <= i && p != j && q != j ==> key(
                        slots,
                        #[trigger] nodes@[p],
                        axis as int,
                    ) <= key(slots, #[trigger] nodes@[q], axis as int),
                forall|q: int|
                    j < q <= i ==> node_t_key <= key(slots, #[trigger] nodes@[q], axis as int),
            decreases j,
        {
            let ghost before = nodes@;
            swap_handles(nodes, j, j - 1);
            proof {
                lemma_swap_rearranged(
                    old(nodes)@,
                    before,
                    nodes@,
                    lo as int,
                    hi as int,
                    j as int,
                    j - 1,
                );
                assert forall|p: int| lo <= p < hi implies slots.dom().contains(
                    #[trigger] nodes@[p] as int,
                ) && 0 <= axis < slots[nodes@[p] as int].bv@.len() by {
                    let bp = if p == j {
                        j - 1
                    } else if p == j - 1 {
                        j as int
                    } else {
                        p
                    };
                    assert(nodes@[p] == before[bp]);
                }
                assert forall|p: int, q: int|
                    lo <= p < q <= i && p != j - 1 && q != j - 1 implies key(
                    slots,
                    #[trigger] nodes@[p],
                    axis as int,
                ) <= key(slots, #[trigger] nodes@[q], axis as int) by {
                    let bp = if p == j {
                        j - 1
                    } else {
                        p
                    };
                    let bq = if q == j {
                        j - 1
                    } else {
                        q
                    };
                    assert(nodes@[p] == before[bp]);
                    assert(nodes@[q] == before[bq]);
                    if bp < bq {
                        assert(key(slots, before[bp], axis as int) <= key(
                            slots,
                            before[bq],
                            axis as int,
                        ));
                    }
                }
                assert forall|q: int| j - 1 < q <= i implies node_t_key <= key(
                    slots,
                    #[trigger] nodes@[q],
                    axis as int,
                ) by {
                    if q == j {
                        assert(nodes@[q] == before[j - 1]);
                    } else {
                        assert(nodes@[q] == before[q]);
                    }
                }
            }
            j = j - 1;
        }
        proof {
            assert forall|p: int, q: int| lo <= p < q < i + 1 implies key(
                slots,
                #[trigger] nodes@[p],
                axis as int,
            ) <= key(slots, #[trigger] nodes@[q], axis as int) by {
                if p == j {
                } else if q == j {
                    if j != lo {
                        assert(key(slots, nodes@[j - 1], axis as int) <= node_t_key);
                        if p < j - 1 {
                            assert(key(slots, nodes@[p], axis as int) <= key(
                                slots,
                                nodes@[j - 1],
                                axis as int,
                            ));
                        }
                    }
                } else {
                }
            }
        }
        i = i + 1;
    }
}

/// The middle one of three keys.
pub open spec fn median3(a: int, b: int, c: int) -> int {
    if b < a {
        if c < b {
            b
        } else if c < a {
            c
        } else {
            a
        }
    } else if c < b {
        if c < a {
            a
        } else {
            c
        }
    } else {
        b
    }
}

/// Picks, among the handles at `lo`, `mid` and `hi`, the one whose key is the
/// middle one of the three.
pub(crate) fn bvh_median_of_3(
    nodes: &Vec<usize>,
    node_array: &Arena<BVHNode>,
    lo: usize,
    mid: usize,
    hi: usize,
    axis: usize,
) -> (r: usize)
    requires
        lo < nodes@.len(),
        mid < nodes@.len(),
        hi < nodes@.len(),
        keyed(nodes@, arena_slots(*node_array), lo as int, lo + 1, axis as int),
        keyed(nodes@, arena_slots(*node_array), mid as int, mid + 1, axis as int),
        keyed(nodes@, arena_slots(*node_array), hi as int, hi + 1, axis as int),
    ensures
        r == nodes@[lo as int] || r == nodes@[mid as int] || r == nodes@[hi as int],
        key(arena_slots(*node_array), r, axis as int) == median3(
            key(arena_slots(*node_array), nodes@[lo as int], axis as int),
            key(arena_slots(*node_array), nodes@[mid as int], axis as int),
            key(arena_slots(*node_array), nodes@[hi as int], axis as int),
        ),
{
    let key_lo = node_key(node_array, nodes[lo], axis);
    let key_mid = node_key(node_array, nodes[mid], axis);
    let key_hi = node_key(node_array, nodes[hi], axis);
    if key_mid < key_lo {
        if key_hi < key_mid {
            nodes[mid]
        } else if key_hi < key_lo {
            nodes[hi]
        } else {
            nodes[lo]
        }
    } else if key_hi < key_mid {
        if key_hi < key_lo {
            nodes[lo]
        } else {
            nodes[hi]
        }
    } else {
        nodes[mid]
    }
}

/// Whether some handle in `nodes[lo..hi]` has a key of at least `x`.
pub open spec fn has_key_at_least(
    nodes: Seq<usize>,
    slots: Map<int, BVHNode>,
    lo: int,
    hi: int,
    axis: int,
    x: int,
) -> bool {
    exists|p: int| lo <= p < hi && key(slots, #[trigger] nodes[p], axis) >= x
}

/// Whether some handle in `nodes[lo..hi]` has a key of at most `x`.
pub open spec fn has_key_at_most(
    nodes: Seq<usize>,
    slots: Map<int, BVHNode>,
    lo: int,
    hi: int,
    axis: int,
    x: int,
) -> bool {
    exists|p: int| lo <= p < hi && key(slots, #[trigger] nodes[p], axis) <= x
}

/// Whether every key of `nodes[lo..hi]` is at most `x`.
pub open spec fn keys_at_most(
    nodes: Seq<usize>,
    slots: Map<int, BVHNode>,
    lo: int,
    hi: int,
    axis: int,
    x: int,
) -> bool {
    forall|p: int| lo <= p < hi ==> key(slots, #[trigger] nodes[p], axis) <= x
}

/// Whether every key of `nodes[lo..hi]` is at least `x`.
pub open spec fn keys_at_least(
    nodes: Seq<usize>,
    slots: Map<int, BVHNode>,
    lo: int,
    hi: int,
    axis: int,
    x: int,
) -> bool {
    forall|p: int| lo <= p < hi ==> key(slots, #[trigger] nodes[p], axis) >= x
}

/// Partitions `nodes[lo..hi]` around the key of the node behind
/// `node_x_index`: afterwards no key before the returned position exceeds
/// it, and no key from that position on is below it.
pub(crate) fn bvh_partition(
    nodes: &mut Vec<usize>,
    node_array: &Arena<BVHNode>,
    lo: usize,
    hi: usize,
    node_x_index: usize,
    axis: usize,
) -> (cut: usize)
    requires
        lo < hi <= old(nodes)@.len(),
        keyed(old(nodes)@, arena_slots(*node_array), lo as int, hi as int, axis as int),
        distinct(old(nodes)@, lo as int, hi as int),
        arena_slots(*node_array).dom().contains(node_x_index as int),
        axis < arena_slots(*node_array)[node_x_index as int].bv@.len(),
        has_key_at_least(
            old(nodes)@,
            arena_slots(*node_array),
            lo as int,
            hi as int,
            axis as int,
            key(arena_slots(*node_array), node_x_index, axis as int),
        ),
        has_key_at_most(
            old(nodes)@,
            arena_slots(*node_array),
            lo + 1,
            hi as int,
            axis as int,
            key(arena_slots(*node_array), node_x_index, axis as int),
        ),
    ensures
        lo < cut < hi,
        rearranged(old(nodes)@, final(nodes)@, lo as int, hi as int),
        keyed(final(nodes)@, arena_slots(*node_array), lo as int, hi as int, axis as int),
        keys_at_most(
            final(nodes)@,
            arena_slots(*node_array),
            lo as int,
            cut as int,
            axis as int,
            key(arena_slots(*node_array), node_x_index, axis as int),
        ),
        keys_at_least(
            final(nodes)@,
            arena_slots(*node_array),
            cut as int,
            hi as int,
            axis as int,
            key(arena_slots(*node_array), node_x_index, axis as int),
        ),
{
    let ghost slots = arena_slots(*node_array);
    let ghost ax = axis as int;
    let x = node_key(node_array, node_x_index, axis);
    let mut i: usize = lo;
    let mut j: usize = hi;
    proof {
        lemma_rearranged_refl(nodes@, lo as int, hi as int);
    }
    loop
        invariant
            lo <= i <= j <= hi <= nodes@.len(),
            lo < hi,
            slots == arena_slots(*node_array),
            ax == axis as int,
            x == key(slots, node_x_index, ax),
            rearranged(old(nodes)@, nodes@, lo as int, hi as int),
            keyed(nodes@, slots, lo as int, hi as int, ax),
            keys_at_most(nodes@, slots, lo as int, i as int, ax, x as int),
            keys_at_least(nodes@, slots, j as int, hi as int, ax, x as int),
            has_key_at_least(nodes@, slots, i as int, hi as int, ax, x as int),
            has_key_at_most(nodes@, slots, lo as int, j as int, ax, x as int),
            i > lo || has_key_at_most(nodes@, slots, lo + 1, j as int, ax, x as int),
        decreases j - i,
    {
        let ghost head_i = i;
        let ghost head_j = j;
        while node_key(node_array, nodes[i], axis) < x
            invariant
                lo <= head_i <= i < hi <= nodes@.len(),
                slots == arena_slots(*node_array),
                ax == axis as int,
                keyed(nodes@, slots, lo as int, hi as int, ax),
                keys_at_most(nodes@, slots, lo as int, i as int, ax, x as int),
                has_key_at_least(nodes@, slots, i as int, hi as int, ax, x as int),
            decreases hi - i,
        {
            proof {
                let p = choose|p: int|
                    i <= p < hi && key(slots, #[trigger] nodes@[p], ax) >= x as int;
                assert(p != i);
                assert(i + 1 <= p < hi && key(slots, nodes@[p], ax) >= x as int);
            }
            i = i + 1;
        }
        proof {
            let q = choose|q: int|
                lo <= q < j && key(slots, #[trigger] nodes@[q], ax) <= x as int;
            assert(j >= 1);
        }
        j = j - 1;
        while x < node_key(node_array, nodes[j], axis)
            invariant
                lo <= j < head_j <= hi <= nodes@.len(),
                slots == arena_slots(*node_array),
                ax == axis as int,
                keyed(nodes@, slots, lo as int, hi as int, ax),
                keys_at_least(nodes@, slots, j + 1, hi as int, ax, x as int),
                has_key_at_most(nodes@, slots, lo as int, j + 1, ax, x as int),
                i > lo || has_key_at_most(nodes@, slots, lo + 1, j + 1, ax, x as int),
            decreases j,
        {
            proof {
                let q = choose|q: int|
                    lo <= q < j + 1 && key(slots, #[trigger] nodes@[q], ax) <= x as int;
                assert(q != j);
                assert(lo <= q < j && key(slots, nodes@[q], ax) <= x as int);
                if i == lo {
                    let r = choose|r: int|
                        lo + 1 <= r < j + 1 && key(slots, #[trigger] nodes@[r], ax) <= x as int;
                    assert(r != j);
                    assert(lo + 1 <= r < j && key(slots, nodes@[r], ax) <= x as int);
                }
            }
            j = j - 1;
        }
        if i >= j {
            proof {
                if i == lo {
                    let r = choose|r: int|
                        lo + 1 <= r < j + 1 && key(slots, #[trigger] nodes@[r], ax) <= x as int;
                    assert(false);
                }
                assert forall|p: int| i <= p < hi implies key(slots, #[trigger] nodes@[p], ax)
                    >= x as int by {
                    if p > j {
                    } else {
                        assert(p == i);
                    }
                }
            }
            return i;
        }
        let ghost before = nodes@;
        swap_handles(nodes, i, j);
        proof {
            lemma_swap_rearranged(
                old(nodes)@,
                before,
                nodes@,
                lo as int,
                hi as int,
                i as int,
                j as int,
            );
            assert forall|p: int| lo <= p < hi implies slots.dom().contains(
                #[trigger] nodes@[p] as int,
            ) && 0 <= ax < slots[nodes@[p] as int].bv@.len() by {
                let bp = if p == i {
                    j as int
                } else if p == j {
                    i as int
                } else {
                    p
                };
                assert(nodes@[p] == before[bp]);
            }
            assert forall|p: int| lo <= p < i + 1 implies key(slots, #[trigger] nodes@[p], ax)
                <= x as int by {
                if p < i {
                    assert(nodes@[p] == before[p]);
                }
            }
            assert forall|p: int| j <= p < hi implies key(slots, #[trigger] nodes@[p], ax)
                >= x as int by {
                if p > j {
                    assert(nodes@[p] == before[p]);
                }
            }
            assert(key(slots, nodes@[j as int], ax) >= x as int);
            assert(key(slots, nodes@[i as int], ax) <= x as int);
        }
        i = i + 1;
    }
}

/// Whether no key of `nodes[lo1..hi1]` exceeds a key of `nodes[lo2..hi2]`.
pub open spec fn all_le(
    nodes: Seq<usize>,
    slots: Map<int, BVHNode>,
    axis: int,
    lo1: int,
    hi1: int,
    lo2: int,
    hi2: int,
) -> bool {
    forall|p: int, q: int|
        lo1 <= p < hi1 && lo2 <= q < hi2 ==> key(slots, #[trigger] nodes[p], axis) <= key(
            slots,
            #[trigger] nodes[q],
            axis,
        )
}

/// Rearranging inside one of two ordered ranges keeps them ordered.
pub proof fn lemma_all_le_rearranged(
    cur: Seq<usize>,
    new: Seq<usize>,
    slots: Map<int, BVHNode>,
    axis: int,
    lo1: int,
    hi1: int,
    lo2: int,
    hi2: int,
    s: int,
    t: int,
)
    requires
        0 <= lo1 <= hi1 <= lo2 <= hi2 <= cur.len(),
        all_le(cur, slots, axis, lo1, hi1, lo2, hi2),
        rearranged(cur, new, s, t),
        (lo1 <= s && t <= hi1) || (lo2 <= s && t <= hi2),
    ensures
        all_le(new, slots, axis, lo1, hi1, lo2, hi2),
{
    assert forall|p: int, q: int| lo1 <= p < hi1 && lo2 <= q < hi2 implies key(
        slots,
        #[trigger] new[p],
        axis,
    ) <= key(slots, #[trigger] new[q], axis) by {
        let pp = if s <= p < t {
            assert(occurs_in(cur, s, t, new[p]));
            choose|r: int| s <= r < t && #[trigger] cur[r] == new[p]
        } else {
            p
        };
        let qq = if s <= q < t {
            assert(occurs_in(cur, s, t, new[q]));
            choose|r: int| s <= r < t && #[trigger] cur[r] == new[q]
        } else {
            q
        };
        assert(new[p] == cur[pp]);
        assert(new[q] == cur[qq]);
        assert(key(slots, cur[pp], axis) <= key(slots, cur[qq], axis));
    }
}

/// Rearranging keeps every handle of the range keyed.
pub proof fn lemma_keyed_rearranged(
    cur: Seq<usize>,
    new: Seq<usize>,
    slots: Map<int, BVHNode>,
    axis: int,
    lo: int,
    hi: int,
    s: int,
    t: int,
)
    requires
        0 <= lo <= s,
        t <= hi <= cur.len(),
        keyed(cur, slots, lo, hi, axis),
        rearranged(cur, new, s, t),
    ensures
        keyed(new, slots, lo, hi, axis),
{
    assert forall|p: int| lo <= p < hi implies slots.dom().contains(#[trigger] new[p] as int)
        && 0 <= axis < slots[new[p] as int].bv@.len() by {
        if s <= p < t {
            assert(occurs_in(cur, s, t, new[p]));
            let r = choose|r: int| s <= r < t && #[trigger] cur[r] == new[p];
            assert(slots.dom().contains(cur[r] as int));
        } else {
            assert(new[p] == cur[p]);
        }
    }
}

/// Rearranges `nodes[begin..end]` until position `n` splits it by key: no
/// key before `n` exceeds a key at or after `n`.
pub(crate) fn partition_nth_element(
    nodes: &mut Vec<usize>,
    node_array: &Arena<BVHNode>,
    begin: usize,
    end: usize,
    n: usize,
    axis: usize,
)
    requires
        begin <= end <= old(nodes)@.len(),
        keyed(old(nodes)@, arena_slots(*node_array), begin as int, end as int, axis as int),
        distinct(old(nodes)@, begin as int, end as int),
    ensures
        rearranged(old(nodes)@, final(nodes)@, begin as int, end as int),
        keyed(final(nodes)@, arena_slots(*node_array), begin as int, end as int, axis as int),
        split_at(
            final(nodes)@,
            arena_slots(*node_array),
            begin as int,
            end as int,
            n as int,
            axis as int,
        ),
{
    let ghost slots = arena_slots(*node_array);
    let ghost ax = axis as int;
    let ghost b0 = begin as int;
    let ghost e0 = end as int;
    let mut begin = begin;
    let mut end = end;
    proof {
        lemma_rearranged_refl(nodes@, b0, e0);
    }
    while end - begin > 3
        invariant
            0 <= b0 <= begin <= end <= e0 <= nodes@.len(),
            slots == arena_slots(*node_array),
            ax == axis as int,
            rearranged(old(nodes)@, nodes@, b0, e0),
            keyed(nodes@, slots, b0, e0, ax),
            all_le(nodes@, slots, ax, b0, begin as int, begin as int, e0),
            all_le(nodes@, slots, ax, b0, end as int, end as int, e0),
            begin > b0 ==> begin <= n,
            end < e0 ==> n < end,
        decreases end - begin,
    {
        let mid: usize = begin + (end - begin) / 2;
        let ghost cur = nodes@;
        let node_x_index = bvh_median_of_3(nodes, node_array, begin, mid, end - 1, axis);
        proof {
            let x = key(slots, node_x_index, ax);
            let a = key(slots, cur[begin as int], ax);
            let b = key(slots, cur[mid as int], ax);
            let c = key(slots, cur[end - 1], ax);
            assert(a >= x || b >= x);
            assert(b <= x || c <= x);
            assert(distinct(cur, begin as int, end as int));
        }
        let cut = bvh_partition(nodes, node_array, begin, end, node_x_index, axis);
        proof {
            let new = nodes@;
            lemma_rearranged_within(old(nodes)@, cur, new, b0, e0, begin as int, end as int);
            lemma_keyed_rearranged(cur, new, slots, ax, b0, e0, begin as int, end as int);
            lemma_all_le_rearranged(
                cur,
                new,
                slots,
                ax,
                b0,
                begin as int,
                begin as int,
                e0,
                begin as int,
                end as int,
            );
            lemma_all_le_rearranged(
                cur,
                new,
                slots,
                ax,
                b0,
                end as int,
                end as int,
                e0,
                begin as int,
                end as int,
            );
            assert(all_le(new, slots, ax, b0, cut as int, cut as int, e0));
        }
        if cut <= n {
            begin = cut;
        } else {
            end = cut;
        }
    }
    let ghost cur = nodes@;
    bvh_insertion_sort(nodes, node_array, begin, end, axis);
    proof {
        let new = nodes@;
        lemma_rearranged_within(old(nodes)@, cur, new, b0, e0, begin as int, end as int);
        lemma_keyed_rearranged(cur, new, slots, ax, b0, e0, begin as int, end as int);
        lemma_all_le_rearranged(
            cur,
            new,
            slots,
            ax,
            b0,
            begin as int,
            begin as int,
            e0,
            begin as int,
            end as int,
        );
        lemma_all_le_rearranged(
            cur,
            new,
            slots,
            ax,
            b0,
            end as int,
            end as int,
            e0,
            begin as int,
            end as int,
        );
    }
}

/// Whether the positions `nth[0..=partitions]` ascend.
pub open spec fn ascending(nth: Seq<usize>, partitions: int) -> bool {
    forall|i: int, j: int| 0 <= i <= j <= partitions ==> #[trigger] nth[i] <= #[trigger] nth[j]
}

/// Rearranges the handles between `nth[0]` and `nth[partitions]` so that each
/// position `nth[k]` in between splits them by key.
pub(crate) fn split_leafs(
    nodes: &mut Vec<usize>,
    node_array: &Arena<BVHNode>,
    nth: &Vec<usize>,
    partitions: usize,
    split_axis: usize,
)
    requires
        1 <= partitions < nth@.len(),
        ascending(nth@, partitions as int),
        nth@[partitions as int] <= old(nodes)@.len(),
        keyed(
            old(nodes)@,
            arena_slots(*node_array),
            nth@[0] as int,
            nth@[partitions as int] as int,
            split_axis as int,
        ),
        distinct(old(nodes)@, nth@[0] as int, nth@[partitions as int] as int),
    ensures
        rearranged(old(nodes)@, final(nodes)@, nth@[0] as int, nth@[partitions as int] as int),
        keyed(
            final(nodes)@,
            arena_slots(*node_array),
            nth@[0] as int,
            nth@[partitions as int] as int,
            split_axis as int,
        ),
        forall|k: int|
            1 <= k < partitions ==> all_le(
                final(nodes)@,
                arena_slots(*node_array),
                split_axis as int,
                nth@[k - 1] as int,
                #[trigger] nth@[k] as int,
                nth@[k] as int,
                nth@[partitions as int] as int,
            ),
{
    let ghost slots = arena_slots(*node_array);
    let ghost ax = split_axis as int;
    let ghost first = nth@[0] as int;
    let ghost last = nth@[partitions as int] as int;
    proof {
        lemma_rearranged_refl(nodes@, first, last);
    }
    let mut i: usize = 0;
    while i < partitions - 1 && nth[i] < nth[partitions]
        invariant
            i <= partitions - 1,
            1 <= partitions < nth@.len(),
            ascending(nth@, partitions as int),
            first == nth@[0],
            last == nth@[partitions as int],
            last <= nodes@.len(),
            slots == arena_slots(*node_array),
            ax == split_axis as int,
            rearranged(old(nodes)@, nodes@, first, last),
            keyed(nodes@, slots, first, last, ax),
            forall|k: int|
                1 <= k <= i ==> all_le(
                    nodes@,
                    slots,
                    ax,
                    nth@[k - 1] as int,
                    #[trigger] nth@[k] as int,
                    nth@[k] as int,
                    last,
                ),
        decreases partitions - 1 - i,
    {
        let ghost cur = nodes@;
        let begin = nth[i];
        let end = nth[partitions];
        let n = nth[i + 1];
        proof {
            assert(nth@[0] <= nth@[i as int]);
            assert(nth@[i as int] <= nth@[i + 1]);
            assert(nth@[i + 1] <= nth@[partitions as int]);
            assert forall|p: int| begin <= p < end implies slots.dom().contains(
                #[trigger] cur[p] as int,
            ) && 0 <= ax < slots[cur[p] as int].bv@.len() by {}
        }
        partition_nth_element(nodes, node_array, begin, end, n, split_axis);
        proof {
            let new = nodes@;
            lemma_rearranged_within(old(nodes)@, cur, new, first, last, begin as int, end as int);
            lemma_keyed_rearranged(cur, new, slots, ax, first, last, begin as int, end as int);
            assert forall|k: int| 1 <= k <= i + 1 implies all_le(
                new,
                slots,
                ax,
                nth@[k - 1] as int,
                #[trigger] nth@[k] as int,
                nth@[k] as int,
                last,
            ) by {
                if k <= i {
                    assert(nth@[k - 1] <= nth@[k]);
                    assert(nth@[k] <= nth@[i as int]);
                    assert(nth@[k - 1] >= nth@[0]);
                    lemma_all_le_rearranged(
                        cur,
                        new,
                        slots,
                        ax,
                        nth@[k - 1] as int,
                        nth@[k] as int,
                        nth@[k] as int,
                        last,
                        begin as int,
                        end as int,
                    );
                }
            }
        }
        i = i + 1;
    }
    proof {
        assert forall|k: int| 1 <= k < partitions implies all_le(
            nodes@,
            slots,
            ax,
            nth@[k - 1] as int,
            #[trigger] nth@[k] as int,
            nth@[k] as int,
            last,
        ) by {
            if k > i {
                assert(nth@[i as int] <= nth@[k]);
                assert(nth@[k] >= last);
            }
        }
    }
}

/// The least lower end, on `axis`, of the bounding volumes behind
/// `handles`, or `HULL_EMPTY` if there is none.
pub open spec fn union_lo(slots: Map<int, BVHNode>, handles: Seq<usize>, axis: int) -> int
    decreases handles.len(),
{
    if handles.len() == 0 {
        HULL_EMPTY as int
    } else {
        min_int(
            union_lo(slots, handles.drop_last(), axis),
            lo(slots[handles.last() as int].bv@, axis),
        )
    }
}

/// The greatest upper end, on `axis`, of the bounding volumes behind
/// `handles`, or `-HULL_EMPTY` if there is none.
pub open spec fn union_hi(slots: Map<int, BVHNode>, handles: Seq<usize>, axis: int) -> int
    decreases handles.len(),
{
    if handles.len() == 0 {
        -HULL_EMPTY as int
    } else {
        max_int(
            union_hi(slots, handles.drop_last(), axis),
            hi(slots[handles.last() as int].bv@, axis),
        )
    }
}

/// The union of bounding volumes contains each of them, and each of its
/// ends is an end of one of them or of the empty interval.
pub proof fn lemma_union_bounds(slots: Map<int, BVHNode>, handles: Seq<usize>, axis: int)
    ensures
        union_lo(slots, handles, axis) <= HULL_EMPTY,
        -HULL_EMPTY <= union_hi(slots, handles, axis),
        forall|p: int|
            0 <= p < handles.len() ==> union_lo(slots, handles, axis) <= lo(
                slots[#[trigger] handles[p] as int].bv@,
                axis,
            ) && hi(slots[handles[p] as int].bv@, axis) <= union_hi(slots, handles, axis),
        union_lo(slots, handles, axis) == HULL_EMPTY || exists|p: int|
            0 <= p < handles.len() && union_lo(slots, handles, axis) == lo(
                slots[#[trigger] handles[p] as int].bv@,
                axis,
            ),
        union_hi(slots, handles, axis) == -HULL_EMPTY || exists|p: int|
            0 <= p < handles.len() && union_hi(slots, handles, axis) == hi(
                slots[#[trigger] handles[p] as int].bv@,
                axis,
            ),
    decreases handles.len(),
{
    if handles.len() > 0 {
        let rest = handles.drop_last();
        let n = handles.len() - 1;
        lemma_union_bounds(slots, rest, axis);
        assert forall|p: int| 0 <= p < handles.len() implies union_lo(slots, handles, axis) <= lo(
            slots[#[trigger] handles[p] as int].bv@,
            axis,
        ) && hi(slots[handles[p] as int].bv@, axis) <= union_hi(slots, handles, axis) by {
            if p < n {
                assert(rest[p] == handles[p]);
            }
        }
        if union_lo(slots, handles, axis) != HULL_EMPTY {
            if union_lo(slots, handles, axis) == union_lo(slots, rest, axis) {
                let p = choose|p: int|
                    0 <= p < rest.len() && union_lo(slots, rest, axis) == lo(
                        slots[#[trigger] rest[p] as int].bv@,
                        axis,
                    );
                assert(rest[p] == handles[p]);
                assert(union_lo(slots, handles, axis) == lo(slots[handles[p] as int].bv@, axis));
            } else {
                assert(union_lo(slots, handles, axis) == lo(slots[handles[n] as int].bv@, axis));
            }
        }
        if union_hi(slots, handles, axis) != -HULL_EMPTY {
            if union_hi(slots, handles, axis) == union_hi(slots, rest, axis) {
                let p = choose|p: int|
                    0 <= p < rest.len() && union_hi(slots, rest, axis) == hi(
                        slots[#[trigger] rest[p] as int].bv@,
                        axis,
                    );
                assert(rest[p] == handles[p]);
                assert(union_hi(slots, handles, axis) == hi(slots[handles[p] as int].bv@, axis));
            } else {
                assert(union_hi(slots, handles, axis) == hi(slots[handles[n] as int].bv@, axis));
            }
        }
    }
}

/// The union depends only on the bounding volumes behind the handles.
pub proof fn lemma_union_same(
    a: Map<int, BVHNode>,
    b: Map<int, BVHNode>,
    handles: Seq<usize>,
    axis: int,
)
    requires
        forall|p: int|
            0 <= p < handles.len() ==> a[#[trigger] handles[p] as int].bv@ == b[handles[p] as int].bv@,
    ensures
        union_lo(a, handles, axis) == union_lo(b, handles, axis),
        union_hi(a, handles, axis) == union_hi(b, handles, axis),
    decreases handles.len(),
{
    if handles.len() > 0 {
        let rest = handles.drop_last();
        assert forall|p: int| 0 <= p < rest.len() implies a[#[trigger] rest[p] as int].bv@
            == b[rest[p] as int].bv@ by {
            assert(rest[p] == handles[p]);
        }
        lemma_union_same(a, b, rest, axis);
        assert(handles.last() == handles[handles.len() - 1]);
    }
}

/// Whether `b` is `a` with the bounding volume of the node in slot `s`
/// replaced: every other slot, and every other field of that node, is as it
/// was.
pub open spec fn only_bv_changed(a: Map<int, BVHNode>, b: Map<int, BVHNode>, s: int) -> bool {
    &&& b.dom() =~= a.dom()
    &&& forall|x: int| a.dom().contains(x) && x != s ==> #[trigger] b[x] == a[x]
    &&& b[s].children == a[s].children
    &&& b[s].parent == a[s].parent
    &&& b[s].elem_index == a[s].elem_index
    &&& b[s].totnode == a[s].totnode
    &&& b[s].main_axis == a[s].main_axis
    &&& b[s].bv@.len() == a[s].bv@.len()
}

/// Whether `bv` is, on the axes `start..stop`, the union of the bounding
/// volumes behind `handles`.
pub open spec fn is_union(
    bv: Seq<i64>,
    slots: Map<int, BVHNode>,
    handles: Seq<usize>,
    start: int,
    stop: int,
) -> bool {
    forall|a: int|
        #![trigger lo(bv, a)]
        #![trigger hi(bv, a)]
        start <= a < stop ==> lo(bv, a) == union_lo(slots, handles, a) && hi(bv, a) == union_hi(
            slots,
            handles,
            a,
        )
}

/// Sets the bounding volume of the node in slot `node_index`, on the axes
/// `start_axis..stop_axis`, to the union of those behind
/// `nodes[start..end]`.
pub(crate) fn refit_kdop_hull(
    nodes: &Vec<usize>,
    node_array: &mut Arena<BVHNode>,
    node_index: usize,
    start: usize,
    end: usize,
    start_axis: u8,
    stop_axis: u8,
)
    requires
        start <= end <= nodes@.len(),
        arena_slots(*old(node_array)).dom().contains(node_index as int),
        fits(
            arena_slots(*old(node_array))[node_index as int].bv@,
            start_axis as int,
            stop_axis as int,
        ),
        forall|p: int|
            start <= p < end ==> arena_slots(*old(node_array)).dom().contains(
                #[trigger] nodes@[p] as int,
            ) && nodes@[p] != node_index && fits(
                arena_slots(*old(node_array))[nodes@[p] as int].bv@,
                start_axis as int,
                stop_axis as int,
            ),
    ensures
        only_bv_changed(
            arena_slots(*old(node_array)),
            arena_slots(*final(node_array)),
            node_index as int,
        ),
        same_outside(
            arena_slots(*final(node_array))[node_index as int].bv@,
            arena_slots(*old(node_array))[node_index as int].bv@,
            start_axis as int,
            stop_axis as int,
        ),
        is_union(
            arena_slots(*final(node_array))[node_index as int].bv@,
            arena_slots(*old(node_array)),
            nodes@.subrange(start as int, end as int),
            start_axis as int,
            stop_axis as int,
        ),
{
    let ghost slots0 = arena_slots(*node_array);
    let ghost bv0 = slots0[node_index as int].bv@;
    {
        let node = arena_get_mut(node_array, node_index);
        min_max_init(&mut node.bv, start_axis, stop_axis);
    }
    let mut j: usize = start;
    proof {
        assert(nodes@.subrange(start as int, start as int) =~= Seq::<usize>::empty());
    }
    while j < end
        invariant
            start <= j <= end <= nodes@.len(),
            start_axis <= stop_axis <= KDOP_AXES,
            slots0.dom().contains(node_index as int),
            bv0 == slots0[node_index as int].bv@,
            fits(bv0, start_axis as int, stop_axis as int),
            forall|p: int|
                start <= p < end ==> slots0.dom().contains(#[trigger] nodes@[p] as int) && nodes@[p]
                    != node_index && fits(
                    slots0[nodes@[p] as int].bv@,
                    start_axis as int,
                    stop_axis as int,
                ),
            only_bv_changed(slots0, arena_slots(*node_array), node_index as int),
            same_outside(
                arena_slots(*node_array)[node_index as int].bv@,
                bv0,
                start_axis as int,
                stop_axis as int,
            ),
            is_union(
                arena_slots(*node_array)[node_index as int].bv@,
                slots0,
                nodes@.subrange(start as int, j as int),
                start_axis as int,
                stop_axis as int,
            ),
        decreases end - j,
    {
        let handle = nodes[j];
        let ghost seen = nodes@.subrange(start as int, j as int);
        let ghost next = nodes@.subrange(start as int, j + 1);
        let ghost row = arena_slots(*node_array)[node_index as int].bv@;
        let ghost child_bv = slots0[handle as int].bv@;
        proof {
            assert(next.drop_last() =~= seen);
            assert(next.last() == handle);
            assert(arena_slots(*node_array)[handle as int] == slots0[handle as int]);
        }
        let mut axis_iter: u8 = start_axis;
        while axis_iter < stop_axis
            invariant
                start_axis <= axis_iter <= stop_axis <= KDOP_AXES,
                handle == nodes@[j as int],
                handle != node_index,
                slots0.dom().contains(node_index as int),
                slots0.dom().contains(handle as int),
                child_bv == slots0[handle as int].bv@,
                fits(child_bv, start_axis as int, stop_axis as int),
                bv0 == slots0[node_index as int].bv@,
                fits(bv0, start_axis as int, stop_axis as int),
                next.len() > 0,
                next.drop_last() == seen,
                next.last() == handle,
                only_bv_changed(slots0, arena_slots(*node_array), node_index as int),
                same_outside(
                    arena_slots(*node_array)[node_index as int].bv@,
                    bv0,
                    start_axis as int,
                    stop_axis as int,
                ),
                is_union(row, slots0, seen, start_axis as int, stop_axis as int),
                forall|a: int|
                    #![trigger lo(arena_slots(*node_array)[node_index as int].bv@, a)]
                    #![trigger hi(arena_slots(*node_array)[node_index as int].bv@, a)]
                    axis_iter <= a < stop_axis ==> lo(
                        arena_slots(*node_array)[node_index as int].bv@,
                        a,
                    ) == lo(row, a) && hi(arena_slots(*node_array)[node_index as int].bv@, a)
                        == hi(row, a),
                is_union(
                    arena_slots(*node_array)[node_index as int].bv@,
                    slots0,
                    next,
                    start_axis as int,
                    axis_iter as int,
                ),
            decreases stop_axis - axis_iter,
        {
            let axis: usize = axis_iter as usize;
            let child = arena_get(node_array, handle).unwrap();
            let from: usize = 2 * (axis - first_axis_of(&child.bv));
            let new_min = child.bv[from];
            let new_max = child.bv[from + 1];
            let ghost before = arena_slots(*node_array)[node_index as int].bv@;
            let node = arena_get_mut(node_array, node_index);
            let at: usize = 2 * (axis - first_axis_of(&node.bv));
            if new_min < node.bv[at] {
                node.bv.set(at, new_min);
            }
            if new_max > node.bv[at + 1] {
                node.bv.set(at + 1, new_max);
            }
            proof {
                let after = arena_slots(*node_array)[node_index as int].bv@;
                let x = axis_iter as int;
                assert(lo(before, x) == lo(row, x) && hi(before, x) == hi(row, x));
                assert(lo(row, x) == union_lo(slots0, seen, x));
                assert(hi(row, x) == union_hi(slots0, seen, x));
                assert(new_min == lo(child_bv, x));
                assert(new_max == hi(child_bv, x));
                assert(lo(after, x) == union_lo(slots0, next, x));
                assert(hi(after, x) == union_hi(slots0, next, x));
                assert forall|a: int|
                    #![trigger lo(after, a)]
                    #![trigger hi(after, a)]
                    axis_iter + 1 <= a < stop_axis implies lo(after, a) == lo(row, a) && hi(
                    after,
                    a,
                ) == hi(row, a) by {
                    assert(lo(before, a) == lo(row, a) && hi(before, a) == hi(row, a));
                }
                assert forall|a: int|
                    #![trigger lo(after, a)]
                    #![trigger hi(after, a)]
                    start_axis <= a < axis_iter + 1 implies lo(after, a) == union_lo(
                    slots0,
                    next,
                    a,
                ) && hi(after, a) == union_hi(slots0, next, a) by {
                    if a < axis_iter {
                        assert(lo(before, a) == union_lo(slots0, next, a));
                        assert(hi(before, a) == union_hi(slots0, next, a));
                    }
                }
            }
            axis_iter = axis_iter + 1;
        }
        j = j + 1;
    }
}

} // verus!
