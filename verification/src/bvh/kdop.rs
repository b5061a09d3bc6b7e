//! Bounding-volume arithmetic on k-DOP interval arrays.
//!
//! A bounding volume is a flat array of interleaved `(min, max)` pairs, one
//! pair per k-DOP axis, from the first axis of its k-DOP on: with `f` the
//! first axis, entry `2 * (a - f)` is the lower end of axis `a`, and the
//! entry after it the upper end. The first axis is 0, but for the volume
//! of 18 entries: that is the volume of the 18-DOP, whose six axes are
//! the axes 7 to 12 of the table.

use crate::vector::Vec3;
use vstd::prelude::*;

verus! {

/// Number of directions in the k-DOP axis table.
pub const KDOP_AXES: usize = 13;

/// Largest magnitude of a point coordinate that the tree accepts, in
/// steps of the lattice: 2^26. This is a limit of the arithmetic and not
/// of the geometry. A projection on a diagonal axis adds three
/// coordinates, a squared distance adds three squares of differences of
/// interval ends, and a ray distance multiplies such a difference by a
/// direction: with coordinates in this range all of them fit the 64-bit
/// scalar (the products of two ratios, 128 bits) without overflow.
pub const COORD_MAX: i64 = 0x400_0000;

/// The lower end of an interval that holds nothing; its upper end is the
/// negation. Every projection of an accepted point lies strictly between.
pub const HULL_EMPTY: i64 = 0x1000_0000;

/// Largest magnitude of any interval end that a tree stores: 2^29, which
/// has room for a projection of an accepted point (at most three times
/// `COORD_MAX`) widened by an inflation of at most `COORD_MAX`, and for
/// the ends of the empty interval.
pub const BV_MAX: i64 = 0x2000_0000;

/// Whether every coordinate of `p` is within `COORD_MAX` of zero.
pub open spec fn in_range(p: Vec3) -> bool {
    &&& -COORD_MAX <= p.x <= COORD_MAX
    &&& -COORD_MAX <= p.y <= COORD_MAX
    &&& -COORD_MAX <= p.z <= COORD_MAX
}

/// Whether every point of `pts` is in range.
pub open spec fn all_in_range(pts: Seq<Vec3>) -> bool {
    forall|i: int| 0 <= i < pts.len() ==> in_range(#[trigger] pts[i])
}

/// The direction of k-DOP axis `axis`: three cardinal axes, four space
/// diagonals, six face diagonals.
pub open spec fn axis_dir(axis: int) -> (int, int, int) {
    if axis == 0 {
        (1, 0, 0)
    } else if axis == 1 {
        (0, 1, 0)
    } else if axis == 2 {
        (0, 0, 1)
    } else if axis == 3 {
        (1, 1, 1)
    } else if axis == 4 {
        (1, -1, 1)
    } else if axis == 5 {
        (1, 1, -1)
    } else if axis == 6 {
        (1, -1, -1)
    } else if axis == 7 {
        (1, 1, 0)
    } else if axis == 8 {
        (1, 0, 1)
    } else if axis == 9 {
        (0, 1, 1)
    } else if axis == 10 {
        (1, -1, 0)
    } else if axis == 11 {
        (1, 0, -1)
    } else {
        (0, 1, -1)
    }
}

/// The projection of `p` onto k-DOP axis `axis`: its dot product with the
/// axis direction.
pub open spec fn project(p: Vec3, axis: int) -> int {
    if axis == 0 {
        p.x as int
    } else if axis == 1 {
        p.y as int
    } else if axis == 2 {
        p.z as int
    } else if axis == 3 {
        p.x + p.y + p.z
    } else if axis == 4 {
        p.x - p.y + p.z
    } else if axis == 5 {
        p.x + p.y - p.z
    } else if axis == 6 {
        p.x - p.y - p.z
    } else if axis == 7 {
        p.x + p.y
    } else if axis == 8 {
        p.x + p.z
    } else if axis == 9 {
        p.y + p.z
    } else if axis == 10 {
        p.x - p.y
    } else if axis == 11 {
        p.x - p.z
    } else {
        p.y - p.z
    }
}

/// `project` is the dot product with the axis direction.
pub proof fn law_project_is_dot(p: Vec3, axis: int)
    requires
        0 <= axis < KDOP_AXES,
    ensures
        project(p, axis) == p.x * axis_dir(axis).0 + p.y * axis_dir(axis).1 + p.z * axis_dir(
            axis,
        ).2,
{
    let d = axis_dir(axis);
    assert(p.x * d.0 == if d.0 == 1 {
        p.x as int
    } else {
        0
    }) by (nonlinear_arith)
        requires
            d.0 == 0 || d.0 == 1,
    ;
    assert(p.y * d.1 == if d.1 == 1 {
        p.y as int
    } else if d.1 == 0 {
        0
    } else {
        -p.y
    }) by (nonlinear_arith)
        requires
            d.1 == 0 || d.1 == 1 || d.1 == -1,
    ;
    assert(p.z * d.2 == if d.2 == 1 {
        p.z as int
    } else if d.2 == 0 {
        0
    } else {
        -p.z
    }) by (nonlinear_arith)
        requires
            d.2 == 0 || d.2 == 1 || d.2 == -1,
    ;
}

/// The smaller of two integers.
pub open spec fn min_int(a: int, b: int) -> int {
    if b < a {
        b
    } else {
        a
    }
}

/// The larger of two integers.
pub open spec fn max_int(a: int, b: int) -> int {
    if b > a {
        b
    } else {
        a
    }
}

/// The least of `init` and the projections of `pts` onto `axis`.
pub open spec fn grow_lo(init: int, pts: Seq<Vec3>, axis: int) -> int
    decreases pts.len(),
{
    if pts.len() == 0 {
        init
    } else {
        min_int(grow_lo(init, pts.drop_last(), axis), project(pts.last(), axis))
    }
}

/// The greatest of `init` and the projections of `pts` onto `axis`.
pub open spec fn grow_hi(init: int, pts: Seq<Vec3>, axis: int) -> int
    decreases pts.len(),
{
    if pts.len() == 0 {
        init
    } else {
        max_int(grow_hi(init, pts.drop_last(), axis), project(pts.last(), axis))
    }
}

/// The least projection of `pts` onto `axis`, or `HULL_EMPTY` if there is no
/// point.
pub open spec fn hull_lo(pts: Seq<Vec3>, axis: int) -> int {
    grow_lo(HULL_EMPTY as int, pts, axis)
}

/// The greatest projection of `pts` onto `axis`, or `-HULL_EMPTY` if there is
/// no point.
pub open spec fn hull_hi(pts: Seq<Vec3>, axis: int) -> int {
    grow_hi(-HULL_EMPTY as int, pts, axis)
}

/// Whether some point of `pts` projects onto `axis` at `v`.
pub open spec fn attained(pts: Seq<Vec3>, axis: int, v: int) -> bool {
    exists|i: int| 0 <= i < pts.len() && v == project(#[trigger] pts[i], axis)
}

/// The first axis that a volume of the length of `bv` has entries for: 7
/// for the 18 entries of the 18-DOP, and else 0.
pub open spec fn first_axis(bv: Seq<i64>) -> int {
    if bv.len() == 18 {
        7
    } else {
        0
    }
}

/// Finds the first axis that `bv` has entries for.
pub fn first_axis_of(bv: &Vec<i64>) -> (r: usize)
    ensures
        r == first_axis(bv@),
{
    if bv.len() == 18 {
        7
    } else {
        0
    }
}

/// Whether `bv` has entries for the axes `start..stop`.
pub open spec fn fits(bv: Seq<i64>, start: int, stop: int) -> bool {
    &&& first_axis(bv) <= start <= stop <= KDOP_AXES
    &&& 2 * (stop - first_axis(bv)) <= bv.len()
}

/// The lower end of `bv` on `axis`.
pub open spec fn lo(bv: Seq<i64>, axis: int) -> int {
    bv[2 * (axis - first_axis(bv))] as int
}

/// The upper end of `bv` on `axis`.
pub open spec fn hi(bv: Seq<i64>, axis: int) -> int {
    bv[2 * (axis - first_axis(bv)) + 1] as int
}

/// Whether every entry of `bv` is within `BV_MAX` of zero.
pub open spec fn bounded(bv: Seq<i64>) -> bool {
    forall|k: int| 0 <= k < bv.len() ==> -BV_MAX <= #[trigger] bv[k] <= BV_MAX
}

/// Whether `a` and `b` agree on every entry outside the axes `start..stop`.
pub open spec fn same_outside(a: Seq<i64>, b: Seq<i64>, start: int, stop: int) -> bool {
    &&& a.len() == b.len()
    &&& forall|k: int|
        0 <= k < a.len() && !(2 * (start - first_axis(a)) <= k < 2 * (stop - first_axis(a)))
            ==> #[trigger] a[k] == b[k]
}

/// Whether `outer` contains `inner` on every axis in `start..stop`.
pub open spec fn contains_bv(outer: Seq<i64>, inner: Seq<i64>, start: int, stop: int) -> bool {
    forall|a: int|
        #![trigger lo(outer, a)]
        #![trigger hi(outer, a)]
        #![trigger lo(inner, a)]
        #![trigger hi(inner, a)]
        start <= a < stop ==> lo(outer, a) <= lo(inner, a) && hi(inner, a) <= hi(
            outer,
            a,
        )
}

/// Whether two bounding volumes meet on every axis in `start..stop`: on no
/// axis does the lower end of one exceed the upper end of the other.
pub open spec fn overlaps(a: Seq<i64>, b: Seq<i64>, start: int, stop: int) -> bool {
    forall|x: int|
        #![trigger lo(a, x)]
        #![trigger hi(a, x)]
        #![trigger lo(b, x)]
        #![trigger hi(b, x)]
        start <= x < stop ==> !(lo(a, x) > hi(b, x) || lo(b, x) > hi(a, x))
}

/// Every projection of an in-range point lies strictly inside the empty
/// interval's ends.
pub proof fn lemma_project_bound(p: Vec3, axis: int)
    requires
        in_range(p),
        0 <= axis < KDOP_AXES,
    ensures
        -3 * COORD_MAX <= project(p, axis) <= 3 * COORD_MAX,
{
}

/// Growing an interval end over in-range points: the result is the start
/// value or a point's projection, and it bounds the start value and every
/// projection.
pub proof fn lemma_grow_bounds(init_lo: int, init_hi: int, pts: Seq<Vec3>, axis: int)
    requires
        all_in_range(pts),
        0 <= axis < KDOP_AXES,
    ensures
        grow_lo(init_lo, pts, axis) <= init_lo,
        init_hi <= grow_hi(init_hi, pts, axis),
        forall|i: int|
            0 <= i < pts.len() ==> grow_lo(init_lo, pts, axis) <= project(
                #[trigger] pts[i],
                axis,
            ) <= grow_hi(init_hi, pts, axis),
        grow_lo(init_lo, pts, axis) == init_lo || exists|i: int|
            0 <= i < pts.len() && grow_lo(init_lo, pts, axis) == project(#[trigger] pts[i], axis),
        grow_hi(init_hi, pts, axis) == init_hi || exists|i: int|
            0 <= i < pts.len() && grow_hi(init_hi, pts, axis) == project(#[trigger] pts[i], axis),
        -3 * COORD_MAX <= init_lo ==> -3 * COORD_MAX <= grow_lo(init_lo, pts, axis),
        init_hi <= 3 * COORD_MAX ==> grow_hi(init_hi, pts, axis) <= 3 * COORD_MAX,
    decreases pts.len(),
{
    if pts.len() > 0 {
        let rest = pts.drop_last();
        let n = pts.len() - 1;
        assert(in_range(pts[n]));
        assert forall|i: int| 0 <= i < rest.len() implies in_range(#[trigger] rest[i]) by {
            assert(rest[i] == pts[i]);
        }
        lemma_grow_bounds(init_lo, init_hi, rest, axis);
        lemma_project_bound(pts.last(), axis);
        assert forall|i: int| 0 <= i < pts.len() implies grow_lo(init_lo, pts, axis) <= project(
            #[trigger] pts[i],
            axis,
        ) <= grow_hi(init_hi, pts, axis) by {
            if i < n {
                assert(rest[i] == pts[i]);
            }
        }
        if grow_lo(init_lo, pts, axis) != init_lo {
            if grow_lo(init_lo, pts, axis) == grow_lo(init_lo, rest, axis) {
                let i = choose|i: int|
                    0 <= i < rest.len() && grow_lo(init_lo, rest, axis) == project(
                        #[trigger] rest[i],
                        axis,
                    );
                assert(rest[i] == pts[i]);
                assert(grow_lo(init_lo, pts, axis) == project(pts[i], axis));
            } else {
                assert(grow_lo(init_lo, pts, axis) == project(pts[n], axis));
            }
        }
        if grow_hi(init_hi, pts, axis) != init_hi {
            if grow_hi(init_hi, pts, axis) == grow_hi(init_hi, rest, axis) {
                let j = choose|j: int|
                    0 <= j < rest.len() && grow_hi(init_hi, rest, axis) == project(
                        #[trigger] rest[j],
                        axis,
                    );
                assert(rest[j] == pts[j]);
                assert(grow_hi(init_hi, pts, axis) == project(pts[j], axis));
            } else {
                assert(grow_hi(init_hi, pts, axis) == project(pts[n], axis));
            }
        }
    }
}

/// Projects `co` onto k-DOP axis `axis`.
pub fn project_on(co: &Vec3, axis: usize) -> (r: i64)
    requires
        in_range(*co),
        axis < KDOP_AXES,
    ensures
        r == project(*co, axis as int),
{
    if axis == 0 {
        co.x
    } else if axis == 1 {
        co.y
    } else if axis == 2 {
        co.z
    } else if axis == 3 {
        co.x + co.y + co.z
    } else if axis == 4 {
        co.x - co.y + co.z
    } else if axis == 5 {
        co.x + co.y - co.z
    } else if axis == 6 {
        co.x - co.y - co.z
    } else if axis == 7 {
        co.x + co.y
    } else if axis == 8 {
        co.x + co.z
    } else if axis == 9 {
        co.y + co.z
    } else if axis == 10 {
        co.x - co.y
    } else if axis == 11 {
        co.x - co.z
    } else {
        co.y - co.z
    }
}

/// Resets the axes `start_axis..stop_axis` of `bv` to the empty interval.
pub fn min_max_init(bv: &mut Vec<i64>, start_axis: u8, stop_axis: u8)
    requires
        fits(old(bv)@, start_axis as int, stop_axis as int),
    ensures
        same_outside(final(bv)@, old(bv)@, start_axis as int, stop_axis as int),
        forall|a: int|
            #![trigger lo(final(bv)@, a)]
            #![trigger hi(final(bv)@, a)]
            start_axis <= a < stop_axis ==> lo(final(bv)@, a) == HULL_EMPTY && hi(
                final(bv)@,
                a,
            ) == -HULL_EMPTY,
{
    let first = first_axis_of(bv);
    let mut axis_iter: u8 = start_axis;
    while axis_iter < stop_axis
        invariant
            start_axis <= axis_iter <= stop_axis <= KDOP_AXES,
            bv@.len() == old(bv)@.len(),
            first == first_axis(bv@),
            fits(bv@, start_axis as int, stop_axis as int),
            forall|k: int|
                0 <= k < bv@.len() && !(2 * (start_axis - first) <= k < 2 * (axis_iter - first))
                    ==> #[trigger] bv@[k] == old(bv)@[k],
            forall|a: int|
                #![trigger lo(bv@, a)]
                #![trigger hi(bv@, a)]
                start_axis <= a < axis_iter ==> lo(bv@, a) == HULL_EMPTY && hi(bv@, a)
                    == -HULL_EMPTY,
        decreases stop_axis - axis_iter,
    {
        let k: usize = 2 * (axis_iter as usize - first);
        let ghost before = bv@;
        bv.set(k, HULL_EMPTY);
        bv.set(k + 1, -HULL_EMPTY);
        proof {
            assert forall|a: int| #![trigger lo(bv@, a)] #![trigger hi(bv@, a)] start_axis <= a < axis_iter + 1 implies lo(bv@, a)
                == HULL_EMPTY && hi(bv@, a) == -HULL_EMPTY by {
                if a < axis_iter {
                    assert(lo(before, a) == HULL_EMPTY && hi(before, a) == -HULL_EMPTY);
                }
            }
        }
        axis_iter = axis_iter + 1;
    }
}

/// Grows `bv` on the axes `start_axis..stop_axis` until it holds every point
/// of `co_many`. Unless `moving` is set, those axes are reset to the empty
/// interval first.
pub fn create_kdop_hull(
    bv: &mut Vec<i64>,
    start_axis: u8,
    stop_axis: u8,
    co_many: &[Vec3],
    moving: bool,
)
    requires
        fits(old(bv)@, start_axis as int, stop_axis as int),
        all_in_range(co_many@),
    ensures
        same_outside(final(bv)@, old(bv)@, start_axis as int, stop_axis as int),
        forall|a: int|
            #![trigger lo(final(bv)@, a)]
            #![trigger hi(final(bv)@, a)]
            start_axis <= a < stop_axis ==> lo(final(bv)@, a) == grow_lo(
                if moving {
                    lo(old(bv)@, a)
                } else {
                    HULL_EMPTY as int
                },
                co_many@,
                a,
            ) && hi(final(bv)@, a) == grow_hi(
                if moving {
                    hi(old(bv)@, a)
                } else {
                    -HULL_EMPTY as int
                },
                co_many@,
                a,
            ),
{
    if !moving {
        min_max_init(bv, start_axis, stop_axis);
    }
    let ghost base = bv@;
    let first = first_axis_of(bv);
    let n = co_many.len();
    let mut i: usize = 0;
    while i < n
        invariant
            start_axis <= stop_axis <= KDOP_AXES,
            n == co_many@.len(),
            0 <= i <= n,
            all_in_range(co_many@),
            first == first_axis(bv@),
            fits(bv@, start_axis as int, stop_axis as int),
            same_outside(bv@, base, start_axis as int, stop_axis as int),
            forall|a: int|
                #![trigger lo(bv@, a)]
                #![trigger hi(bv@, a)]
                start_axis <= a < stop_axis ==> lo(bv@, a) == grow_lo(
                    lo(base, a),
                    co_many@.take(i as int),
                    a,
                ) && hi(bv@, a) == grow_hi(hi(base, a), co_many@.take(i as int), a),
        decreases n - i,
    {
        let co = &co_many[i];
        let ghost row = bv@;
        let ghost seen = co_many@.take(i as int);
        let ghost next = co_many@.take(i + 1);
        proof {
            assert(in_range(co_many@[i as int]));
            assert(next.drop_last() =~= seen);
            assert(next.last() == co_many@[i as int]);
        }
        let mut axis_iter: u8 = start_axis;
        while axis_iter < stop_axis
            invariant
                start_axis <= axis_iter <= stop_axis <= KDOP_AXES,
                in_range(*co),
                *co == co_many@[i as int],
                next.drop_last() == seen,
                next.last() == *co,
                next.len() > 0,
                first == first_axis(bv@),
                fits(bv@, start_axis as int, stop_axis as int),
                same_outside(bv@, base, start_axis as int, stop_axis as int),
                forall|a: int|
                    #![trigger lo(bv@, a)]
                    #![trigger hi(bv@, a)]
                    axis_iter <= a < stop_axis ==> lo(bv@, a) == lo(row, a) && hi(
                        bv@,
                        a,
                    ) == hi(row, a),
                forall|a: int|
                    #![trigger lo(row, a)]
                    #![trigger hi(row, a)]
                    start_axis <= a < stop_axis ==> lo(row, a) == grow_lo(
                        lo(base, a),
                        seen,
                        a,
                    ) && hi(row, a) == grow_hi(hi(base, a), seen, a),
                forall|a: int|
                    #![trigger lo(bv@, a)]
                    #![trigger hi(bv@, a)]
                    start_axis <= a < axis_iter ==> lo(bv@, a) == grow_lo(
                        lo(base, a),
                        next,
                        a,
                    ) && hi(bv@, a) == grow_hi(hi(base, a), next, a),
            decreases stop_axis - axis_iter,
        {
            let axis: usize = axis_iter as usize;
            let ghost before = bv@;
            let new_min_max = project_on(co, axis);
            let at: usize = 2 * (axis - first);
            if new_min_max < bv[at] {
                bv.set(at, new_min_max);
            }
            if new_min_max > bv[at + 1] {
                bv.set(at + 1, new_min_max);
            }
            proof {
                let x = axis_iter as int;
                assert(lo(before, x) == lo(row, x) && hi(before, x) == hi(row, x));
                assert(lo(row, x) == grow_lo(lo(base, x), seen, x));
                assert(lo(bv@, x) == grow_lo(lo(base, x), next, x));
                assert(hi(bv@, x) == grow_hi(hi(base, x), next, x));
                assert forall|a: int|
                    #![trigger lo(bv@, a)]
                    #![trigger hi(bv@, a)]
                    axis_iter + 1 <= a < stop_axis implies lo(bv@, a) == lo(row, a) && hi(bv@, a) == hi(row, a) by {
                    assert(lo(before, a) == lo(row, a) && hi(before, a) == hi(row, a));
                }
                assert forall|a: int|
                    #![trigger lo(bv@, a)]
                    #![trigger hi(bv@, a)]
                    start_axis <= a < axis_iter + 1 implies lo(bv@, a) == grow_lo(lo(base, a), next, a) && hi(bv@, a) == grow_hi(
                    hi(base, a),
                    next,
                    a,
                ) by {
                    if a < axis_iter {
                        assert(lo(before, a) == grow_lo(lo(base, a), next, a));
                        assert(hi(before, a) == grow_hi(hi(base, a), next, a));
                    }
                }
            }
            axis_iter = axis_iter + 1;
        }
        i = i + 1;
    }
    proof {
        assert(co_many@.take(n as int) =~= co_many@);
    }
}

/// Tests whether two bounding volumes meet on every axis in
/// `start_axis..stop_axis`.
pub fn overlap_test(bv1: &Vec<i64>, bv2: &Vec<i64>, start_axis: u8, stop_axis: u8) -> (r: bool)
    requires
        start_axis <= stop_axis ==> fits(bv1@, start_axis as int, stop_axis as int) && fits(
            bv2@,
            start_axis as int,
            stop_axis as int,
        ),
    ensures
        r == overlaps(bv1@, bv2@, start_axis as int, stop_axis as int),
{
    if start_axis >= stop_axis {
        // no axis in common: nothing keeps the two apart
        return true;
    }
    let first1 = first_axis_of(bv1);
    let first2 = first_axis_of(bv2);
    let mut axis_iter: u8 = start_axis;
    while axis_iter < stop_axis
        invariant
            start_axis <= axis_iter <= stop_axis <= KDOP_AXES,
            first1 == first_axis(bv1@),
            first2 == first_axis(bv2@),
            fits(bv1@, start_axis as int, stop_axis as int),
            fits(bv2@, start_axis as int, stop_axis as int),
            overlaps(bv1@, bv2@, start_axis as int, axis_iter as int),
        decreases stop_axis - axis_iter,
    {
        let axis: usize = axis_iter as usize;
        let at1: usize = 2 * (axis - first1);
        let at2: usize = 2 * (axis - first2);
        if bv1[at1] > bv2[at2 + 1] || bv2[at2] > bv1[at1 + 1] {
            proof {
                assert(lo(bv1@, axis as int) > hi(bv2@, axis as int) || lo(bv2@, axis as int)
                    > hi(bv1@, axis as int));
            }
            return false;
        }
        axis_iter = axis_iter + 1;
    }
    true
}

/// The split direction of a bounding volume: the upper-end index (1, 3 or 5)
/// of the cardinal axis on which `bv` is widest, later axes winning ties.
/// The first three pairs of entries are read, which are the cardinal axes
/// unless `bv` is of 18 entries.
pub open spec fn largest_axis(bv: Seq<i64>) -> u8 {
    let dx = bv[1] - bv[0];
    let dy = bv[3] - bv[2];
    let dz = bv[5] - bv[4];
    if dx > dy {
        if dx > dz {
            1
        } else {
            5
        }
    } else if dy > dz {
        3
    } else {
        5
    }
}

/// Finds the cardinal axis on which `bv` is widest.
pub fn get_largest_axis(bv: &Vec<i64>) -> (r: u8)
    requires
        bv@.len() >= 6,
        bounded(bv@),
    ensures
        r == largest_axis(bv@),
        r == 1 || r == 3 || r == 5,
{
    let middle_point_x = bv[1] - bv[0];
    let middle_point_y = bv[3] - bv[2];
    let middle_point_z = bv[5] - bv[4];
    if middle_point_x > middle_point_y {
        if middle_point_x > middle_point_z {
            1
        } else {
            5
        }
    } else if middle_point_y > middle_point_z {
        3
    } else {
        5
    }
}

/// `p` moved into the interval `lo..=hi`: raised to `lo` first, then lowered
/// to `hi`.
pub open spec fn clamp_to(p: int, lo: int, hi: int) -> int {
    min_int(max_int(p, lo), hi)
}

/// The point of the box spanned by the first three pairs of entries of
/// `bv`, which are the three cardinal axes unless `bv` is of 18 entries,
/// that is nearest to `proj`.
pub open spec fn nearest_on_box(bv: Seq<i64>, proj: Vec3) -> (int, int, int) {
    (
        clamp_to(proj.x as int, bv[0] as int, bv[1] as int),
        clamp_to(proj.y as int, bv[2] as int, bv[3] as int),
        clamp_to(proj.z as int, bv[4] as int, bv[5] as int),
    )
}

/// The squared Euclidean distance between two points.
pub open spec fn distance2(a: Vec3, b: Vec3) -> int {
    (a.x - b.x) * (a.x - b.x) + (a.y - b.y) * (a.y - b.y) + (a.z - b.z) * (a.z - b.z)
}

/// Whether every coordinate of `p` is within `BV_MAX` of zero.
pub open spec fn within_bv_max(p: Vec3) -> bool {
    &&& -BV_MAX <= p.x <= BV_MAX
    &&& -BV_MAX <= p.y <= BV_MAX
    &&& -BV_MAX <= p.z <= BV_MAX
}

/// Finds the point of the cardinal box of `bv` nearest to `proj`.
pub fn cal_nearest_point_squared(bv: &Vec<i64>, proj: &Vec3) -> (nearest: Vec3)
    requires
        bv@.len() >= 6,
    ensures
        (nearest.x as int, nearest.y as int, nearest.z as int) == nearest_on_box(bv@, *proj),
        bounded(bv@) && within_bv_max(*proj) ==> within_bv_max(nearest),
{
    let vx = if bv[0] > proj.x {
        bv[0]
    } else {
        proj.x
    };
    let nx = if bv[1] < vx {
        bv[1]
    } else {
        vx
    };
    let vy = if bv[2] > proj.y {
        bv[2]
    } else {
        proj.y
    };
    let ny = if bv[3] < vy {
        bv[3]
    } else {
        vy
    };
    let vz = if bv[4] > proj.z {
        bv[4]
    } else {
        proj.z
    };
    let nz = if bv[5] < vz {
        bv[5]
    } else {
        vz
    };
    Vec3 { x: nx, y: ny, z: nz }
}

/// Computes the squared distance between two points.
pub fn distance_squared(a: &Vec3, b: &Vec3) -> (r: i64)
    requires
        within_bv_max(*a),
        within_bv_max(*b),
    ensures
        r == distance2(*a, *b),
        0 <= r,
{
    let dx = a.x - b.x;
    let dy = a.y - b.y;
    let dz = a.z - b.z;
    proof {
        assert(0 <= dx * dx <= 0x1000_0000_0000_0000) by (nonlinear_arith)
            requires
                -0x4000_0000 <= dx <= 0x4000_0000,
        ;
        assert(0 <= dy * dy <= 0x1000_0000_0000_0000) by (nonlinear_arith)
            requires
                -0x4000_0000 <= dy <= 0x4000_0000,
        ;
        assert(0 <= dz * dz <= 0x1000_0000_0000_0000) by (nonlinear_arith)
            requires
                -0x4000_0000 <= dz <= 0x4000_0000,
        ;
    }
    dx * dx + dy * dy + dz * dz
}

/// Tests whether every coordinate of `p` is within `COORD_MAX` of zero.
pub fn is_in_range(p: &Vec3) -> (r: bool)
    ensures
        r == in_range(*p),
{
    -COORD_MAX <= p.x && p.x <= COORD_MAX && -COORD_MAX <= p.y && p.y <= COORD_MAX && -COORD_MAX
        <= p.z && p.z <= COORD_MAX
}

/// Tests whether every point of `pts` is in range.
pub fn are_in_range(pts: &[Vec3]) -> (r: bool)
    ensures
        r == all_in_range(pts@),
{
    let mut i: usize = 0;
    while i < pts.len()
        invariant
            i <= pts@.len(),
            forall|k: int| 0 <= k < i ==> in_range(#[trigger] pts@[k]),
        decreases pts@.len() - i,
    {
        if !is_in_range(&pts[i]) {
            return false;
        }
        i = i + 1;
    }
    true
}

} // verus!
