//! Small integer vectors and matrices.
//!
//! Coordinates are exact lattice values held in `i64`; every operation that
//! could leave the machine range states the bound it needs.

use vstd::prelude::*;

verus! {

/// A vector with two integer components.
#[derive(Clone, Copy, Debug, PartialEq, Eq, Structural)]
pub struct Vec2 {
    pub x: i64,
    pub y: i64,
}

/// A vector with three integer components.
#[derive(Clone, Copy, Debug, PartialEq, Eq, Structural)]
pub struct Vec3 {
    pub x: i64,
    pub y: i64,
    pub z: i64,
}

/// A vector with four integer components.
#[derive(Clone, Copy, Debug, PartialEq, Eq, Structural)]
pub struct Vec4 {
    pub x: i64,
    pub y: i64,
    pub z: i64,
    pub w: i64,
}

/// A 4x4 integer matrix, stored as its four rows.
#[derive(Clone, Copy, Debug, PartialEq, Eq, Structural)]
pub struct Mat4 {
    pub r0: Vec4,
    pub r1: Vec4,
    pub r2: Vec4,
    pub r3: Vec4,
}

/// The dot product of two 4-vectors, over the mathematical integers.
pub open spec fn dot4(a: Vec4, b: Vec4) -> int {
    a.x * b.x + a.y * b.y + a.z * b.z + a.w * b.w
}

/// The largest magnitude for which products of two components, summed four
/// times, stay inside `i64`.
pub const PRODUCT_SAFE: i64 = 0x4000_0000;

/// Whether `v` lies within `PRODUCT_SAFE` of zero.
pub open spec fn small(v: i64) -> bool {
    -PRODUCT_SAFE <= v <= PRODUCT_SAFE
}

impl Vec2 {
    /// Whether every component is within `PRODUCT_SAFE` of zero.
    pub open spec fn is_small(self) -> bool {
        small(self.x) && small(self.y)
    }

    /// Makes a vector of the components given.
    pub fn new(x: i64, y: i64) -> (v: Vec2)
        ensures
            v.x == x,
            v.y == y,
    {
        Vec2 { x, y }
    }
}

impl Vec3 {
    /// Whether every component is within `PRODUCT_SAFE` of zero.
    pub open spec fn is_small(self) -> bool {
        small(self.x) && small(self.y) && small(self.z)
    }

    /// Makes a vector of the components given.
    pub fn new(x: i64, y: i64, z: i64) -> (v: Vec3)
        ensures
            v.x == x,
            v.y == y,
            v.z == z,
    {
        Vec3 { x, y, z }
    }
}

impl Vec4 {
    /// Whether every component is within `PRODUCT_SAFE` of zero.
    pub open spec fn is_small(self) -> bool {
        small(self.x) && small(self.y) && small(self.z) && small(self.w)
    }

    /// Makes a vector of the components given.
    pub fn new(x: i64, y: i64, z: i64, w: i64) -> (v: Vec4)
        ensures
            v.x == x,
            v.y == y,
            v.z == z,
            v.w == w,
    {
        Vec4 { x, y, z, w }
    }
}

impl Mat4 {
    /// Whether every component is within `PRODUCT_SAFE` of zero.
    pub open spec fn is_small(self) -> bool {
        self.r0.is_small() && self.r1.is_small() && self.r2.is_small() && self.r3.is_small()
    }

    /// The matrix with ones on the diagonal and zeros elsewhere.
    pub open spec fn spec_identity() -> Mat4 {
        Mat4 {
            r0: Vec4 { x: 1, y: 0, z: 0, w: 0 },
            r1: Vec4 { x: 0, y: 1, z: 0, w: 0 },
            r2: Vec4 { x: 0, y: 0, z: 1, w: 0 },
            r3: Vec4 { x: 0, y: 0, z: 0, w: 1 },
        }
    }

    /// Returns the identity matrix.
    pub fn identity() -> (m: Mat4)
        ensures
            m == Mat4::spec_identity(),
    {
        Mat4 {
            r0: Vec4 { x: 1, y: 0, z: 0, w: 0 },
            r1: Vec4 { x: 0, y: 1, z: 0, w: 0 },
            r2: Vec4 { x: 0, y: 0, z: 1, w: 0 },
            r3: Vec4 { x: 0, y: 0, z: 0, w: 1 },
        }
    }
}

/// Products of two small scalars stay within `PRODUCT_SAFE` squared.
pub proof fn lemma_small_product(a: i64, b: i64)
    requires
        small(a),
        small(b),
    ensures
        -0x1000_0000_0000_0000 <= a * b <= 0x1000_0000_0000_0000,
{
    assert(-0x1000_0000_0000_0000 <= a * b <= 0x1000_0000_0000_0000) by (nonlinear_arith)
        requires
            -0x4000_0000 <= a <= 0x4000_0000,
            -0x4000_0000 <= b <= 0x4000_0000,
    ;
}

/// The dot product of two small 4-vectors, which always fits the scalar.
pub fn dot4_small(a: &Vec4, b: &Vec4) -> (r: i64)
    requires
        a.is_small(),
        b.is_small(),
    ensures
        r == dot4(*a, *b),
{
    proof {
        lemma_small_product(a.x, b.x);
        lemma_small_product(a.y, b.y);
        lemma_small_product(a.z, b.z);
        lemma_small_product(a.w, b.w);
    }
    a.x * b.x + a.y * b.y + a.z * b.z + a.w * b.w
}

} // verus!
