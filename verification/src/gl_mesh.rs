//! Vertices as they are handed to the rasterizer.

use crate::vector::{Vec2, Vec3};
use vstd::prelude::*;

verus! {

/// A vertex with its position, texture coordinate and normal.
#[derive(Debug, Clone, Copy, PartialEq, Eq, Structural)]
pub struct GLVert {
    /// Vertex position.
    pub pos: Vec3,
    /// Vertex UV.
    pub uv: Vec2,
    /// Vertex normal.
    pub normal: Vec3,
}

impl GLVert {
    /// Creates a vertex.
    pub fn new(pos: Vec3, uv: Vec2, normal: Vec3) -> (r: Self)
        ensures
            r.pos == pos,
            r.uv == uv,
            r.normal == normal,
    {
        Self { pos, uv, normal }
    }
}

} // verus!
