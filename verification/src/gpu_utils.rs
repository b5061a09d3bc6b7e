//! Vertex lists of the shapes that are drawn most often.

use crate::vector::{Vec2, Vec3};
use vstd::prelude::*;

verus! {

/// The two triangles that cover the screen, in normalized device
/// coordinates: each vertex with its texture coordinate.
pub open spec fn screen_plane() -> Seq<(Vec3, Vec2)> {
    seq![
        (Vec3 { x: 1, y: 1, z: 0 }, Vec2 { x: 1, y: 1 }),
        (Vec3 { x: -1i64, y: -1i64, z: 0 }, Vec2 { x: 0, y: 0 }),
        (Vec3 { x: -1i64, y: 1, z: 0 }, Vec2 { x: 0, y: 1 }),
        (Vec3 { x: -1i64, y: -1i64, z: 0 }, Vec2 { x: 0, y: 0 }),
        (Vec3 { x: 1, y: 1, z: 0 }, Vec2 { x: 1, y: 1 }),
        (Vec3 { x: 1, y: -1i64, z: 0 }, Vec2 { x: 1, y: 0 }),
    ]
}

/// Builds the vertex list of the screen plane.
fn screen_plane_vert_list() -> (r: Vec<(Vec3, Vec2)>)
    ensures
        r@ == screen_plane(),
{
    let mut r: Vec<(Vec3, Vec2)> = Vec::new();
    r.push((Vec3 { x: 1, y: 1, z: 0 }, Vec2 { x: 1, y: 1 }));
    r.push((Vec3 { x: -1, y: -1, z: 0 }, Vec2 { x: 0, y: 0 }));
    r.push((Vec3 { x: -1, y: 1, z: 0 }, Vec2 { x: 0, y: 1 }));
    r.push((Vec3 { x: -1, y: -1, z: 0 }, Vec2 { x: 0, y: 0 }));
    r.push((Vec3 { x: 1, y: 1, z: 0 }, Vec2 { x: 1, y: 1 }));
    r.push((Vec3 { x: 1, y: -1, z: 0 }, Vec2 { x: 1, y: 0 }));
    proof {
        assert(r@ =~= screen_plane());
    }
    r
}

/// The screen plane for a consumer that draws in single precision.
pub fn get_screen_plane_vert_list_f32() -> (r: Vec<(Vec3, Vec2)>)
    ensures
        r@ == screen_plane(),
{
    screen_plane_vert_list()
}

/// The screen plane for a consumer that draws in double precision.
pub fn get_screen_plane_vert_list_f64() -> (r: Vec<(Vec3, Vec2)>)
    ensures
        r@ == screen_plane(),
{
    screen_plane_vert_list()
}

} // verus!
