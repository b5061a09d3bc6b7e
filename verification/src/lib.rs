pub mod bvh;
pub mod gl_mesh;
pub mod gpu_utils;
pub mod mesh;
pub mod meshio;
pub mod util;
pub mod vector;
