//! Verified core of a small ray tracer: the integer and structural logic
//! (texel addressing, recursion limits, closest-hit selection, mesh index
//! assembly, octree construction, scene resource planning and the split of
//! the framebuffer between render workers).
//! Floating-point geometry and shading are supplied by the caller.

pub mod hits;
pub mod mesh;
pub mod octree;
pub mod render;
pub mod scene;
pub mod texture;
pub mod trace;
