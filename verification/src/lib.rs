//! Geometry generation and spatial culling for a voxel renderer.
//!
//! The crate turns a cubic grid of blocks into packed quad vertices
//! ([`chunk::mesher`]), computes which outer sides of the grid see each other
//! through empty space ([`chunk::visibility`]), walks the loaded chunks for
//! the draw calls of a frame ([`chunk::traverse`]), and hands out regions of
//! a fixed linear buffer for the results ([`allocator`]).

pub mod allocator;
pub mod chunk;
