//! A small software rasteriser: a viewport onto an RGBA byte framebuffer,
//! Bresenham lines, bitmap text, triangle fills, polygon clipping against
//! one plane at a time, and a reader for the vertex and face records of
//! Wavefront OBJ text.
use vstd::prelude::*;

pub mod clip;
pub mod mesh;
pub mod raster;
pub mod target;
pub mod text;
pub mod triangle;
pub mod viewport;

pub use clip::{clip_triangle_plane, ClipVertex, VertexBuffer};
pub use mesh::{Mesh, MeshError, Vertex};
pub use raster::SoftwareRenderer;
pub use target::{Framebuffer, RenderTarget};
pub use triangle::CullMode;
pub use viewport::Viewport;

verus! {

} // verus!
