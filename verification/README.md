# renderer

A small software rasteriser with its behaviour proved in Verus.

- `src/viewport.rs`: the rectangle of pixels that drawing may touch.
- `src/target.rs`: the RGBA framebuffer, a target seen through a viewport,
  setting single pixels and clearing; the model of drawing as a sequence of
  pixel writes and what it leaves in every byte.
- `src/raster.rs`: Bresenham lines, with their shape (ends, length,
  connectivity) and the exact range of their `i32` arithmetic.
- `src/text.rs`: 8x8 bitmap text from font8x8's Basic Latin glyphs.
- `src/triangle.rs`: winding, bounding boxes and the fill of the pixels a
  triangle covers.
- `src/clip.rs`: a twelve-vertex polygon buffer and clipping against one plane
  (Sutherland-Hodgman), given which vertices lie inside and where the edges
  cross.
- `src/mesh.rs`: the vertex and face records of Wavefront OBJ text, with the
  syntax of `f32` literals that decides which vertex records are read.

`app/` is the windowed viewer around the library: vector and matrix maths,
camera, projection, the floating-point geometry of clipping and triangle
coverage, converting coordinate texts to `f32`, file reading, and the winit/pixels
event loop.
