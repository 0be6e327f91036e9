# soft_raster

A software rasteriser whose integer core is verified with Verus.

- `src/engine/input.rs`: per-frame keyboard and mouse-button state (held, pressed
  this frame, released this frame) over integer key codes.
- `src/engine/mesh.rs`: meshes generic over their vertex type, face assembly from
  index lists, and a registry that hands out mesh ids in order.
- `src/render/graphics.rs`: a row-major `u32` frame buffer: colours, single pixels,
  rectangles, block copies, Bresenham lines, scan-line triangle fills.
- `src/render/line.rs`: Bresenham's algorithm as a state machine, its reachable-state
  invariant and the shape of the lines it draws; the `LineIter` iterator.
- `src/render/raster.rs`: the pixel regions that triangle fills paint.
- `src/render/pipeline.rs`: Sutherland–Hodgman clipping of a polygon against one
  edge, given the side tests and crossing points, and fan triangulation.
- `app/`: the window program (winit, softbuffer, glam, tobj, chrono): camera and
  transforms in `f32`, frame timing, OBJ loading, and the copy of the frame buffer to
  the window.
