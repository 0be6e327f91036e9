//! A small software rasteriser: keyboard and mouse state tracking, a mesh
//! registry, an integer frame buffer with Bresenham lines and scan-line
//! triangle filling, and the combinatorial parts of the clipping pipeline.
pub mod engine;
pub mod render;
