//! A wireframe rasterizer for a small software 3D pipeline.
//!
//! The crate holds the integer half of the pipeline: the packed pixel
//! format, the line walk between two screen points, and the drawing of
//! lines and mesh outlines into a row-major pixel buffer.

pub mod color;
pub mod driver;
pub mod geometry;
pub mod line;
pub mod raster;
