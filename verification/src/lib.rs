//! A tiny software rasterizer.
//!
//! The library draws single-pixel-wide lines and depth-tested, flat-colored
//! triangles into a [`render::Framebuffer`] that owns a color plane and an
//! 8-bit depth plane, and it parses a line-oriented mesh text format into
//! vertex positions and triangular faces.

pub mod obj;
pub mod render;
