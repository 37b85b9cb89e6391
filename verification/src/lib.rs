//! Procedural and PPM textures for a small ray tracer: colors, surface noise,
//! texture generation and sampling, and a binary PPM reader.

pub mod color;
pub mod noise;
pub mod ppm;
pub mod texture;
