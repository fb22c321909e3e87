//! The verified core of a small path tracer.
//!
//! Numbers are single-precision and held by their bit patterns (`scalar`),
//! alone or three at a time (`vec3`, `ray`). A scene is a list of surfaces
//! and reports the closest crossing of a ray (`hit`); for a sphere the
//! library decides which of the two crossings counts (`sphere`). A frame is
//! rendered cell by cell (`render`) into a raster of quantized colors, which
//! has a plain-text encoding (`image`).

pub mod hit;
pub mod image;
pub mod ray;
pub mod render;
pub mod scalar;
pub mod sphere;
pub mod vec3;
