//! A small stochastic path tracer over fixed-point arithmetic.
//!
//! Scenes are ordered collections of spheres with diffuse or reflective
//! materials.  Rays are generated by a pinhole camera, bounced through the
//! scene with a bounded recursion depth, averaged per pixel, gamma-corrected
//! and emitted as a plain-text pixel image.
//!
//! All scalar quantities are fixed-point numbers (a signed 64-bit raw value
//! holding the quantity scaled by 65536), so every arithmetic step has an
//! exact mathematical specification.

pub mod camera;
pub mod fixed;
pub mod image;
pub mod material;
pub mod render;
pub mod sampling;
pub mod scene;
pub mod tracer;
pub mod vec3;
