//! Verified parts of a recursive ray tracer.
//!
//! Ray tracing is arithmetic on floating-point numbers, and that arithmetic
//! is the caller's. This crate holds what can be stated exactly around it:
//!
//! - how binary64 numbers are ordered, on their encodings ([`scalar`]);
//! - boxes, and the index that finds the primitives a ray may meet
//!   ([`geometry`], [`raytracer::octree`]);
//! - which of the hits along a ray is the nearest ([`raytracer::ray`]);
//! - how many rays leave a hit, which bounds the recursion
//!   ([`raytracer::renderer`]);
//! - the pixel buffer and its PPM text ([`raytracer::compositor`],
//!   [`util::export`]);
//! - meshes from OBJ text and pixel buffers from PNG files
//!   ([`util::import`]).
//!
//! Where the library needs a number computed, it takes a function: where to
//! cut a box, whether a ray hits a box, where a ray meets a primitive.

pub mod geometry;
pub mod light;
pub mod raytracer;
pub mod scalar;
pub mod scene;
pub mod util;
pub mod vec3;
