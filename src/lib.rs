//! The core of a Monte Carlo path tracer, in exact integer arithmetic.
//!
//! Coordinates are integers in a fixed unit and ray parameters are
//! rationals, so intersection tests, the bounding-volume hierarchy and its
//! nearest-hit traversal decide without rounding. Materials work on
//! directions scaled to length 1000 and colors in thousandths; random draws
//! are passed in, so every function is deterministic in its arguments.
//!
//! - `aabb`: axis-aligned boxes, their enclosure and the slab test
//! - `sphere`, `shape`, `hittable`: primitives and hit records
//! - `bvh`: construction and traversal of the hierarchy
//! - `material`, `scatter`: surface models and how they scatter rays
//! - `integrator`, `render`: path colors, path tracing and pixels
use vstd::prelude::*;

pub mod aabb;
pub mod bvh;
pub mod frac;
pub mod hittable;
pub mod integrator;
pub mod isqrt;
pub mod material;
pub mod ray;
pub mod render;
pub mod scatter;
pub mod shape;
pub mod sphere;
pub mod vec3;

verus! {

} // verus!
