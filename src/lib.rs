//! A Monte Carlo path tracer over fixed-point arithmetic.
//!
//! Reals are represented as `i64` values scaled by [`fixed::ONE`]; vectors
//! saturate at [`fixed::LIMIT`], so every operation is total and its exact
//! result is stated in its contract.
pub mod camera;
pub mod color;
pub mod fixed;
pub mod material;
pub mod object;
pub mod ray;
pub mod render;
pub mod sampling;
pub mod scene;
pub mod vec3;
