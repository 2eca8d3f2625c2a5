//! A ray tracer's scene index and model loading, verified with Verus.
//!
//! Coordinates are single-precision IEEE-754 numbers held by their bit
//! patterns (`Scalar`); the library orders and selects them exactly as the
//! hardware comparisons do, and leaves arithmetic on them to its caller.
pub mod scalar;
pub mod geometry;
pub mod scene;
pub mod models;
pub mod tone;
pub mod hits;
