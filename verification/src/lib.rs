use vstd::prelude::*;

pub mod bands;
pub mod escape;
pub mod fixed;
pub mod geometry;
pub mod parse;
pub mod render;

verus! {

/// Number of fixed-point units per 1.0: a coordinate of the complex plane is
/// held as an `i64` count of units of 1/SCALE (SCALE = 2^24).
pub const SCALE: i64 = 16777216;

} // verus!
