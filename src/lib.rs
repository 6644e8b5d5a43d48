//! Linear interpolation between integer scalars and 2D points, with an
//! exact fractional progress and round-half-away-from-zero results.
pub mod math;
