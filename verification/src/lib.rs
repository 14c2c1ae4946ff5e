//! A parametric cube fractal: a rule matrix of non-negative integers is
//! recursively expanded to a deterministic sequence of positioned, scaled
//! leaf cubes, and the matrix itself round-trips through a compact text
//! form so that it can be edited as a single line of text.
//!
//! All geometry is kept exact: a leaf placement stores integer numerators
//! and a common denominator, so every scale and coordinate is a rational
//! number with no rounding anywhere in the library.

pub mod codec;
pub mod config;
pub mod errors;
pub mod expand;
pub mod matrix;
