//! Binary floating-point numbers held as bit patterns.
pub mod arith;
pub mod laws;
pub mod meaning;
pub mod model;
pub mod number;
pub mod rounding;
pub mod unpacked;

pub use number::{Double, Single};
