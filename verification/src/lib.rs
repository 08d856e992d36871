//! TOPSIS: Technique for Order Preference by Similarity to Ideal Solution.
//!
//! Ranks a set of alternatives, each scored on several weighted criteria,
//! from closest-to-ideal to farthest-from-ideal. All arithmetic is carried
//! out on fixed-point numbers: a real value `v` is represented by the
//! integer `v * SCALE`, so that every step of the pipeline is exact integer
//! arithmetic and can be verified.

pub mod arith;
pub mod model;
pub mod ranking;
pub mod laws;

pub use ranking::{calculate, Alternative, TopsisError};

pub use arith::{SCALE, VALUE_LIMIT, WEIGHT_LIMIT, DIM_LIMIT};
