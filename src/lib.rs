//! Small exercises around a 0/1 knapsack solver: an exhaustive search over
//! combinations (sequential and data-parallel), a value/weight ratio heuristic,
//! and a few stand-alone helpers.

pub mod basics;
pub mod fibonacci;
pub mod knapsack;
pub mod model;
pub mod theorems;

pub use fibonacci::{fibonacci_iterative, fibonacci_recursive};
