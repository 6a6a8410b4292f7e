//! Strategies for bounded problems.
pub mod dynamic;
pub mod theoretical_greedy;

pub use dynamic::Dynamic;
pub use theoretical_greedy::TheoreticalGreedy;
