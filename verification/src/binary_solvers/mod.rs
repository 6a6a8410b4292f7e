//! Strategies for binary problems.
pub mod dynamic;
pub mod generalized_greedy;
pub mod theoretical_greedy;

pub use dynamic::Dynamic;
pub use generalized_greedy::GeneralizedGreedy;
pub use theoretical_greedy::TheoreticalGreedy;
