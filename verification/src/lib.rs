//! Packing items of given value and weight into knapsacks of limited
//! capacity, in several dimensions at once: the items and knapsacks that
//! keep their own books, the exact solver by dynamic programming, and the
//! decisions of the greedy heuristics.
//!
//! Values, weights, capacities and quantities are whole numbers. Every
//! function states what it returns and changes, and is proved to do so.
pub use item::{
    BinaryItem, BinaryProblemItems, Item, ProblemItems, UnboundedItem, UnboundedProblemItems,
};
pub use knapsack::{BinaryKnapsack, BinaryProblemKnapsacks, Knapsack, ProblemKnapsacks};
pub use problem_type::{
    BinaryProblem, BinarySolver, BoundedProblem, BoundedSolver, UnboundedProblem, UnboundedSolver,
};
pub use unbounded_struct::unbounded;

pub mod binary_solvers;
pub mod bounded_solvers;
pub mod compatible_problem_type_trait;
pub mod drawing;
pub mod dynamic_table;
pub mod holdings;
pub mod index_map;
pub mod item;
pub mod knapsack;
pub mod memo_table;
pub mod packing;
pub mod problem_type;
pub mod selection;
pub mod sums;
pub mod unbound_struct;
pub mod unbounded_struct;
