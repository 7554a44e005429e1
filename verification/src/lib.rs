//! A generic depth-first backtracking search engine with two puzzle
//! models built on it: an N-Queens placement solver and a rectangular
//! trunk-packing solver.
//!
//! The engine ([`solve`]) works purely in terms of the [`Config`]
//! contract: successor generation, a validity test used to prune, and a
//! goal test. Both puzzle models implement that contract, and the
//! engine's specification proves the search sound and complete for any
//! implementation: a returned configuration is a goal grown from the
//! start state, and an empty result means the pruned tree holds none.

mod backtracker;

pub use backtracker::Config;
pub use backtracker::solve;

pub mod queen;
pub mod trunks;
