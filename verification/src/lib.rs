//! Find solutions with backtracking.
//!
//! A [`Problem`] describes a search tree: every history of decisions is a node, and the
//! decisions offered after a history are its children. [`Solutions`] walks that tree depth
//! first and hands out what [`Problem::is_solution`] reports along the way.

pub mod problem;
pub mod search;
pub mod problems;
pub mod solutions;

pub use problem::Problem;
pub use solutions::Solutions;
