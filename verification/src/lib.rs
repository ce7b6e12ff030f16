//! Shortest-path statistics of a directed graph.
//!
//! A [`Graph`] is built edge by edge. A breadth-first traversal from a
//! source node gives the hop distance to every node it reaches, and the
//! reducers in [`stats`] turn such a distance map into its largest and
//! smallest distance, its median, its total and its distribution. What
//! each of these is, is said over mathematical maps in [`paths`] and
//! [`summary`], and every function here is proved to compute it.

pub mod error;
pub mod graph;
pub mod paths;
pub mod record;
pub mod sorting;
pub mod stats;
pub mod summary;
pub mod traversal;

pub use crate::error::GraphError;
pub use crate::graph::Graph;
pub use crate::stats::Average;
