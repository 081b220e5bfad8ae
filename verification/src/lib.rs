//! An approximate minimum edge cut of an undirected multigraph, computed by
//! randomized edge contraction (a single trial of Karger's algorithm).
//!
//! The [`graph::Graph`] type stores the multigraph as a dense symmetric
//! adjacency matrix with string node labels; [`estimator::Krager`] runs the
//! contraction loop on a clone of the graph and reports the labels of the two
//! surviving super-nodes.

#![verifier::loop_isolation(false)]

use vstd::prelude::*;

pub mod estimator;
pub mod graph;
pub mod sums;

verus! {

} // verus!
