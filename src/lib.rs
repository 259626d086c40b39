//! Decomposition of an undirected graph into edge-disjoint cycles whose
//! lengths are scheduled from the graph's edge count.
pub mod decompose;
pub mod graph;
pub mod queue;
pub mod schedule;
pub mod search;
