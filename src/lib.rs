//! Single-source shortest paths over weighted directed graphs.
//!
//! Nodes are the indices `0..n` of an adjacency list, edge weights are
//! non-negative integers, and the engine is Dijkstra's algorithm with a
//! lazy-deletion priority queue.
pub mod dijkstra;
pub mod graph;
pub mod queue;
