//! A small-graph toolkit: undirected graphs on a bounded number of labeled
//! vertices, with degree statistics, induced-subgraph extraction that keeps a
//! stable mapping back to the original vertex labels, and edge enumeration.

pub mod sorted;
pub mod graph;
pub mod counting;
pub mod laws;
