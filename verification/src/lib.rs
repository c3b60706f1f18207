//! A verified engine for building weighted undirected player/team graphs
//! and scoring node influence by exact betweenness and closeness centrality.
//!
//! Statistics are carried as fixed-point integers and centrality scores as
//! exact rationals, so every result is pinned by a mathematical contract.

pub mod centrality;
pub mod correlate;
pub mod graph;
pub mod ingest;
pub mod laws;
pub mod paths;
pub mod records;

pub use graph::Graph;
