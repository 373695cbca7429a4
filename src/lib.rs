//! An in-memory relationship graph loaded from a weighted edge list, with
//! verified structural queries: shortest path, proximity, k-hop reachability,
//! tiered ranking, neighbour listing and node summary.
//!
//! Relations are directed: a row `source,target,weight` adds one adjacency
//! entry to the source only, so paths, layers, degrees and weight sums follow
//! edge direction. A symmetric graph is loaded by listing both directions.
//!
//! Weights are fixed-point integers in thousandths of a unit and coordinates
//! are integers in hundredths of a unit, so that every query is exact.
pub mod graph;
pub mod record;
pub mod proximity;
pub mod search;
pub mod ranking;
pub mod laws;
