//! Directed graphs held as compact adjacency stores, and level-synchronous
//! breadth-first search over them.
//!
//! A graph is built from an edge list, given as pairs of vertex identifiers
//! or as text with one `src dst` pair on each line. Every executable function
//! is verified against the contract written on it; what is taken on trust is
//! the bit vector of `visited`, the sort of `frontier` and the digits of
//! `display`.
//!
//! - `traits`: vertex identifiers, and the queries every graph answers
//! - `edges`: edge lists, and the rows that a store derives from one
//! - `adjacency`: the store, one flat buffer with a row for each vertex
//! - `graph`: the graph, a forward store and a backward store
//! - `parse`: the edge-list text format
//! - `paths`: walks, reachability and distance
//! - `bfs`: the search, and what its result is
//! - `laws`: what holds of every graph and of every search
//! - `display`: the one-line summary of a graph
//! - `error`: the ways in which a graph or a query is refused

pub mod adjacency;
pub mod bfs;
pub mod display;
pub mod edges;
pub mod error;
pub mod frontier;
pub mod graph;
pub mod laws;
pub mod parse;
pub mod paths;
pub mod traits;
pub mod visited;

pub use crate::error::GraphError;
pub use crate::graph::SimpleGraph;
