//! Graphs stored as adjacency sets, with shortest-path search and
//! topological sorting.
mod frontier;
pub mod graph;
pub mod model;
pub mod order;
pub mod paths;
pub mod queue;
pub mod search;
pub mod sort;
mod tally;

pub use crate::graph::{DiGraph, Directed, Graph, GraphType, Undirected};
pub use crate::search::{Dijkstra, SearchAlgorithm, BFS};
pub use crate::sort::{topological_generations, topological_sort, CycleError};
