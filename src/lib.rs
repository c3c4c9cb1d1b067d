//! An in-memory analytics library for undirected graphs over string-labelled
//! vertices: shortest paths by breadth-first search, degree statistics, a
//! densest-neighbourhood heuristic and clustering coefficients, all computed
//! exactly in integers.

pub mod analysis;
pub mod graph;
pub mod search;

pub use analysis::{
    average_degree, clustering_coefficient, clustering_coefficients, degree_distribution,
    densest_subgraph, global_clustering_coefficient, Ratio,
};
pub use graph::Graph;
pub use search::connectivity_search;
