//! Structural metrics of a static, unweighted, undirected multigraph: degree
//! distribution, closeness, the shortest-path traversal that betweenness is
//! accumulated from, local clustering, and the node of highest relative degree.
//!
//! The graph itself is kept in a `petgraph` graph; everything computed on it is
//! stated over the list of its edges and proved against that list.

pub mod paths;
pub mod backing;
pub mod adjacency;
pub mod store;
pub mod betweenness;
pub mod ratio;
pub mod ranking;
pub mod closeness;
pub mod clustering;
pub mod degree;
pub mod density;
pub mod parsing;
