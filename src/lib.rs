//! Search for large complete bipartite subgraphs in dense undirected graphs.
//!
//! The search walks the k-element subsets of a pool of high-degree vertices in
//! minimal-change order and keeps, for every vertex, the number of chosen pool
//! vertices it is adjacent to, so that each step costs only the degrees of the
//! two vertices that were swapped.
/// Binomial coefficients and the minimal-change walk over k-subsets.
pub mod combinatorics;
/// Undirected graphs with named vertices.
pub mod graphs;
/// The search for a complete bipartite subgraph.
pub mod bipartite;
/// The bookkeeping of a breadth-first crawl that builds a graph of pages.
pub mod crawler;
