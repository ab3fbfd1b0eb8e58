//! Maximum-clique search on undirected simple graphs: an exact
//! Bron–Kerbosch search with pivoting and an evolutionary heuristic, both
//! working over fixed-width vertex bitsets.
pub mod bitset;
pub mod ga;
pub mod graph;
pub mod graph_reader;
pub mod max_clique;
mod random;
pub mod solve;
