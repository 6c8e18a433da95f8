//! Structural importance metrics over an immutable undirected graph:
//! degree centrality, sampled closeness centrality approximated by
//! breadth-first search, local clustering coefficients, linear score
//! normalization, and top-N ranking of the resulting metric maps.
//!
//! Scores are exact non-negative rationals, so every metric value and
//! every comparison the ranking makes is free of rounding and of
//! non-comparable values.

pub mod closeness;
pub mod clustering;
pub mod degree;
pub mod graph;
pub mod maps;
pub mod normalize;
pub mod ranking;
pub mod score;
