//! Querying typed directed graphs by subgraph pattern matching, and deriving
//! graph views by filtering and mapping weights.
//!
//! A pattern graph (see `pattern`) carries a condition on each node and edge;
//! `vf_algorithms::solve_vf` finds every subgraph of a base graph that is
//! isomorphic to the pattern and satisfies its conditions, and returns each
//! as a view (`filter_map::FilterMap`) of the pattern's visible elements,
//! weighted with the matched base-graph weights. Every graph implements the
//! contract of `graph::Graph`.

/// The abstract graph contract, and helpers over it.
pub mod graph;

/// An in-memory graph backend.
pub mod vec_graph;

/// Graph views derived by filtering elements and mapping weights.
pub mod filter_map;

/// Pattern elements and the pattern-graph builder.
pub mod pattern;

/// Declarations of the bimap collection used by the matcher.
mod bimap_spec;

/// What a match of a pattern in a base graph is.
pub mod matching;

/// Subgraph matching with a search of the VF2 family.
pub mod vf_algorithms;
