//! A minimal directed-graph library: a live vertex set plus an
//! adjacency-list store, with verified insertion, deletion, edge
//! counting and adjacency lookup.

pub mod graph;
