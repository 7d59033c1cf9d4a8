//! A disjoint-set (union-find) structure over dense integer ids, with path
//! splitting and union by rank, verified against a mathematical model of the
//! forest that it stores.

pub mod forest;

pub mod disjoint_set;

pub mod laws;

pub use disjoint_set::UnionFind;
