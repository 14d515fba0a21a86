//! An incrementally maintained summary of a triple graph: nodes with the same
//! predicate set on one side share a clique, and structurally identical nodes
//! are compressed into supernodes recorded in a node hierarchy.

pub mod clique;
pub mod collection;
pub mod meta;
pub mod change;
pub mod laws;
pub mod config;
pub mod triple;
