//! Selector-based element lookup over a document tree: `matches`, `closest`
//! and the query strategies (identifier lookup, linear scan, pruned walk).

pub mod tree;
pub mod selector;
pub mod accumulator;
pub mod query;
pub mod processor;
pub mod api;
pub mod laws;

