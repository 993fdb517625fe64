//! Data-model core of a JSON pager: it flattens a recursively nested JSON
//! value into a single flat, randomly addressable sequence of rows that
//! supports constant-time structural navigation (parent, siblings, matching
//! open/close bracket) without re-walking the original tree.

pub mod flatten;
pub mod laws;
pub mod parse;
pub mod rows;
pub mod tree;
