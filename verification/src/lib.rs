//! Turns a scanned directory tree into a single nested-tag document: a
//! rendered tree structure followed by the escaped contents of every
//! included text file.

pub mod classify;
pub mod escape;
pub mod order;
pub mod paths;
pub mod render;
pub mod tree;
