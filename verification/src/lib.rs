//! A list document that several peers edit at once, kept as runs of items in a
//! balanced tree, together with the run-length encoded history of its operations.

pub mod common;
pub mod list;
pub mod range_tree;
pub mod rle;
pub mod split_list;
pub mod splitable_span;
