//! A balanced tree of spans that is searched by position.

pub mod check;
pub mod cursor;
pub mod deactivate;
pub mod delete_result;
pub mod entry;
pub mod flush;
pub mod growth;
pub mod homes;
pub mod index;
pub mod leaf_split;
pub mod mutations;
pub mod node;
pub mod outline;
pub mod query;
pub mod root;
pub mod runs;
pub mod stats;
pub mod tree;
