//! The list document and its history.

pub mod branch;
pub mod content;
pub mod converge;
pub mod delete;
pub mod deleted_runs;
pub mod deletions;
pub mod doc;
pub mod double_delete;
pub mod external_txn;
pub mod filters;
pub mod grouped;
pub mod history;
pub mod keeps;
pub mod laws;
pub mod marked;
pub mod markers;
pub mod merged;
pub mod model;
pub mod names;
pub mod noted;
pub mod order_span;
pub mod origins;
pub mod remote_delete;
pub mod replay;
pub mod seen;
pub mod span;
pub mod text;
pub mod txn;
pub mod valid;

use vstd::prelude::*;

verus! {

/// The number of an operation in a document: operations are counted in the order in
/// which the document learned of them.
pub type Order = u32;

/// The order that stands for no operation: the root of every document.
pub const ROOT_ORDER: Order = 0xffff_ffff;

} // verus!
