//! Transactions as peers exchange them.

use vstd::prelude::*;

verus! {

/// The n-th operation of a peer, by the peer's name.
#[derive(Clone, Debug, PartialEq, Eq)]
pub struct RemoteId {
    pub agent: String,
    pub seq: u32,
}

/// One step of a transaction.
#[derive(Clone, Debug, PartialEq, Eq)]
pub enum RemoteOp {
    /// Inserts items between two others.
    Ins { origin_left: RemoteId, origin_right: RemoteId, ins_content: String },
    /// Deletes items that one peer inserted one after the other.
    Del { id: RemoteId, len: u32 },
}

/// Operations of one peer that belong together.
#[derive(Clone, Debug, PartialEq, Eq)]
pub struct RemoteTxn {
    /// The first operation.
    pub id: RemoteId,
    /// What the transaction is on top of.
    pub parents: Vec<RemoteId>,
    pub ops: Vec<RemoteOp>,
}

} // verus!
