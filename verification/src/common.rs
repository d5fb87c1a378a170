//! Identifiers and edits shared by the whole crate.

use vstd::prelude::*;

verus! {

/// The index of a peer in a document's list of peers.
pub type AgentId = u16;

/// The identifier that stands for no peer: the root of every document.
pub const ROOT_AGENT: AgentId = 0xffff;

/// The n-th operation of a peer.
#[derive(Clone, Copy, Debug, PartialEq, Eq, Structural)]
pub struct CRDTLocation {
    pub agent: AgentId,
    pub seq: u32,
}

/// An edit of the local document: delete `del_span` visible items at `pos`, then
/// insert `ins_content` there.
#[derive(Clone, Debug, PartialEq, Eq)]
pub struct LocalOp {
    pub pos: usize,
    pub ins_content: String,
    pub del_span: usize,
}

} // verus!
