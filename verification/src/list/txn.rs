//! Transactions: runs of operations that came in together.

use crate::list::Order;
use crate::list::branch::Branch;
use crate::rle::{RleKey, RleKeyed};
use crate::rle::simple_rle::RleSpan;
use crate::splitable_span::MergableSpan;
use vstd::prelude::*;

verus! {

/// A run of transactions, each on top of the one before it.
#[derive(Debug, PartialEq, Eq)]
pub struct TxnSpan {
    /// The first operation.
    pub order: Order,
    pub len: u32,
    /// All operations from this one up to the first of the transaction came before it.
    pub shadow: Order,
    /// What the first transaction is on top of.
    pub parents: Branch,
}

impl RleKeyed for TxnSpan {
    open spec fn rle_key(&self) -> u32 {
        self.order
    }

    fn get_rle_key(&self) -> (key: RleKey) {
        self.order
    }
}

impl RleSpan for TxnSpan {
    proof fn lemma_joined_key(&self, other: &Self) {
    }
}

impl MergableSpan for TxnSpan {
    open spec fn span_len(&self) -> nat {
        self.len as nat
    }

    open spec fn span_ok(&self) -> bool {
        self.order + self.len <= u32::MAX
    }

    open spec fn max_span_len() -> nat {
        u32::MAX as nat
    }

    open spec fn appends(&self, other: &Self) -> bool {
        &&& other.order == self.order + self.len
        &&& other.parents@.len() == 1
        &&& other.parents@[0] == self.order + self.len - 1
        &&& other.shadow == self.shadow
    }

    open spec fn joined(&self, other: &Self) -> Self {
        TxnSpan { len: (self.len + other.len) as u32, ..*self }
    }

    proof fn lemma_len_bound(&self) {
    }

    proof fn lemma_join(&self, other: &Self) {
    }

    open spec fn append_ok(&self, other: &Self) -> bool {
        self.appends(other) && self.span_len() + other.span_len() <= Self::max_span_len()
    }

    open spec fn prepend_ok(&self, other: &Self) -> bool {
        other.appends(self) && self.span_len() + other.span_len() <= Self::max_span_len()
    }

    open spec fn prepended(&self, other: &Self) -> Self {
        other.joined(self)
    }

    proof fn lemma_append_ok(&self, other: &Self) {
    }

    fn max_len() -> usize {
        u32::MAX as usize
    }

    fn len(&self) -> usize {
        self.len as usize
    }

    fn can_append(&self, other: &Self) -> bool {
        let end = self.order + self.len;
        other.order == end && other.parents.len() == 1 && end > 0 && other.parents.get(0) == end
            - 1 && other.shadow == self.shadow
    }

    fn append(&mut self, other: Self) {
        self.len = self.len + other.len;
    }

    fn prepend(&mut self, other: Self) {
        let len = self.len + other.len;
        *self = other;
        self.len = len;
    }
}

} // verus!
