//! Runs of operations.

use crate::list::Order;
use crate::splitable_span::{MergableSpan, SplitableSpan};
use vstd::prelude::*;

verus! {

/// Consecutive operations of a document.
#[derive(Copy, Clone, Debug, PartialEq, Eq, Structural)]
pub struct OrderSpan {
    pub order: Order,
    pub len: u32,
}

impl MergableSpan for OrderSpan {
    open spec fn span_len(&self) -> nat {
        self.len as nat
    }

    open spec fn span_ok(&self) -> bool {
        self.order + self.len <= u32::MAX
    }

    open spec fn max_span_len() -> nat {
        u32::MAX as nat
    }

    open spec fn appends(&self, other: &Self) -> bool {
        other.order == self.order + self.len
    }

    open spec fn joined(&self, other: &Self) -> Self {
        OrderSpan { order: self.order, len: (self.len + other.len) as u32 }
    }

    proof fn lemma_len_bound(&self) {
    }

    proof fn lemma_join(&self, other: &Self) {
    }

    open spec fn append_ok(&self, other: &Self) -> bool {
        self.appends(other) && self.span_len() + other.span_len() <= Self::max_span_len()
    }

    open spec fn prepend_ok(&self, other: &Self) -> bool {
        other.appends(self) && self.span_len() + other.span_len() <= Self::max_span_len()
    }

    open spec fn prepended(&self, other: &Self) -> Self {
        other.joined(self)
    }

    proof fn lemma_append_ok(&self, other: &Self) {
    }

    fn max_len() -> usize {
        u32::MAX as usize
    }

    fn len(&self) -> usize {
        self.len as usize
    }

    fn can_append(&self, other: &Self) -> bool {
        other.order == self.order + self.len
    }

    fn append(&mut self, other: Self) {
        self.len = self.len + other.len;
    }

    fn prepend(&mut self, other: Self) {
        self.order = other.order;
        self.len = self.len + other.len;
    }
}

impl SplitableSpan for OrderSpan {
    open spec fn left_of(&self, at: int) -> Self {
        OrderSpan { order: self.order, len: at as u32 }
    }

    open spec fn right_of(&self, at: int) -> Self {
        OrderSpan { order: (self.order + at) as u32, len: (self.len - at) as u32 }
    }

    open spec fn can_cut(&self, at: int) -> bool {
        0 <= at <= self.len
    }

    proof fn lemma_can_cut(&self, at: int) {
    }

    proof fn lemma_split(&self, at: int) {
    }

    proof fn lemma_join_split(&self, other: &Self) {
    }

    fn truncate(&mut self, at: usize) -> (rest: Self) {
        let at = at as u32;
        let rest = OrderSpan { order: self.order + at, len: self.len - at };
        self.len = at;
        rest
    }
}

} // verus!
