//! Runs of items that are in the same leaf.

use crate::range_tree::entry::EntryTraits;
use crate::range_tree::node::LeafPtr;
use crate::splitable_span::{MergableSpan, SplitableSpan};
use vstd::prelude::*;

verus! {

/// A run of `len` items that the leaf `ptr` holds. Where the items are is implied by the
/// place of the marker in its list.
#[derive(Copy, Clone, Debug, PartialEq, Eq)]
pub struct MarkerEntry {
    pub len: u32,
    pub ptr: Option<LeafPtr>,
}

impl MarkerEntry {
    /// The leaf that holds the items.
    pub fn unwrap_ptr(&self) -> (ptr: LeafPtr)
        requires
            self.ptr is Some,
        ensures
            Some(ptr) == self.ptr,
    {
        self.ptr.unwrap()
    }

    fn same_ptr(&self, other: &Self) -> (same: bool)
        ensures
            same == (self.ptr == other.ptr),
    {
        match (self.ptr, other.ptr) {
            (Some(a), Some(b)) => a == b,
            (None, None) => true,
            _ => false,
        }
    }
}

impl Default for MarkerEntry {
    fn default() -> (marker: Self)
        ensures
            marker.len == 0,
            marker.ptr is None,
    {
        MarkerEntry { ptr: None, len: 0 }
    }
}

impl MergableSpan for MarkerEntry {
    open spec fn span_len(&self) -> nat {
        self.len as nat
    }

    open spec fn span_ok(&self) -> bool {
        true
    }

    open spec fn max_span_len() -> nat {
        u32::MAX as nat
    }

    open spec fn appends(&self, other: &Self) -> bool {
        self.ptr == other.ptr
    }

    open spec fn joined(&self, other: &Self) -> Self {
        MarkerEntry { len: (self.len + other.len) as u32, ptr: self.ptr }
    }

    proof fn lemma_len_bound(&self) {
    }

    proof fn lemma_join(&self, other: &Self) {
    }

    open spec fn append_ok(&self, other: &Self) -> bool {
        self.len + other.len <= u32::MAX
    }

    open spec fn prepend_ok(&self, other: &Self) -> bool {
        self.len + other.len <= u32::MAX
    }

    open spec fn prepended(&self, other: &Self) -> Self {
        MarkerEntry { len: (self.len + other.len) as u32, ptr: self.ptr }
    }

    proof fn lemma_append_ok(&self, other: &Self) {
    }

    fn max_len() -> usize {
        u32::MAX as usize
    }

    fn len(&self) -> usize {
        self.len as usize
    }

    fn can_append(&self, other: &Self) -> bool {
        self.same_ptr(other)
    }

    fn append(&mut self, other: Self) {
        self.len = self.len + other.len;
    }

    fn prepend(&mut self, other: Self) {
        self.len = self.len + other.len;
    }
}

impl SplitableSpan for MarkerEntry {
    open spec fn left_of(&self, at: int) -> Self {
        MarkerEntry { len: at as u32, ptr: self.ptr }
    }

    open spec fn right_of(&self, at: int) -> Self {
        MarkerEntry { len: (self.len - at) as u32, ptr: self.ptr }
    }

    open spec fn can_cut(&self, at: int) -> bool {
        0 <= at <= self.len
    }

    proof fn lemma_can_cut(&self, at: int) {
    }

    proof fn lemma_split(&self, at: int) {
    }

    proof fn lemma_join_split(&self, other: &Self) {
    }

    fn truncate(&mut self, at: usize) -> (rest: Self) {
        let remainder_len = self.len - at as u32;
        self.len = at as u32;
        MarkerEntry { len: remainder_len, ptr: self.ptr }
    }
}

impl EntryTraits for MarkerEntry {
    type Item = Option<LeafPtr>;

    open spec fn item_at(&self, k: int) -> Option<LeafPtr> {
        self.ptr
    }

    open spec fn valid(&self) -> bool {
        self.len > 0
    }

    /// Markers name leaves, not items: asking one where it holds an item makes no sense.
    open spec fn searchable() -> bool {
        false
    }

    proof fn lemma_default(entry: Self) {
    }

    proof fn lemma_split_items(&self, at: int) {
    }

    proof fn lemma_join_items(&self, other: &Self) {
    }

    open spec fn can_cut_front(&self, at: int) -> bool {
        0 <= at <= self.len
    }

    proof fn lemma_can_cut_front(&self, at: int) {
    }

    open spec fn reads_at(&self, offset: int) -> bool {
        true
    }

    proof fn lemma_reads_at(&self, offset: int) {
    }

    fn truncate_keeping_right(&mut self, at: usize) -> (left: Self) {
        let left = MarkerEntry { len: at as u32, ptr: self.ptr };
        self.len = self.len - at as u32;
        left
    }

    fn contains(&self, _loc: Option<LeafPtr>) -> (at: Option<usize>) {
        None
    }

    fn is_valid(&self) -> bool {
        self.len > 0
    }

    fn at_offset(&self, _offset: usize) -> Option<LeafPtr> {
        self.ptr
    }
}

} // verus!
