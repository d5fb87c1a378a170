//! Run-length encoded lists of spans, keyed by the first item of each span.

use crate::range_tree::entry::EntryTraits;
use crate::splitable_span::{MergableSpan, SplitableSpan};
use vstd::prelude::*;

pub mod simple_rle;

verus! {

/// The key of an item in a run-length encoded list.
pub type RleKey = u32;

/// A span that knows the key of its first item.
pub trait RleKeyed {
    spec fn rle_key(&self) -> u32;

    fn get_rle_key(&self) -> (key: RleKey)
        ensures
            key == self.rle_key(),
    ;
}

/// A span whose items are keyed from `.0` upwards.
#[derive(Copy, Clone, Debug, Eq, PartialEq)]
pub struct KVPair<V>(pub RleKey, pub V);

impl<V: MergableSpan> KVPair<V> {
    /// The key that follows the last item.
    pub fn end(&self) -> (end: u32)
        requires
            self.span_ok(),
        ensures
            end == self.0 + self.1.span_len(),
    {
        proof {
            self.1.lemma_len_bound();
        }
        self.0 + self.1.len() as u32
    }
}

impl<V> RleKeyed for KVPair<V> {
    open spec fn rle_key(&self) -> u32 {
        self.0
    }

    fn get_rle_key(&self) -> (key: RleKey) {
        self.0
    }
}

impl<V: MergableSpan> MergableSpan for KVPair<V> {
    open spec fn span_len(&self) -> nat {
        self.1.span_len()
    }

    open spec fn span_ok(&self) -> bool {
        &&& self.1.span_ok()
        &&& self.0 + self.1.span_len() <= u32::MAX
    }

    open spec fn max_span_len() -> nat {
        V::max_span_len()
    }

    open spec fn appends(&self, other: &Self) -> bool {
        &&& other.0 == self.0 + self.1.span_len()
        &&& self.1.appends(&other.1)
    }

    open spec fn joined(&self, other: &Self) -> Self {
        KVPair(self.0, self.1.joined(&other.1))
    }

    proof fn lemma_len_bound(&self) {
        self.1.lemma_len_bound();
    }

    proof fn lemma_join(&self, other: &Self) {
        self.1.lemma_join(&other.1);
    }

    open spec fn append_ok(&self, other: &Self) -> bool {
        self.1.append_ok(&other.1)
    }

    open spec fn prepend_ok(&self, other: &Self) -> bool {
        self.1.prepend_ok(&other.1)
    }

    open spec fn prepended(&self, other: &Self) -> Self {
        KVPair(other.0, self.1.prepended(&other.1))
    }

    proof fn lemma_append_ok(&self, other: &Self) {
        self.1.lemma_append_ok(&other.1);
    }

    fn max_len() -> usize {
        V::max_len()
    }

    fn len(&self) -> usize {
        self.1.len()
    }

    fn can_append(&self, other: &Self) -> bool {
        other.0 == self.end() && self.1.can_append(&other.1)
    }

    fn append(&mut self, other: Self) {
        self.1.append(other.1);
    }

    fn prepend(&mut self, other: Self) {
        self.1.prepend(other.1);
        self.0 = other.0;
    }
}

impl<V: SplitableSpan> SplitableSpan for KVPair<V> {
    open spec fn left_of(&self, at: int) -> Self {
        KVPair(self.0, self.1.left_of(at))
    }

    open spec fn right_of(&self, at: int) -> Self {
        KVPair((self.0 + at) as u32, self.1.right_of(at))
    }

    open spec fn can_cut(&self, at: int) -> bool {
        0 < at < self.span_len() && self.1.can_cut(at)
    }

    proof fn lemma_can_cut(&self, at: int) {
        self.1.lemma_can_cut(at);
    }

    proof fn lemma_split(&self, at: int) {
        self.1.lemma_split(at);
    }

    proof fn lemma_join_split(&self, other: &Self) {
        self.1.lemma_join_split(&other.1);
        self.1.lemma_join(&other.1);
    }

    fn truncate(&mut self, at: usize) -> (rest: Self) {
        proof {
            self.1.lemma_len_bound();
        }
        let remainder = self.1.truncate(at);
        KVPair(self.0 + at as u32, remainder)
    }
}

impl<V: EntryTraits> EntryTraits for KVPair<V> {
    type Item = V::Item;

    open spec fn item_at(&self, k: int) -> V::Item {
        self.1.item_at(k)
    }

    open spec fn valid(&self) -> bool {
        self.1.valid()
    }

    open spec fn searchable() -> bool {
        V::searchable()
    }

    proof fn lemma_default(entry: Self) {
        V::lemma_default(entry.1);
        entry.1.lemma_len_bound();
    }

    proof fn lemma_split_items(&self, at: int) {
        self.1.lemma_split_items(at);
    }

    proof fn lemma_join_items(&self, other: &Self) {
        self.1.lemma_join_items(&other.1);
    }

    open spec fn can_cut_front(&self, at: int) -> bool {
        self.1.can_cut_front(at)
    }

    proof fn lemma_can_cut_front(&self, at: int) {
        self.1.lemma_can_cut_front(at);
    }

    open spec fn reads_at(&self, offset: int) -> bool {
        self.1.reads_at(offset)
    }

    proof fn lemma_reads_at(&self, offset: int) {
        self.1.lemma_reads_at(offset);
    }

    fn truncate_keeping_right(&mut self, at: usize) -> (left: Self) {
        proof {
            self.1.lemma_len_bound();
            self.1.lemma_can_cut_front(at as int);
        }
        let old_key = self.0;
        self.0 = self.0 + at as u32;
        let trimmed = self.1.truncate_keeping_right(at);
        KVPair(old_key, trimmed)
    }

    fn contains(&self, loc: V::Item) -> (at: Option<usize>) {
        let at = self.1.contains(loc);
        proof {
            let end = if at is None {
                self.span_len() as int
            } else {
                at->0 as int
            };
            assert forall|k: int| 0 <= k < end implies #[trigger] self.item_at(k) != loc by {
                assert(self.1.item_at(k) != loc);
            }
        }
        at
    }

    fn is_valid(&self) -> bool {
        self.1.is_valid()
    }

    fn at_offset(&self, offset: usize) -> V::Item {
        self.1.at_offset(offset)
    }
}

impl<V: Default> Default for KVPair<V> {
    fn default() -> (pair: Self)
        ensures
            pair.0 == 0,
            call_ensures(V::default, (), pair.1),
    {
        KVPair(0, V::default())
    }
}

} // verus!
