//! What the tree asks of the spans that it stores.

use crate::common::{CRDTLocation, ROOT_AGENT};
use crate::splitable_span::{MergableSpan, SplitableSpan};
use vstd::prelude::*;

verus! {

/// A span that can be stored in a slot of a tree leaf: it names its items, and one
/// of its values marks an unused slot.
pub trait EntryTraits: SplitableSpan + Copy + Default {
    type Item: Copy;

    /// The item `k` places behind the first one.
    spec fn item_at(&self, k: int) -> Self::Item;

    /// The span is no unused slot.
    spec fn valid(&self) -> bool;

    /// Whether a span can be asked where it holds an item.
    spec fn searchable() -> bool;

    /// The default value marks an unused slot.
    proof fn lemma_default(entry: Self)
        requires
            call_ensures(Self::default, (), entry),
        ensures
            !entry.valid(),
            entry.span_ok(),
    ;

    /// Spans can be cut; both parts hold the items they were cut from.
    proof fn lemma_split_items(&self, at: int)
        requires
            self.span_ok(),
            0 < at < self.span_len(),
        ensures
            self.valid() ==> self.left_of(at).valid() && self.right_of(at).valid(),
            forall|k: int|
                0 <= k < at ==> #[trigger] self.left_of(at).item_at(k) == self.item_at(k),
            forall|k: int|
                0 <= k < self.span_len() - at ==> #[trigger] self.right_of(at).item_at(k)
                    == self.item_at(at + k),
    ;

    /// A glued span holds the items of both parts.
    proof fn lemma_join_items(&self, other: &Self)
        requires
            self.span_ok(),
            other.span_ok(),
            self.appends(other),
            0 < self.span_len(),
            0 < other.span_len(),
            self.span_len() + other.span_len() <= Self::max_span_len(),
        ensures
            self.valid() && other.valid() ==> self.joined(other).valid(),
            forall|k: int|
                0 <= k < self.span_len() ==> #[trigger] self.joined(other).item_at(k)
                    == self.item_at(k),
            forall|k: int|
                self.span_len() <= k < self.span_len() + other.span_len()
                    ==> #[trigger] self.joined(other).item_at(k) == other.item_at(
                    k - self.span_len(),
                ),
    ;

    /// The first `at` items can be cut off.
    spec fn can_cut_front(&self, at: int) -> bool;

    /// Any items but all of them can be cut off, and no more than there are.
    proof fn lemma_can_cut_front(&self, at: int)
        requires
            self.span_ok(),
        ensures
            0 < at < self.span_len() ==> self.can_cut_front(at),
            self.can_cut_front(at) ==> 0 <= at <= self.span_len(),
    ;

    /// Cuts the span: keeps all but the first `at` items and returns those.
    fn truncate_keeping_right(&mut self, at: usize) -> (left: Self)
        requires
            old(self).span_ok(),
            old(self).can_cut_front(at as int),
        ensures
            *final(self) == old(self).right_of(at as int),
            left == old(self).left_of(at as int),
    ;

    /// Where the span first holds `loc`, if it does.
    fn contains(&self, loc: Self::Item) -> (at: Option<usize>)
        requires
            Self::searchable(),
            self.span_ok(),
        ensures
            match at {
                Some(k) => {
                    &&& k < self.span_len()
                    &&& self.item_at(k as int) == loc
                    &&& forall|j: int| 0 <= j < k ==> #[trigger] self.item_at(j) != loc
                },
                None => forall|k: int|
                    0 <= k < self.span_len() ==> #[trigger] self.item_at(k) != loc,
            },
    ;

    /// Whether the slot that holds this span is in use.
    fn is_valid(&self) -> (valid: bool)
        requires
            self.span_ok(),
        ensures
            valid == self.valid(),
    ;

    /// The span can be asked for the item this far behind its first one.
    spec fn reads_at(&self, offset: int) -> bool;

    /// A span can be asked for each of its items.
    proof fn lemma_reads_at(&self, offset: int)
        requires
            self.span_ok(),
            0 <= offset < self.span_len(),
        ensures
            self.reads_at(offset),
    ;

    /// The item `offset` places behind the first one.
    fn at_offset(&self, offset: usize) -> (item: Self::Item)
        requires
            self.span_ok(),
            self.reads_at(offset as int),
        ensures
            item == self.item_at(offset as int),
    ;
}

/// A span of which some items, or none, are visible.
pub trait EntryWithContent: EntryTraits {
    /// How many of the items are visible.
    spec fn spec_content_len(&self) -> nat;

    /// Cutting a span cuts its visible items.
    proof fn lemma_split_content(&self, at: int)
        requires
            self.span_ok(),
            0 < at < self.span_len(),
        ensures
            self.spec_content_len() == self.left_of(at).spec_content_len() + self.right_of(
                at,
            ).spec_content_len(),
    ;

    /// Gluing spans glues their visible items.
    proof fn lemma_join_content(&self, other: &Self)
        requires
            self.span_ok(),
            other.span_ok(),
            self.appends(other),
            0 < self.span_len(),
            0 < other.span_len(),
            self.span_len() + other.span_len() <= Self::max_span_len(),
        ensures
            self.joined(other).spec_content_len() == self.spec_content_len()
                + other.spec_content_len(),
    ;

    /// No more items are visible than there are.
    proof fn lemma_content_bound(&self)
        requires
            self.span_ok(),
        ensures
            self.spec_content_len() <= self.span_len(),
    ;

    /// The number of visible items.
    fn content_len(&self) -> (len: usize)
        requires
            self.span_ok(),
        ensures
            len == self.spec_content_len(),
    ;
}

/// Consecutive operations of one peer.
#[derive(Copy, Clone, Debug, PartialEq, Eq, Structural)]
pub struct CRDTSpan {
    pub loc: CRDTLocation,
    pub len: u32,
}

impl Default for CRDTSpan {
    fn default() -> (span: Self)
        ensures
            span.loc.agent == ROOT_AGENT,
            span.loc.seq == 0,
            span.len == 0,
    {
        CRDTSpan { loc: CRDTLocation { agent: ROOT_AGENT, seq: 0 }, len: 0 }
    }
}

impl MergableSpan for CRDTSpan {
    open spec fn span_len(&self) -> nat {
        self.len as nat
    }

    open spec fn span_ok(&self) -> bool {
        self.loc.seq + self.len <= u32::MAX
    }

    open spec fn max_span_len() -> nat {
        u32::MAX as nat
    }

    open spec fn appends(&self, other: &Self) -> bool {
        &&& other.loc.agent == self.loc.agent
        &&& other.loc.seq == self.loc.seq + self.len
    }

    open spec fn joined(&self, other: &Self) -> Self {
        CRDTSpan { loc: self.loc, len: (self.len + other.len) as u32 }
    }

    proof fn lemma_len_bound(&self) {
    }

    proof fn lemma_join(&self, other: &Self) {
    }

    open spec fn append_ok(&self, other: &Self) -> bool {
        self.appends(other) && self.span_len() + other.span_len() <= Self::max_span_len()
    }

    open spec fn prepend_ok(&self, other: &Self) -> bool {
        other.appends(self) && self.span_len() + other.span_len() <= Self::max_span_len()
    }

    open spec fn prepended(&self, other: &Self) -> Self {
        other.joined(self)
    }

    proof fn lemma_append_ok(&self, other: &Self) {
    }

    fn max_len() -> usize {
        u32::MAX as usize
    }

    fn len(&self) -> usize {
        self.len as usize
    }

    fn can_append(&self, other: &Self) -> bool {
        other.loc.agent == self.loc.agent && other.loc.seq == self.loc.seq + self.len
    }

    fn append(&mut self, other: Self) {
        self.len = self.len + other.len;
    }

    fn prepend(&mut self, other: Self) {
        self.loc = other.loc;
        self.len = self.len + other.len;
    }
}

impl SplitableSpan for CRDTSpan {
    open spec fn left_of(&self, at: int) -> Self {
        CRDTSpan { loc: self.loc, len: at as u32 }
    }

    open spec fn right_of(&self, at: int) -> Self {
        CRDTSpan {
            loc: CRDTLocation { agent: self.loc.agent, seq: (self.loc.seq + at) as u32 },
            len: (self.len - at) as u32,
        }
    }

    open spec fn can_cut(&self, at: int) -> bool {
        0 <= at <= self.len
    }

    proof fn lemma_can_cut(&self, at: int) {
    }

    proof fn lemma_split(&self, at: int) {
    }

    proof fn lemma_join_split(&self, other: &Self) {
    }

    fn truncate(&mut self, at: usize) -> (rest: Self) {
        let at = at as u32;
        let rest = CRDTSpan {
            loc: CRDTLocation { agent: self.loc.agent, seq: self.loc.seq + at },
            len: self.len - at,
        };
        self.len = at;
        rest
    }
}

impl EntryTraits for CRDTSpan {
    type Item = CRDTLocation;

    open spec fn item_at(&self, k: int) -> CRDTLocation {
        CRDTLocation { agent: self.loc.agent, seq: (self.loc.seq + k) as u32 }
    }

    open spec fn valid(&self) -> bool {
        self.loc.agent != ROOT_AGENT
    }

    open spec fn searchable() -> bool {
        true
    }

    proof fn lemma_default(entry: Self) {
    }

    proof fn lemma_split_items(&self, at: int) {
    }

    proof fn lemma_join_items(&self, other: &Self) {
    }

    open spec fn can_cut_front(&self, at: int) -> bool {
        0 <= at <= self.len
    }

    proof fn lemma_can_cut_front(&self, at: int) {
    }

    open spec fn reads_at(&self, offset: int) -> bool {
        0 <= offset < self.span_len()
    }

    proof fn lemma_reads_at(&self, offset: int) {
    }

    fn truncate_keeping_right(&mut self, at: usize) -> (left: Self) {
        let at = at as u32;
        let left = CRDTSpan { loc: self.loc, len: at };
        self.loc = CRDTLocation { agent: self.loc.agent, seq: self.loc.seq + at };
        self.len = self.len - at;
        left
    }

    fn contains(&self, loc: CRDTLocation) -> (at: Option<usize>) {
        if loc.agent == self.loc.agent && loc.seq >= self.loc.seq && loc.seq < self.loc.seq
            + self.len {
            let k = (loc.seq - self.loc.seq) as usize;
            assert forall|j: int| 0 <= j < k implies #[trigger] self.item_at(j) != loc by {
                assert(self.item_at(j).seq == self.loc.seq + j);
            }
            Some(k)
        } else {
            assert forall|k: int| 0 <= k < self.span_len() implies #[trigger] self.item_at(k)
                != loc by {
                assert(self.item_at(k).seq == self.loc.seq + k);
            }
            None
        }
    }

    fn is_valid(&self) -> bool {
        self.loc.agent != ROOT_AGENT
    }

    fn at_offset(&self, offset: usize) -> CRDTLocation {
        CRDTLocation { agent: self.loc.agent, seq: self.loc.seq + offset as u32 }
    }
}

/// Every operation of a peer counts as visible.
impl EntryWithContent for CRDTSpan {
    open spec fn spec_content_len(&self) -> nat {
        self.len as nat
    }

    proof fn lemma_split_content(&self, at: int) {
    }

    proof fn lemma_join_content(&self, other: &Self) {
    }

    proof fn lemma_content_bound(&self) {
    }

    fn content_len(&self) -> usize {
        self.len as usize
    }
}

} // verus!
