//! What the inner nodes of a tree count.

use crate::range_tree::entry::{EntryTraits, EntryWithContent};
use vstd::prelude::*;

verus! {

/// A number of items and a number of visible items. An index that does not count
/// one of the two leaves it at zero.
pub struct Extent {
    pub len: int,
    pub content: int,
}

impl Extent {
    pub open spec fn zero() -> Extent {
        Extent { len: 0, content: 0 }
    }

    pub open spec fn plus(self, other: Extent) -> Extent {
        Extent { len: self.len + other.len, content: self.content + other.content }
    }

    pub open spec fn minus(self, other: Extent) -> Extent {
        Extent { len: self.len - other.len, content: self.content - other.content }
    }

    /// Both numbers fit a stored count.
    pub open spec fn fits(self) -> bool {
        &&& 0 <= self.len <= u32::MAX
        &&& 0 <= self.content <= u32::MAX
    }

    /// Both numbers, or what they changed by, fit a pending change.
    pub open spec fn fits_update(self) -> bool {
        &&& i64::MIN <= self.len <= i64::MAX
        &&& i64::MIN <= self.content <= i64::MAX
    }
}

/// What a tree counts of its entries, and in which types.
pub trait TreeIndex<E: EntryTraits>: Sized {
    /// A change of a count that has not reached the inner nodes yet.
    type IndexUpdate: Copy;

    /// A count.
    type IndexOffset: Copy;

    /// What an entry counts for.
    spec fn extent(entry: E) -> Extent;

    /// The numbers that a count stands for.
    spec fn offset_extent(offset: Self::IndexOffset) -> Extent;

    /// The numbers that a pending change stands for.
    spec fn update_extent(update: Self::IndexUpdate) -> Extent;

    /// Counts are not negative, and an entry counts for no more than its items.
    proof fn lemma_extent_bound(entry: E)
        requires
            entry.span_ok(),
        ensures
            0 <= Self::extent(entry).len <= entry.span_len(),
            0 <= Self::extent(entry).content <= entry.span_len(),
    ;

    /// Cutting an entry cuts what it counts for.
    proof fn lemma_split_extent(entry: E, at: int)
        requires
            entry.span_ok(),
            0 < at < entry.span_len(),
        ensures
            Self::extent(entry) == Self::extent(entry.left_of(at)).plus(
                Self::extent(entry.right_of(at)),
            ),
    ;

    /// Gluing entries glues what they count for.
    proof fn lemma_join_extent(entry: E, other: E)
        requires
            entry.span_ok(),
            other.span_ok(),
            entry.appends(&other),
            0 < entry.span_len(),
            0 < other.span_len(),
            entry.span_len() + other.span_len() <= E::max_span_len(),
        ensures
            Self::extent(entry.joined(&other)) == Self::extent(entry).plus(Self::extent(other)),
    ;

    /// Equal counts stand for equal numbers only.
    proof fn lemma_offset_injective(a: Self::IndexOffset, b: Self::IndexOffset)
        requires
            Self::offset_extent(a) == Self::offset_extent(b),
        ensures
            a == b,
    ;

    /// A stored count fits its type.
    proof fn lemma_offset_fits(offset: Self::IndexOffset)
        ensures
            Self::offset_extent(offset).fits(),
    ;

    /// The count of nothing.
    fn zero_offset() -> (offset: Self::IndexOffset)
        ensures
            Self::offset_extent(offset) == Extent::zero(),
    ;

    /// No change.
    fn zero_update() -> (update: Self::IndexUpdate)
        ensures
            Self::update_extent(update) == Extent::zero(),
    ;

    /// Adds what an entry counts for, unless the sum does not fit.
    fn increment_offset(offset: &mut Self::IndexOffset, by: &E) -> (done: bool)
        requires
            by.span_ok(),
        ensures
            done == Self::offset_extent(*old(offset)).plus(Self::extent(*by)).fits(),
            done ==> Self::offset_extent(*final(offset)) == Self::offset_extent(*old(offset)).plus(
                Self::extent(*by),
            ),
    ;

    /// Adds a count, unless the sum does not fit.
    fn add_offset(offset: &mut Self::IndexOffset, by: Self::IndexOffset) -> (done: bool)
        ensures
            done == Self::offset_extent(*old(offset)).plus(Self::offset_extent(by)).fits(),
            done ==> Self::offset_extent(*final(offset)) == Self::offset_extent(*old(offset)).plus(
                Self::offset_extent(by),
            ),
    ;

    /// Whether two counts are equal.
    fn same_offset(a: Self::IndexOffset, b: Self::IndexOffset) -> (same: bool)
        ensures
            same == (a == b),
    ;

    /// Notes that an entry was added.
    fn increment_marker(marker: &mut Self::IndexUpdate, entry: &E)
        requires
            entry.span_ok(),
            Self::update_extent(*old(marker)).plus(Self::extent(*entry)).fits_update(),
        ensures
            Self::update_extent(*final(marker)) == Self::update_extent(*old(marker)).plus(
                Self::extent(*entry),
            ),
    ;

    /// Notes that an entry was removed.
    fn decrement_marker(marker: &mut Self::IndexUpdate, entry: &E)
        requires
            entry.span_ok(),
            Self::update_extent(*old(marker)).minus(Self::extent(*entry)).fits_update(),
        ensures
            Self::update_extent(*final(marker)) == Self::update_extent(*old(marker)).minus(
                Self::extent(*entry),
            ),
    ;

    /// Applies a pending change to a count.
    fn update_offset_by_marker(offset: &mut Self::IndexOffset, by: &Self::IndexUpdate)
        requires
            Self::update_extent(*by).fits_update(),
            Self::offset_extent(*old(offset)).plus(Self::update_extent(*by)).fits(),
        ensures
            Self::offset_extent(*final(offset)) == Self::offset_extent(*old(offset)).plus(
                Self::update_extent(*by),
            ),
    ;
}

/// Counts all items.
#[derive(Clone, Copy, Debug, PartialEq, Eq, Structural)]
pub struct RawPositionIndex;

/// Counts the visible items.
#[derive(Clone, Copy, Debug, PartialEq, Eq, Structural)]
pub struct ContentIndex;

/// Counts all items and the visible ones.
#[derive(Clone, Copy, Debug, PartialEq, Eq, Structural)]
pub struct FullIndex;

/// A count of a [`FullIndex`].
#[derive(Clone, Copy, Debug, PartialEq, Eq, Structural)]
pub struct FullOffset {
    pub len: u32,
    pub content: u32,
}

/// A pending change of a [`FullIndex`].
#[derive(Clone, Copy, Debug, PartialEq, Eq, Structural)]
pub struct FullUpdate {
    pub len: i64,
    pub content: i64,
}

/// Adds to a count, unless the sum does not fit.
fn add_to(count: &mut u32, by: usize) -> (done: bool)
    ensures
        done == (*old(count) + by <= u32::MAX),
        done ==> *final(count) == *old(count) + by,
        !done ==> *final(count) == *old(count),
{
    if by <= (0xffff_ffff - *count) as usize {
        *count = *count + by as u32;
        true
    } else {
        false
    }
}

impl<E: EntryTraits> TreeIndex<E> for RawPositionIndex {
    type IndexUpdate = i64;

    type IndexOffset = u32;

    open spec fn extent(entry: E) -> Extent {
        Extent { len: entry.span_len() as int, content: 0 }
    }

    open spec fn offset_extent(offset: u32) -> Extent {
        Extent { len: offset as int, content: 0 }
    }

    open spec fn update_extent(update: i64) -> Extent {
        Extent { len: update as int, content: 0 }
    }

    proof fn lemma_extent_bound(entry: E) {
    }

    proof fn lemma_split_extent(entry: E, at: int) {
        entry.lemma_split_items(at);
        entry.lemma_split(at);
    }

    proof fn lemma_join_extent(entry: E, other: E) {
        entry.lemma_join(&other);
    }

    proof fn lemma_offset_injective(a: u32, b: u32) {
    }

    proof fn lemma_offset_fits(offset: u32) {
    }

    fn zero_offset() -> u32 {
        0
    }

    fn zero_update() -> i64 {
        0
    }

    fn increment_offset(offset: &mut u32, by: &E) -> (done: bool) {
        add_to(offset, by.len())
    }

    fn add_offset(offset: &mut u32, by: u32) -> (done: bool) {
        add_to(offset, by as usize)
    }

    fn same_offset(a: u32, b: u32) -> bool {
        a == b
    }

    fn increment_marker(marker: &mut i64, entry: &E) {
        proof {
            entry.lemma_len_bound();
        }
        *marker = *marker + entry.len() as i64;
    }

    fn decrement_marker(marker: &mut i64, entry: &E) {
        proof {
            entry.lemma_len_bound();
        }
        *marker = *marker - entry.len() as i64;
    }

    fn update_offset_by_marker(offset: &mut u32, by: &i64) {
        *offset = (*offset as i64 + *by) as u32;
    }
}

impl<E: EntryTraits + EntryWithContent> TreeIndex<E> for ContentIndex {
    type IndexUpdate = i64;

    type IndexOffset = u32;

    open spec fn extent(entry: E) -> Extent {
        Extent { len: 0, content: entry.spec_content_len() as int }
    }

    open spec fn offset_extent(offset: u32) -> Extent {
        Extent { len: 0, content: offset as int }
    }

    open spec fn update_extent(update: i64) -> Extent {
        Extent { len: 0, content: update as int }
    }

    proof fn lemma_extent_bound(entry: E) {
        entry.lemma_content_bound();
    }

    proof fn lemma_split_extent(entry: E, at: int) {
        entry.lemma_split_content(at);
    }

    proof fn lemma_join_extent(entry: E, other: E) {
        entry.lemma_join_content(&other);
    }

    proof fn lemma_offset_injective(a: u32, b: u32) {
    }

    proof fn lemma_offset_fits(offset: u32) {
    }

    fn zero_offset() -> u32 {
        0
    }

    fn zero_update() -> i64 {
        0
    }

    fn increment_offset(offset: &mut u32, by: &E) -> (done: bool) {
        add_to(offset, by.content_len())
    }

    fn add_offset(offset: &mut u32, by: u32) -> (done: bool) {
        add_to(offset, by as usize)
    }

    fn same_offset(a: u32, b: u32) -> bool {
        a == b
    }

    fn increment_marker(marker: &mut i64, entry: &E) {
        proof {
            entry.lemma_len_bound();
            entry.lemma_content_bound();
        }
        *marker = *marker + entry.content_len() as i64;
    }

    fn decrement_marker(marker: &mut i64, entry: &E) {
        proof {
            entry.lemma_len_bound();
            entry.lemma_content_bound();
        }
        *marker = *marker - entry.content_len() as i64;
    }

    fn update_offset_by_marker(offset: &mut u32, by: &i64) {
        *offset = (*offset as i64 + *by) as u32;
    }
}

impl<E: EntryTraits + EntryWithContent> TreeIndex<E> for FullIndex {
    type IndexUpdate = FullUpdate;

    type IndexOffset = FullOffset;

    open spec fn extent(entry: E) -> Extent {
        Extent { len: entry.span_len() as int, content: entry.spec_content_len() as int }
    }

    open spec fn offset_extent(offset: FullOffset) -> Extent {
        Extent { len: offset.len as int, content: offset.content as int }
    }

    open spec fn update_extent(update: FullUpdate) -> Extent {
        Extent { len: update.len as int, content: update.content as int }
    }

    proof fn lemma_extent_bound(entry: E) {
        entry.lemma_content_bound();
    }

    proof fn lemma_split_extent(entry: E, at: int) {
        entry.lemma_split_items(at);
        entry.lemma_split(at);
        entry.lemma_split_content(at);
    }

    proof fn lemma_join_extent(entry: E, other: E) {
        entry.lemma_join(&other);
        entry.lemma_join_content(&other);
    }

    proof fn lemma_offset_injective(a: FullOffset, b: FullOffset) {
    }

    proof fn lemma_offset_fits(offset: FullOffset) {
    }

    fn zero_offset() -> FullOffset {
        FullOffset { len: 0, content: 0 }
    }

    fn zero_update() -> FullUpdate {
        FullUpdate { len: 0, content: 0 }
    }

    fn increment_offset(offset: &mut FullOffset, by: &E) -> (done: bool) {
        let len_fits = add_to(&mut offset.len, by.len());
        let content_fits = add_to(&mut offset.content, by.content_len());
        len_fits && content_fits
    }

    fn add_offset(offset: &mut FullOffset, by: FullOffset) -> (done: bool) {
        let len_fits = add_to(&mut offset.len, by.len as usize);
        let content_fits = add_to(&mut offset.content, by.content as usize);
        len_fits && content_fits
    }

    fn same_offset(a: FullOffset, b: FullOffset) -> bool {
        a == b
    }

    fn increment_marker(marker: &mut FullUpdate, entry: &E) {
        proof {
            entry.lemma_len_bound();
            entry.lemma_content_bound();
        }
        marker.len = marker.len + entry.len() as i64;
        marker.content = marker.content + entry.content_len() as i64;
    }

    fn decrement_marker(marker: &mut FullUpdate, entry: &E) {
        proof {
            entry.lemma_len_bound();
            entry.lemma_content_bound();
        }
        marker.len = marker.len - entry.len() as i64;
        marker.content = marker.content - entry.content_len() as i64;
    }

    fn update_offset_by_marker(offset: &mut FullOffset, by: &FullUpdate) {
        offset.len = (offset.len as i64 + by.len) as u32;
        offset.content = (offset.content as i64 + by.content) as u32;
    }
}

} // verus!
