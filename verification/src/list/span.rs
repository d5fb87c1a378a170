//! Runs of inserted items.

use crate::list::{Order, ROOT_ORDER};
use crate::range_tree::entry::{EntryTraits, EntryWithContent};
use crate::splitable_span::{MergableSpan, SplitableSpan};
use vstd::prelude::*;

verus! {

/// A run of items that were inserted together, the first of them between the items
/// `origin_left` and `origin_right`, each of the others behind the one before it. The
/// items of a run of negative length are deleted.
#[derive(Copy, Clone, Debug, PartialEq, Eq, Structural)]
pub struct YjsSpan {
    pub order: Order,
    pub origin_left: Order,
    pub origin_right: Order,
    pub len: i32,
}

pub open spec fn magnitude(len: int) -> int {
    if len < 0 {
        -len
    } else {
        len
    }
}

/// A length with the sign of another one.
pub open spec fn with_sign_of(len: int, sign: int) -> int {
    if sign < 0 {
        -len
    } else {
        len
    }
}

impl YjsSpan {
    /// The items are visible.
    pub open spec fn active(&self) -> bool {
        self.len > 0
    }

    /// The same run with its items deleted.
    pub open spec fn deactivated(&self) -> YjsSpan {
        YjsSpan { len: (-magnitude(self.len as int)) as i32, ..*self }
    }

    /// What the item `at` places behind the first one was inserted behind.
    pub open spec fn spec_origin_left_at(&self, at: int) -> int {
        if at == 0 {
            self.origin_left as int
        } else {
            self.order + at - 1
        }
    }

    /// What the item `at` places behind the first one was inserted behind. One place
    /// behind the last item, that is the last item.
    pub fn origin_left_at_offset(&self, at: u32) -> (origin: Order)
        requires
            self.span_ok(),
            at <= self.span_len(),
        ensures
            origin == self.spec_origin_left_at(at as int),
    {
        if at == 0 {
            self.origin_left
        } else {
            self.order + at - 1
        }
    }

    /// Whether the items are visible.
    pub fn is_activated(&self) -> (active: bool)
        ensures
            active == self.active(),
    {
        self.len > 0
    }

    /// Deletes the items.
    pub fn mark_deactivated(&mut self)
        requires
            old(self).span_ok(),
            old(self).active(),
        ensures
            *final(self) == old(self).deactivated(),
    {
        self.len = -self.len;
    }
}

impl Default for YjsSpan {
    fn default() -> (span: Self)
        ensures
            span == (YjsSpan { order: 0, origin_left: 0, origin_right: 0, len: 0 }),
    {
        YjsSpan { order: 0, origin_left: 0, origin_right: 0, len: 0 }
    }
}

impl MergableSpan for YjsSpan {
    open spec fn span_len(&self) -> nat {
        magnitude(self.len as int) as nat
    }

    open spec fn span_ok(&self) -> bool {
        &&& self.len > i32::MIN
        &&& self.order + magnitude(self.len as int) <= ROOT_ORDER
    }

    open spec fn max_span_len() -> nat {
        i32::MAX as nat
    }

    open spec fn appends(&self, other: &Self) -> bool {
        &&& (self.len > 0) == (other.len > 0)
        &&& other.order == self.order + self.span_len()
        &&& other.origin_left == other.order - 1
        &&& other.origin_right == self.origin_right
    }

    open spec fn joined(&self, other: &Self) -> Self {
        YjsSpan { len: (self.len + other.len) as i32, ..*self }
    }

    proof fn lemma_len_bound(&self) {
    }

    proof fn lemma_join(&self, other: &Self) {
    }

    open spec fn append_ok(&self, other: &Self) -> bool {
        self.appends(other) && self.span_len() + other.span_len() <= Self::max_span_len()
    }

    open spec fn prepend_ok(&self, other: &Self) -> bool {
        other.appends(self) && self.span_len() + other.span_len() <= Self::max_span_len()
    }

    open spec fn prepended(&self, other: &Self) -> Self {
        other.joined(self)
    }

    proof fn lemma_append_ok(&self, other: &Self) {
    }

    fn max_len() -> usize {
        i32::MAX as usize
    }

    fn len(&self) -> usize {
        if self.len < 0 {
            (-self.len) as usize
        } else {
            self.len as usize
        }
    }

    fn can_append(&self, other: &Self) -> bool {
        let len = MergableSpan::len(self) as u32;
        (self.len > 0) == (other.len > 0) && other.order == self.order + len && other.order > 0
            && other.origin_left == other.order - 1 && other.origin_right == self.origin_right
    }

    fn append(&mut self, other: Self) {
        self.len = self.len + other.len;
    }

    fn prepend(&mut self, other: Self) {
        self.order = other.order;
        self.origin_left = other.origin_left;
        self.len = self.len + other.len;
    }
}

impl SplitableSpan for YjsSpan {
    open spec fn left_of(&self, at: int) -> Self {
        YjsSpan { len: with_sign_of(at, self.len as int) as i32, ..*self }
    }

    open spec fn right_of(&self, at: int) -> Self {
        YjsSpan {
            order: (self.order + at) as u32,
            origin_left: (self.order + at - 1) as u32,
            origin_right: self.origin_right,
            len: with_sign_of(self.span_len() - at, self.len as int) as i32,
        }
    }

    open spec fn can_cut(&self, at: int) -> bool {
        0 < at < self.span_len()
    }

    proof fn lemma_can_cut(&self, at: int) {
    }

    proof fn lemma_split(&self, at: int) {
    }

    proof fn lemma_join_split(&self, other: &Self) {
    }

    fn truncate(&mut self, at: usize) -> (rest: Self) {
        let at = at as i32;
        let negative = self.len < 0;
        let rest = YjsSpan {
            order: self.order + at as u32,
            origin_left: self.order + at as u32 - 1,
            origin_right: self.origin_right,
            len: if negative {
                self.len + at
            } else {
                self.len - at
            },
        };
        self.len =
        if negative {
            -at
        } else {
            at
        };
        rest
    }
}

impl EntryTraits for YjsSpan {
    type Item = Order;

    open spec fn item_at(&self, k: int) -> Order {
        (self.order + k) as u32
    }

    open spec fn valid(&self) -> bool {
        self.len != 0
    }

    open spec fn searchable() -> bool {
        true
    }

    proof fn lemma_default(entry: Self) {
    }

    proof fn lemma_split_items(&self, at: int) {
    }

    proof fn lemma_join_items(&self, other: &Self) {
    }

    open spec fn can_cut_front(&self, at: int) -> bool {
        0 < at < self.span_len()
    }

    proof fn lemma_can_cut_front(&self, at: int) {
    }

    open spec fn reads_at(&self, offset: int) -> bool {
        0 <= offset < self.span_len()
    }

    proof fn lemma_reads_at(&self, offset: int) {
    }

    fn truncate_keeping_right(&mut self, at: usize) -> (left: Self) {
        let mut left = *self;
        *self = left.truncate(at);
        left
    }

    fn contains(&self, loc: Order) -> (at: Option<usize>) {
        let len = MergableSpan::len(self) as u32;
        if loc >= self.order && loc < self.order + len {
            let k = (loc - self.order) as usize;
            assert forall|j: int| 0 <= j < k implies #[trigger] self.item_at(j) != loc by {
                assert(self.item_at(j) == self.order + j);
            }
            Some(k)
        } else {
            assert forall|k: int| 0 <= k < self.span_len() implies #[trigger] self.item_at(k)
                != loc by {
                assert(self.item_at(k) == self.order + k);
            }
            None
        }
    }

    fn is_valid(&self) -> bool {
        self.len != 0
    }

    fn at_offset(&self, offset: usize) -> Order {
        self.order + offset as u32
    }
}

impl EntryWithContent for YjsSpan {
    open spec fn spec_content_len(&self) -> nat {
        if self.len > 0 {
            self.len as nat
        } else {
            0
        }
    }

    proof fn lemma_split_content(&self, at: int) {
    }

    proof fn lemma_join_content(&self, other: &Self) {
    }

    proof fn lemma_content_bound(&self) {
    }

    fn content_len(&self) -> usize {
        if self.len > 0 {
            self.len as usize
        } else {
            0
        }
    }
}

} // verus!
