//! Items that more than one peer deleted.

use crate::list::Order;
use crate::rle::{KVPair, RleKeyed};
use crate::rle::simple_rle::{
    covered, covers, index_of_key, key_end, lemma_covers_unique, rle_sorted, Rle,
};
use crate::splitable_span::{MergableSpan, SplitableSpan};
use vstd::prelude::*;

verus! {

/// Consecutive items that were deleted equally often after they had been deleted once.
#[derive(Copy, Clone, Debug, PartialEq, Eq, Structural)]
pub struct DoubleDelete {
    pub len: u32,
    pub excess_deletes: u32,
}

impl MergableSpan for DoubleDelete {
    open spec fn span_len(&self) -> nat {
        self.len as nat
    }

    open spec fn span_ok(&self) -> bool {
        true
    }

    open spec fn max_span_len() -> nat {
        u32::MAX as nat
    }

    open spec fn appends(&self, other: &Self) -> bool {
        self.excess_deletes == other.excess_deletes
    }

    open spec fn joined(&self, other: &Self) -> Self {
        DoubleDelete { len: (self.len + other.len) as u32, ..*self }
    }

    proof fn lemma_len_bound(&self) {
    }

    proof fn lemma_join(&self, other: &Self) {
    }

    open spec fn append_ok(&self, other: &Self) -> bool {
        self.appends(other) && self.span_len() + other.span_len() <= Self::max_span_len()
    }

    open spec fn prepend_ok(&self, other: &Self) -> bool {
        other.appends(self) && self.span_len() + other.span_len() <= Self::max_span_len()
    }

    open spec fn prepended(&self, other: &Self) -> Self {
        other.joined(self)
    }

    proof fn lemma_append_ok(&self, other: &Self) {
    }

    fn max_len() -> usize {
        u32::MAX as usize
    }

    fn len(&self) -> usize {
        self.len as usize
    }

    fn can_append(&self, other: &Self) -> bool {
        self.excess_deletes == other.excess_deletes
    }

    fn append(&mut self, other: Self) {
        self.len = self.len + other.len;
    }

    fn prepend(&mut self, other: Self) {
        self.len = self.len + other.len;
    }
}

impl SplitableSpan for DoubleDelete {
    open spec fn left_of(&self, at: int) -> Self {
        DoubleDelete { len: at as u32, ..*self }
    }

    open spec fn right_of(&self, at: int) -> Self {
        DoubleDelete { len: (self.len - at) as u32, ..*self }
    }

    open spec fn can_cut(&self, at: int) -> bool {
        0 <= at <= self.len
    }

    proof fn lemma_can_cut(&self, at: int) {
    }

    proof fn lemma_split(&self, at: int) {
    }

    proof fn lemma_join_split(&self, other: &Self) {
    }

    fn truncate(&mut self, at: usize) -> (rest: Self) {
        let at = at as u32;
        let rest = DoubleDelete { len: self.len - at, excess_deletes: self.excess_deletes };
        self.len = at;
        rest
    }
}

/// How often an item was deleted after it had been deleted once.
pub open spec fn excess(entries: Seq<KVPair<DoubleDelete>>, key: int) -> int {
    if covered(entries, key) {
        entries[index_of_key(entries, key)].1.excess_deletes as int
    } else {
        0
    }
}

proof fn lemma_excess_of(entries: Seq<KVPair<DoubleDelete>>, i: int, key: int)
    requires
        rle_sorted(entries),
        0 <= i < entries.len(),
        covers(entries[i], key),
    ensures
        excess(entries, key) == entries[i].1.excess_deletes,
{
    lemma_covers_unique(entries, i, index_of_key(entries, key), key);
}

/// Cutting a span in two changes nothing.
proof fn lemma_cut_excess(entries: Seq<KVPair<DoubleDelete>>, i: int, at: int)
    requires
        rle_sorted(entries),
        0 <= i < entries.len(),
        0 < at < entries[i].span_len(),
    ensures
        ({
            let now = entries.update(i, entries[i].left_of(at)).insert(
                i + 1,
                entries[i].right_of(at),
            );
            &&& rle_sorted(now)
            &&& forall|key: int| #[trigger] excess(now, key) == excess(entries, key)
        }),
{
    let left = entries[i].left_of(at);
    let right = entries[i].right_of(at);
    let now = entries.update(i, left).insert(i + 1, right);
    assert(entries[i].span_ok());
    assert forall|a: int| 0 <= a < now.len() implies (#[trigger] now[a]).span_ok() by {
        if a < i {
            assert(entries[a].span_ok());
        } else if a > i + 1 {
            assert(entries[a - 1].span_ok());
        }
    }
    assert forall|a: int, b: int| 0 <= a < b < now.len() implies key_end(#[trigger] now[a]) <= (
    #[trigger] now[b]).rle_key() by {
        let a2 = if a <= i { a } else { a - 1 };
        let b2 = if b <= i { b } else { b - 1 };
        if a2 != b2 {
            assert(key_end(entries[a2]) <= entries[b2].rle_key());
        }
    }
    assert forall|key: int| #[trigger] excess(now, key) == excess(entries, key) by {
        if covered(entries, key) {
            let j = index_of_key(entries, key);
            assert(covers(entries[j], key));
            let k = if j < i || (j == i && key < right.0) { j } else { j + 1 };
            assert(covers(now[k], key));
            lemma_excess_of(now, k, key);
        } else if covered(now, key) {
            let k = index_of_key(now, key);
            assert(covers(now[k], key));
            let j = if k <= i { k } else { k - 1 };
            assert(covers(entries[j], key));
        }
    }
}

/// Raising the number of a span raises it for its items.
proof fn lemma_raise_excess(entries: Seq<KVPair<DoubleDelete>>, i: int)
    requires
        rle_sorted(entries),
        0 <= i < entries.len(),
        entries[i].1.excess_deletes < u32::MAX,
    ensures
        ({
            let raised = KVPair(
                entries[i].0,
                DoubleDelete {
                    len: entries[i].1.len,
                    excess_deletes: (entries[i].1.excess_deletes + 1) as u32,
                },
            );
            let now = entries.update(i, raised);
            &&& rle_sorted(now)
            &&& forall|key: int| #[trigger]
                excess(now, key) == excess(entries, key) + if covers(entries[i], key) {
                    1int
                } else {
                    0
                }
        }),
{
    let raised = KVPair(
        entries[i].0,
        DoubleDelete {
            len: entries[i].1.len,
            excess_deletes: (entries[i].1.excess_deletes + 1) as u32,
        },
    );
    let now = entries.update(i, raised);
    assert(entries[i].span_ok());
    assert forall|a: int, b: int| 0 <= a < b < now.len() implies key_end(#[trigger] now[a]) <= (
    #[trigger] now[b]).rle_key() by {
        assert(key_end(entries[a]) <= entries[b].rle_key());
    }
    assert forall|a: int| 0 <= a < now.len() implies (#[trigger] now[a]).span_ok() by {
        assert(entries[a].span_ok());
    }
    assert forall|key: int| #[trigger] excess(now, key) == excess(entries, key) + if covers(
        entries[i],
        key,
    ) {
        1int
    } else {
        0
    } by {
        if covered(entries, key) {
            let j = index_of_key(entries, key);
            assert(covers(entries[j], key));
            assert(covers(now[j], key));
            lemma_excess_of(now, j, key);
            if covers(entries[i], key) {
                lemma_covers_unique(entries, i, j, key);
            }
        } else {
            if covered(now, key) {
                let k = index_of_key(now, key);
                assert(covers(now[k], key));
                assert(covers(entries[k], key));
            }
            if covers(entries[i], key) {
                assert(covered(entries, key));
            }
        }
    }
}

/// A span put where there was none adds its items.
proof fn lemma_fill_excess(entries: Seq<KVPair<DoubleDelete>>, i: int, new: KVPair<DoubleDelete>)
    requires
        rle_sorted(entries),
        new.span_ok(),
        0 <= i <= entries.len(),
        forall|j: int| 0 <= j < i ==> key_end(#[trigger] entries[j]) <= new.0,
        forall|j: int| i <= j < entries.len() ==> key_end(new) <= (#[trigger] entries[j]).0,
    ensures
        rle_sorted(entries.insert(i, new)),
        forall|key: int| #[trigger]
            excess(entries.insert(i, new), key) == excess(entries, key) + if covers(new, key) {
                new.1.excess_deletes as int
            } else {
                0
            },
{
    let now = entries.insert(i, new);
    assert forall|a: int| 0 <= a < now.len() implies (#[trigger] now[a]).span_ok() by {
        if a < i {
            assert(entries[a].span_ok());
        } else if a > i {
            assert(entries[a - 1].span_ok());
        }
    }
    assert forall|a: int, b: int| 0 <= a < b < now.len() implies key_end(#[trigger] now[a]) <= (
    #[trigger] now[b]).rle_key() by {
        if a == i {
            assert(key_end(new) <= entries[b - 1].0);
        } else if b == i {
            assert(key_end(entries[a]) <= new.0);
        } else {
            let a2 = if a < i { a } else { a - 1 };
            let b2 = if b < i { b } else { b - 1 };
            assert(key_end(entries[a2]) <= entries[b2].rle_key());
        }
    }
    assert forall|key: int| #[trigger] excess(now, key) == excess(entries, key) + if covers(
        new,
        key,
    ) {
        new.1.excess_deletes as int
    } else {
        0
    } by {
        if covers(new, key) {
            assert(covers(now[i], key));
            lemma_excess_of(now, i, key);
            if covered(entries, key) {
                let j = index_of_key(entries, key);
                assert(covers(entries[j], key));
            }
        } else if covered(entries, key) {
            let j = index_of_key(entries, key);
            assert(covers(entries[j], key));
            let k = if j < i { j } else { j + 1 };
            assert(covers(now[k], key));
            lemma_excess_of(now, k, key);
        } else if covered(now, key) {
            let k = index_of_key(now, key);
            assert(covers(now[k], key));
            let j = if k < i { k } else { k - 1 };
            assert(covers(entries[j], key));
        }
    }
}

impl Rle<KVPair<DoubleDelete>> {
    /// Notes that the items from `base` on were deleted once more.
    pub fn increment_delete_range(&mut self, base: Order, len: u32)
        requires
            old(self).wf(),
            base + len <= u32::MAX,
            forall|key: int|
                base <= key < base + len ==> #[trigger] excess(old(self)@, key) < u32::MAX,
        ensures
            final(self).wf(),
            forall|key: int| #[trigger]
                excess(final(self)@, key) == excess(old(self)@, key) + if base <= key < base + len {
                    1int
                } else {
                    0
                },
    {
        let end = base + len;
        let mut at = base;
        let ghost mut cut = false;
        while at < end
            invariant
                self.wf(),
                base <= at <= end,
                end == base + len,
                forall|key: int|
                    base <= key < end ==> #[trigger] excess(old(self)@, key) < u32::MAX,
                forall|key: int| #[trigger]
                    excess(self@, key) == excess(old(self)@, key) + if base <= key < at {
                        1int
                    } else {
                        0
                    },
                cut ==> exists|i: int|
                    0 <= i < self@.len() && (#[trigger] self@[i]).0 == at && covers(
                        self@[i],
                        at as int,
                    ),
            decreases
                end - at,
                if cut {
                    0int
                } else {
                    1
                },
        {
            let ghost was = self@;
            let n = self.0.len();
            match self.search(at) {
                Ok(i) => {
                    assert(was[i as int].span_ok());
                    let start = self.0[i].0;
                    let size = self.0[i].1.len;
                    if start < at {
                        proof {
                            if cut {
                                let j = choose|j: int|
                                    0 <= j < self@.len() && (#[trigger] self@[j]).0 == at
                                        && covers(self@[j], at as int);
                                lemma_covers_unique(was, i as int, j, at as int);
                            }
                            lemma_cut_excess(was, i as int, at - start);
                        }
                        let mut left = self.0[i];
                        let right = left.truncate((at - start) as usize);
                        self.0.set(i, left);
                        self.0.insert(i + 1, right);
                        proof {
                            cut = true;
                            assert(self@[i + 1].0 == at);
                            assert(covers(self@[i + 1], at as int));
                        }
                    } else {
                        let here = if end - at < size {
                            end - at
                        } else {
                            size
                        };
                        if here < size {
                            proof {
                                lemma_cut_excess(was, i as int, here as int);
                            }
                            let mut left = self.0[i];
                            let right = left.truncate(here as usize);
                            self.0.set(i, left);
                            self.0.insert(i + 1, right);
                        }
                        let ghost mid = self@;
                        proof {
                            assert(covers(mid[i as int], at as int));
                            lemma_excess_of(mid, i as int, at as int);
                            assert(excess(mid, at as int) == excess(was, at as int));
                            assert(excess(was, at as int) == excess(old(self)@, at as int));
                            lemma_raise_excess(mid, i as int);
                        }
                        let pair = self.0[i];
                        let raised = KVPair(
                            pair.0,
                            DoubleDelete {
                                len: pair.1.len,
                                excess_deletes: pair.1.excess_deletes + 1,
                            },
                        );
                        self.0.set(i, raised);
                        at = at + here;
                        proof {
                            cut = false;
                            assert forall|key: int| #[trigger]
                                excess(self@, key) == excess(old(self)@, key) + if base <= key
                                < at {
                                1int
                            } else {
                                0
                            } by {
                                assert(excess(mid, key) == excess(was, key));
                            }
                        }
                    }
                },
                Err(i) => {
                    let mut next = end;
                    if i < n && self.0[i].0 < end {
                        next = self.0[i].0;
                    }
                    let new = KVPair(at, DoubleDelete { len: next - at, excess_deletes: 1 });
                    proof {
                        assert forall|j: int| i <= j < was.len() implies key_end(new) <= (
                        #[trigger] was[j]).0 by {
                            assert(was[j].rle_key() > at);
                            if j > i {
                                assert(key_end(was[i as int]) <= was[j].rle_key());
                            }
                        }
                        lemma_fill_excess(was, i as int, new);
                        if cut {
                            let j = choose|j: int|
                                0 <= j < self@.len() && (#[trigger] self@[j]).0 == at && covers(
                                    self@[j],
                                    at as int,
                                );
                            assert(covered(was, at as int));
                        }
                    }
                    self.0.insert(i, new);
                    at = next;
                },
            }
        }
    }
}

} // verus!
