//! A list of keyed spans that grows at its end.

use crate::range_tree::entry::EntryTraits;
use crate::rle::{KVPair, RleKey, RleKeyed};
use crate::splitable_span::MergableSpan;
use vstd::prelude::*;

verus! {

/// A keyed span that keeps its key when another span is glued to its end.
pub trait RleSpan: MergableSpan + RleKeyed {
    proof fn lemma_joined_key(&self, other: &Self)
        requires
            self.span_ok(),
            other.span_ok(),
            self.appends(other),
        ensures
            self.joined(other).rle_key() == self.rle_key(),
            other.rle_key() == self.rle_key() + self.span_len(),
    ;
}

impl<V: MergableSpan> RleSpan for KVPair<V> {
    proof fn lemma_joined_key(&self, other: &Self) {
    }
}

/// The key behind the last item of a span.
pub open spec fn key_end<V: RleSpan>(entry: V) -> int {
    entry.rle_key() + entry.span_len()
}

/// The span holds the item with this key.
pub open spec fn covers<V: RleSpan>(entry: V, key: int) -> bool {
    entry.rle_key() <= key < key_end(entry)
}

/// Some span of the list holds the item with this key.
pub open spec fn covered<V: RleSpan>(entries: Seq<V>, key: int) -> bool {
    exists|i: int| 0 <= i < entries.len() && #[trigger] covers(entries[i], key)
}

/// The place in the list of the span that holds the item with this key.
pub open spec fn index_of_key<V: RleSpan>(entries: Seq<V>, key: int) -> int {
    choose|i: int| 0 <= i < entries.len() && #[trigger] covers(entries[i], key)
}

/// The spans are sound, and each ends before the next one starts.
pub open spec fn rle_sorted<V: RleSpan>(entries: Seq<V>) -> bool {
    &&& forall|i: int| 0 <= i < entries.len() ==> (#[trigger] entries[i]).span_ok()
    &&& forall|i: int, j: int|
        0 <= i < j < entries.len() ==> key_end(#[trigger] entries[i]) <= (
        #[trigger] entries[j]).rle_key()
}

/// The list with a span added at its end: glued to the last one if it continues it.
pub open spec fn rle_push<V: MergableSpan>(entries: Seq<V>, val: V) -> Seq<V> {
    if entries.len() > 0 && entries.last().appends(&val) {
        entries.update(entries.len() - 1, entries.last().joined(&val))
    } else {
        entries.push(val)
    }
}

/// The key behind the last item of the list.
pub open spec fn rle_end<V: RleSpan>(entries: Seq<V>) -> int {
    if entries.len() > 0 {
        key_end(entries.last())
    } else {
        0
    }
}

/// At most one span of a list holds the item with a given key.
pub proof fn lemma_covers_unique<V: RleSpan>(entries: Seq<V>, i: int, j: int, key: int)
    requires
        rle_sorted(entries),
        0 <= i < entries.len(),
        0 <= j < entries.len(),
        covers(entries[i], key),
        covers(entries[j], key),
    ensures
        i == j,
{
}

/// Adding a span at the end keeps the list sorted.
pub proof fn lemma_rle_push<V: RleSpan>(entries: Seq<V>, val: V)
    requires
        rle_sorted(entries),
        val.span_ok(),
        rle_end(entries) <= val.rle_key(),
        entries.len() > 0 && entries.last().appends(&val) ==> entries.last().span_len()
            + val.span_len() <= V::max_span_len(),
    ensures
        rle_sorted(rle_push(entries, val)),
        rle_end(rle_push(entries, val)) == val.rle_key() + val.span_len(),
{
    if entries.len() > 0 && entries.last().appends(&val) {
        entries.last().lemma_join(&val);
        entries.last().lemma_joined_key(&val);
    } else if entries.len() > 0 {
        assert forall|i: int| 0 <= i < entries.len() implies key_end(#[trigger] entries[i])
            <= val.rle_key() by {
            if i < entries.len() - 1 {
                assert(key_end(entries[i]) <= entries[entries.len() - 1].rle_key());
            }
        }
    }
}

/// The items of a list with a span added are the items of both.
pub proof fn lemma_rle_push_covered<V: RleSpan>(entries: Seq<V>, val: V, key: int)
    requires
        rle_sorted(entries),
        val.span_ok(),
        entries.len() > 0 && entries.last().appends(&val) ==> entries.last().span_len()
            + val.span_len() <= V::max_span_len(),
    ensures
        covered(rle_push(entries, val), key) == (covered(entries, key) || covers(val, key)),
{
    let pushed = rle_push(entries, val);
    let n = entries.len() as int;
    if n > 0 && entries.last().appends(&val) {
        entries.last().lemma_join(&val);
        entries.last().lemma_joined_key(&val);
        if covered(pushed, key) {
            let i = choose|i: int| 0 <= i < pushed.len() && #[trigger] covers(pushed[i], key);
            if i < n - 1 {
                assert(covers(entries[i], key));
            } else if !covers(val, key) {
                assert(covers(entries[n - 1], key));
            }
        }
        if covered(entries, key) {
            let i = choose|i: int| 0 <= i < n && #[trigger] covers(entries[i], key);
            assert(covers(pushed[i], key));
        }
        if covers(val, key) {
            assert(covers(pushed[n - 1], key));
        }
    } else {
        if covered(pushed, key) {
            let i = choose|i: int| 0 <= i < pushed.len() && #[trigger] covers(pushed[i], key);
            if i < n {
                assert(covers(entries[i], key));
            }
        }
        if covered(entries, key) {
            let i = choose|i: int| 0 <= i < n && #[trigger] covers(entries[i], key);
            assert(covers(pushed[i], key));
        }
        if covers(val, key) {
            assert(covers(pushed[n], key));
        }
    }
}

/// Where the items are found after a span was added: the span itself, or the last one with
/// the span glued to it, holds the new items, and the others are where they were.
pub proof fn lemma_rle_push_lookup<V: RleSpan>(entries: Seq<V>, val: V, key: int)
    requires
        rle_sorted(entries),
        val.span_ok(),
        rle_end(entries) <= val.rle_key(),
        entries.len() > 0 && entries.last().appends(&val) ==> entries.last().span_len()
            + val.span_len() <= V::max_span_len(),
    ensures
        ({
            let pushed = rle_push(entries, val);
            let now = pushed[index_of_key(pushed, key)];
            let was = entries[index_of_key(entries, key)];
            &&& covered(entries, key) ==> covers(was, key) && covers(now, key) && (now == was || (
            was.appends(&val) && was.span_ok() && now == was.joined(&val)))
            &&& covers(val, key) ==> covers(now, key) && (now == val || (entries.len() > 0
                && entries.last().appends(&val) && entries.last().span_ok() && now
                == entries.last().joined(&val)))
        }),
{
    let pushed = rle_push(entries, val);
    let n = entries.len() as int;
    lemma_rle_push(entries, val);
    let glued = n > 0 && entries.last().appends(&val);
    if n > 0 {
        assert(entries[n - 1].span_ok());
    }
    if glued {
        entries.last().lemma_join(&val);
        entries.last().lemma_joined_key(&val);
    }
    if covered(entries, key) {
        let i = index_of_key(entries, key);
        assert(covers(entries[i], key));
        assert(entries[i].span_ok());
        assert(covers(pushed[i], key));
        lemma_covers_unique(pushed, i, index_of_key(pushed, key), key);
    }
    if covers(val, key) {
        let i = pushed.len() - 1;
        assert(covers(pushed[i], key));
        lemma_covers_unique(pushed, i, index_of_key(pushed, key), key);
    }
}

/// A run-length encoded list.
#[derive(Clone, Debug, PartialEq, Eq)]
pub struct Rle<V>(pub Vec<V>);

impl<V> View for Rle<V> {
    type V = Seq<V>;

    open spec fn view(&self) -> Seq<V> {
        self.0@
    }
}

impl<V: RleSpan> Rle<V> {
    /// The list's spans are sound and sorted.
    pub open spec fn wf(&self) -> bool {
        rle_sorted(self@)
    }

    pub fn new() -> (list: Self)
        ensures
            list.wf(),
            list@ == Seq::<V>::empty(),
    {
        Rle(Vec::new())
    }

    /// Adds a span at the end, glued to the last one if it continues it.
    pub fn append(&mut self, val: V)
        requires
            old(self).wf(),
            val.span_ok(),
            rle_end(old(self)@) <= val.rle_key(),
            old(self)@.len() > 0 && old(self)@.last().appends(&val) ==> old(
                self,
            )@.last().span_len() + val.span_len() <= V::max_span_len(),
        ensures
            final(self).wf(),
            final(self)@ == rle_push(old(self)@, val),
    {
        proof {
            lemma_rle_push(self@, val);
        }
        let n = self.0.len();
        if n > 0 && self.0[n - 1].can_append(&val) {
            match self.0.pop() {
                Some(last) => {
                    let mut last = last;
                    proof {
                        last.lemma_append_ok(&val);
                    }
                    last.append(val);
                    self.0.push(last);
                },
                None => {},
            }
            assert(self@ =~= rle_push(old(self)@, val));
        } else {
            self.0.push(val);
        }
    }

    /// The last span.
    pub fn last(&self) -> (last: Option<&V>)
        ensures
            match last {
                Some(entry) => self@.len() > 0 && *entry == self@.last(),
                None => self@.len() == 0,
            },
    {
        let n = self.0.len();
        if n > 0 {
            Some(&self.0[n - 1])
        } else {
            None
        }
    }

    /// How many spans the list is stored in.
    pub fn num_entries(&self) -> (n: usize)
        ensures
            n == self@.len(),
    {
        self.0.len()
    }

    /// The place of the span that holds the item with this key, or where such a
    /// span would have to stand.
    pub fn search(&self, needle: RleKey) -> (place: Result<usize, usize>)
        requires
            self.wf(),
        ensures
            match place {
                Ok(i) => i < self@.len() && covers(self@[i as int], needle as int),
                Err(i) => {
                    &&& i <= self@.len()
                    &&& forall|j: int| 0 <= j < i ==> key_end(#[trigger] self@[j]) <= needle
                    &&& forall|j: int|
                        i <= j < self@.len() ==> (#[trigger] self@[j]).rle_key() > needle
                },
            },
            place is Ok <==> covered(self@, needle as int),
    {
        let mut lo: usize = 0;
        let mut hi: usize = self.0.len();
        while lo < hi
            invariant
                self.wf(),
                lo <= hi <= self@.len(),
                forall|j: int| 0 <= j < lo ==> key_end(#[trigger] self@[j]) <= needle,
                forall|j: int| hi <= j < self@.len() ==> (#[trigger] self@[j]).rle_key() > needle,
            decreases hi - lo,
        {
            let mid = lo + (hi - lo) / 2;
            let entry = &self.0[mid];
            let key = entry.get_rle_key();
            if needle < key {
                hi = mid;
            } else {
                assert(self@[mid as int].span_ok());
                let len = entry.len();
                if (needle - key) as usize >= len {
                    assert forall|j: int| 0 <= j < mid + 1 implies key_end(#[trigger] self@[j])
                        <= needle by {
                        if j < mid {
                            assert(key_end(self@[j]) <= self@[mid as int].rle_key());
                        }
                    }
                    lo = mid + 1;
                } else {
                    assert(covers(self@[mid as int], needle as int));
                    return Ok(mid);
                }
            }
        }
        assert forall|i: int| 0 <= i < self@.len() implies !(#[trigger] covers(
            self@[i],
            needle as int,
        )) by {
            if i < lo {
                assert(key_end(self@[i]) <= needle);
            } else {
                assert(self@[i].rle_key() > needle);
            }
        }
        Err(lo)
    }

    /// The span that holds the item with this key, and how far behind its first item
    /// that is.
    pub fn find(&self, needle: RleKey) -> (found: Option<(&V, RleKey)>)
        requires
            self.wf(),
        ensures
            match found {
                Some((entry, offset)) => {
                    &&& covered(self@, needle as int)
                    &&& *entry == self@[index_of_key(self@, needle as int)]
                    &&& covers(*entry, needle as int)
                    &&& offset == needle - entry.rle_key()
                },
                None => !covered(self@, needle as int),
            },
    {
        match self.search(needle) {
            Ok(i) => {
                proof {
                    let k = index_of_key(self@, needle as int);
                    lemma_covers_unique(self@, i as int, k, needle as int);
                }
                let entry = &self.0[i];
                Some((entry, needle - entry.get_rle_key()))
            },
            Err(_) => None,
        }
    }
}

/// The item with this key.
pub open spec fn item_of_key<V: EntryTraits>(entries: Seq<KVPair<V>>, key: int) -> V::Item {
    let entry = entries[index_of_key(entries, key)];
    entry.1.item_at(key - entry.0)
}

impl<V: EntryTraits> Rle<KVPair<V>> {
    /// The item with this key.
    pub fn get(&self, key: RleKey) -> (item: V::Item)
        requires
            self.wf(),
            covered(self@, key as int),
        ensures
            item == item_of_key(self@, key as int),
    {
        let (entry, offset) = self.find(key).unwrap();
        assert(self@[index_of_key(self@, key as int)].span_ok());
        proof {
            entry.1.lemma_reads_at(offset as int);
        }
        entry.1.at_offset(offset as usize)
    }
}

} // verus!
