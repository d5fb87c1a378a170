//! A gapless list of spans, indexed by item, in which ranges of items can be replaced.

use crate::range_tree::entry::EntryTraits;
use crate::rle::{KVPair, RleKeyed};
use crate::rle::simple_rle::{
    covered, covers, index_of_key, item_of_key, key_end, lemma_covers_unique, lemma_rle_push,
    rle_end, rle_push, rle_sorted, Rle,
};
use crate::splitable_span::{MergableSpan, SplitableSpan};
use vstd::prelude::*;

verus! {

/// A list of spans. The items of the spans are numbered through from 0.
#[derive(Clone, Debug, PartialEq, Eq)]
pub struct SplitList<V>(pub Rle<KVPair<V>>);

/// Every span starts where the one before it ends.
#[verifier::opaque]
pub open spec fn gapless<V: EntryTraits>(entries: Seq<KVPair<V>>) -> bool {
    &&& rle_sorted(entries)
    &&& forall|i: int| 0 <= i < entries.len() ==> (#[trigger] entries[i]).span_len() > 0
    &&& entries.len() > 0 ==> entries[0].0 == 0
    &&& forall|i: int, j: int|
        0 <= i && j == i + 1 && j < entries.len() ==> key_end(#[trigger] entries[i]) == (
        #[trigger] entries[j]).0
}

impl<V: EntryTraits> View for SplitList<V> {
    type V = Seq<V::Item>;

    /// The items in order.
    open spec fn view(&self) -> Seq<V::Item> {
        keyed_items(self.0@)
    }
}

/// The items of a list without gaps, in order.
pub open spec fn keyed_items<V: EntryTraits>(entries: Seq<KVPair<V>>) -> Seq<V::Item> {
    Seq::new(rle_end(entries) as nat, |k: int| item_of_key(entries, k))
}

/// The items of a span, in order.
pub open spec fn span_items<V: EntryTraits>(entry: V) -> Seq<V::Item> {
    Seq::new(entry.span_len(), |k: int| entry.item_at(k))
}

/// A gapless list is sorted, and its spans hold items.
proof fn lemma_gapless<V: EntryTraits>(entries: Seq<KVPair<V>>)
    requires
        gapless(entries),
    ensures
        rle_sorted(entries),
        forall|i: int|
            0 <= i < entries.len() ==> (#[trigger] entries[i]).span_ok() && entries[i].span_len()
                > 0,
{
    reveal(gapless);
}

/// In a gapless list every number below the end has its item.
proof fn lemma_gapless_covered<V: EntryTraits>(entries: Seq<KVPair<V>>, k: int)
    requires
        gapless(entries),
        0 <= k < rle_end(entries),
    ensures
        covered(entries, k),
        covers(entries[index_of_key(entries, k)], k),
        0 <= index_of_key(entries, k) < entries.len(),
    decreases entries.len(),
{
    reveal(gapless);
    let n = entries.len() - 1;
    let head = entries.take(n);
    if covers(entries[n], k) {
    } else {
        if n > 0 {
            assert(key_end(entries[n - 1]) == entries[n].0);
        }
        assert forall|i: int, j: int| 0 <= i < j < head.len() implies key_end(#[trigger] head[i])
            <= (#[trigger] head[j]).rle_key() by {
            assert(head[i] == entries[i]);
            assert(head[j] == entries[j]);
        }
        lemma_gapless_covered(head, k);
        let i = index_of_key(head, k);
        assert(covers(entries[i], k));
    }
}

/// The item of a span, found by its number.
proof fn lemma_item_of<V: EntryTraits>(entries: Seq<KVPair<V>>, i: int, k: int)
    requires
        rle_sorted(entries),
        0 <= i < entries.len(),
        covers(entries[i], k),
    ensures
        index_of_key(entries, k) == i,
        item_of_key(entries, k) == entries[i].1.item_at(k - entries[i].0),
{
    lemma_covers_unique(entries, i, index_of_key(entries, k), k);
}

/// A span added at the end adds its items.
proof fn lemma_push_items<V: EntryTraits>(was: Seq<KVPair<V>>, pair: KVPair<V>)
    requires
        gapless(was),
        pair.span_ok(),
        pair.span_len() > 0,
        pair.0 == rle_end(was),
        rle_end(was) + pair.span_len() <= V::max_span_len(),
    ensures
        gapless(rle_push(was, pair)),
        keyed_items(rle_push(was, pair)) == keyed_items(was) + span_items(pair.1),
{
    reveal(gapless);
    let now = rle_push(was, pair);
    let n = was.len() as int;
    let end = rle_end(was);
    let glued = n > 0 && was.last().appends(&pair);
    if n > 0 {
        assert(was[n - 1].span_ok());
    }
    if glued {
        was.last().1.lemma_join(&pair.1);
        assert(was[n - 1].span_len() > 0);
        was.last().1.lemma_join_items(&pair.1);
    }
    lemma_rle_push(was, pair);
    assert forall|i: int| 0 <= i < now.len() implies (#[trigger] now[i]).span_len() > 0 by {
        if i < n {
            assert(was[i].span_len() > 0);
        }
    }
    assert forall|i: int, j: int| 0 <= i && j == i + 1 && j < now.len() implies key_end(
        #[trigger] now[i],
    ) == (#[trigger] now[j]).0 by {
        if j < n {
            assert(key_end(was[i]) == was[j].0);
        }
    }
    let all = keyed_items(was) + span_items(pair.1);
    assert(keyed_items(now).len() == all.len());
    assert forall|k: int| 0 <= k < all.len() implies keyed_items(now)[k] == all[k] by {
        if k < end {
            lemma_gapless_covered(was, k);
            let i = index_of_key(was, k);
            assert(covers(now[i], k));
            lemma_item_of(now, i, k);
        } else {
            let last = now.len() - 1;
            assert(covers(now[last], k));
            lemma_item_of(now, last, k);
        }
    }
    assert(keyed_items(now) =~= all);
}

/// The first spans of a list hold its first items.
proof fn lemma_front_items<V: EntryTraits>(entries: Seq<KVPair<V>>, b: int)
    requires
        gapless(entries),
        0 <= b <= entries.len(),
    ensures
        rle_sorted(entries),
        b < entries.len() ==> entries[b].span_ok() && entries[b].span_len() > 0,
        gapless(entries.take(b)),
        0 <= rle_end(entries.take(b)) <= rle_end(entries),
        b < entries.len() ==> rle_end(entries.take(b)) == entries[b].0,
        keyed_items(entries.take(b)) == keyed_items(entries).take(rle_end(entries.take(b))),
{
    reveal(gapless);
    let front = entries.take(b);
    let end = rle_end(front);
    if 0 < b < entries.len() {
        assert(key_end(entries[b - 1]) == entries[b].0);
    }
    assert forall|i: int, j: int| 0 <= i < j < front.len() implies key_end(#[trigger] front[i])
        <= (#[trigger] front[j]).rle_key() by {
        assert(front[i] == entries[i]);
        assert(front[j] == entries[j]);
    }
    if b < entries.len() {
        assert(entries[b].span_len() > 0);
        if b < entries.len() - 1 {
            assert(key_end(entries[b]) <= entries[entries.len() - 1].rle_key());
        }
    } else {
        assert(front =~= entries);
    }
    assert forall|k: int| 0 <= k < end implies keyed_items(front)[k] == keyed_items(entries)[k] by {
        lemma_gapless_covered(front, k);
        let i = index_of_key(front, k);
        assert(covers(entries[i], k));
        lemma_item_of(entries, i, k);
    }
    assert(keyed_items(front) =~= keyed_items(entries).take(end));
}

/// The spans of a list from `b` on are gapless behind other spans that end where they
/// start.
proof fn lemma_back_gapless<V: EntryTraits>(
    entries: Seq<KVPair<V>>,
    b: int,
    front: Seq<KVPair<V>>,
)
    requires
        gapless(entries),
        0 <= b < entries.len(),
        gapless(front),
        rle_end(front) == entries[b].0,
    ensures
        gapless(front + entries.skip(b)),
{
    reveal(gapless);
    let all = front + entries.skip(b);
    let n = front.len() as int;
    lemma_front_items(entries, b);
    assert(all.last() == entries.last());
    assert forall|i: int| 0 <= i < all.len() implies (#[trigger] all[i]).span_ok() by {
        if i < n {
            assert(front[i].span_ok());
        } else {
            assert(entries[b + i - n].span_ok());
        }
    }
    assert forall|i: int, j: int| 0 <= i < j < all.len() implies key_end(#[trigger] all[i]) <= (
    #[trigger] all[j]).rle_key() by {
        if j < n {
            assert(key_end(front[i]) <= front[j].rle_key());
        } else if i >= n {
            assert(key_end(entries[b + i - n]) <= entries[b + j - n].rle_key());
        } else {
            if i < n - 1 {
                assert(key_end(front[i]) <= front[n - 1].rle_key());
            }
            if j > n {
                assert(key_end(entries[b]) <= entries[b + j - n].rle_key());
            }
        }
    }
    assert forall|i: int| 0 <= i < all.len() implies (#[trigger] all[i]).span_len() > 0 by {
        if i < n {
            assert(front[i].span_len() > 0);
        } else {
            assert(entries[b + i - n].span_len() > 0);
        }
    }
    assert forall|i: int, j: int| 0 <= i && j == i + 1 && j < all.len() implies key_end(
        #[trigger] all[i],
    ) == (#[trigger] all[j]).0 by {
        if j < n {
            assert(key_end(front[i]) == front[j].0);
        } else if i >= n {
            assert(key_end(entries[b + i - n]) == entries[b + j - n].0);
        }
    }
}

/// The spans of a list from `b` on, put behind other spans that end where they start.
proof fn lemma_back_items<V: EntryTraits>(
    entries: Seq<KVPair<V>>,
    b: int,
    front: Seq<KVPair<V>>,
)
    requires
        gapless(entries),
        0 <= b < entries.len(),
        gapless(front),
        rle_end(front) == entries[b].0,
    ensures
        gapless(front + entries.skip(b)),
        keyed_items(front + entries.skip(b)) == keyed_items(front) + keyed_items(entries).skip(
            rle_end(front),
        ),
{
    let all = front + entries.skip(b);
    let n = front.len() as int;
    let end = rle_end(front);
    lemma_back_gapless(entries, b, front);
    lemma_front_items(entries, b);
    lemma_gapless(all);
    lemma_gapless(front);
    assert(all.last() == entries.last());
    let both = keyed_items(front) + keyed_items(entries).skip(end);
    assert(keyed_items(all).len() == both.len());
    assert forall|k: int| 0 <= k < both.len() implies keyed_items(all)[k] == both[k] by {
        if k < end {
            lemma_gapless_covered(front, k);
            let i = index_of_key(front, k);
            assert(covers(all[i], k));
            lemma_item_of(all, i, k);
        } else {
            lemma_gapless_covered(entries, k);
            let i = index_of_key(entries, k);
            if i < b {
                assert(key_end(entries[i]) <= entries[b].rle_key());
            }
            assert(all[i - b + n] == entries[i]);
            assert(covers(all[i - b + n], k));
            lemma_item_of(all, i - b + n, k);
        }
    }
    assert(keyed_items(all) =~= both);
}

/// Cutting a span in two leaves the items as they are.
proof fn lemma_cut_span<V: EntryTraits>(entries: Seq<KVPair<V>>, i: int, at: int)
    requires
        gapless(entries),
        0 <= i < entries.len(),
        0 < at < entries[i].span_len(),
    ensures
        ({
            let now = entries.update(i, entries[i].left_of(at)).insert(
                i + 1,
                entries[i].right_of(at),
            );
            gapless(now) && keyed_items(now) == keyed_items(entries)
        }),
{
    let left = entries[i].left_of(at);
    let right = entries[i].right_of(at);
    let now = entries.update(i, left).insert(i + 1, right);
    lemma_front_items(entries, i);
    entries[i].1.lemma_split_items(at);
    entries[i].1.lemma_split(at);
    let head = entries.take(i).push(left);
    let both = head.push(right);
    lemma_extend(entries.take(i), left);
    assert(head.last() == left);
    lemma_extend(head, right);
    assert(both.last() == right);
    assert(rle_end(both) == key_end(entries[i]));
    assert(span_items(left.1) + span_items(right.1) =~= span_items(entries[i].1));
    if i + 1 < entries.len() {
        lemma_front_items(entries, i + 1);
        assert(entries.take(i + 1).last() == entries[i]);
        lemma_back_items(entries, i + 1, both);
        assert(now =~= both + entries.skip(i + 1));
    } else {
        assert(now =~= both);
    }
    lemma_extend(entries.take(i), entries[i]);
    assert(entries.take(i).push(entries[i]) =~= entries.take(i + 1));
    lemma_front_items(entries, i + 1);
    let front_items = keyed_items(entries.take(i));
    assert(keyed_items(both) =~= front_items + span_items(entries[i].1));
    if i + 1 == entries.len() {
        assert(entries.take(i + 1) =~= entries);
    } else {
        let end = rle_end(both);
        assert(keyed_items(entries) =~= keyed_items(entries).take(end) + keyed_items(entries).skip(
            end,
        ));
    }
}

/// A span pushed at the end adds its items.
proof fn lemma_extend<V: EntryTraits>(was: Seq<KVPair<V>>, pair: KVPair<V>)
    requires
        gapless(was),
        pair.span_ok(),
        pair.span_len() > 0,
        pair.0 == rle_end(was),
    ensures
        gapless(was.push(pair)),
        keyed_items(was.push(pair)) == keyed_items(was) + span_items(pair.1),
{
    reveal(gapless);
    let now = was.push(pair);
    let n = was.len() as int;
    let end = rle_end(was);
    assert forall|i: int, j: int| 0 <= i < j < now.len() implies key_end(#[trigger] now[i]) <= (
    #[trigger] now[j]).rle_key() by {
        if j < n {
            assert(key_end(was[i]) <= was[j].rle_key());
        } else if i < n - 1 {
            assert(key_end(was[i]) <= was[n - 1].rle_key());
        }
    }
    assert forall|i: int| 0 <= i < now.len() implies (#[trigger] now[i]).span_ok() by {
        if i < n {
            assert(was[i].span_ok());
        }
    }
    assert forall|i: int| 0 <= i < now.len() implies (#[trigger] now[i]).span_len() > 0 by {
        if i < n {
            assert(was[i].span_len() > 0);
        }
    }
    assert forall|i: int, j: int| 0 <= i && j == i + 1 && j < now.len() implies key_end(
        #[trigger] now[i],
    ) == (#[trigger] now[j]).0 by {
        if j < n {
            assert(key_end(was[i]) == was[j].0);
        }
    }
    let all = keyed_items(was) + span_items(pair.1);
    assert(keyed_items(now).len() == all.len());
    assert forall|k: int| 0 <= k < all.len() implies keyed_items(now)[k] == all[k] by {
        if k < end {
            lemma_gapless_covered(was, k);
            let i = index_of_key(was, k);
            assert(covers(now[i], k));
            lemma_item_of(now, i, k);
        } else {
            assert(covers(now[n], k));
            lemma_item_of(now, n, k);
        }
    }
    assert(keyed_items(now) =~= all);
}

impl<V: EntryTraits> SplitList<V> {
    /// The list is gapless.
    pub open spec fn wf(&self) -> bool {
        gapless(self.0@)
    }

    /// A list without items.
    pub fn new() -> (list: Self)
        ensures
            list.wf(),
            list@ == Seq::<V::Item>::empty(),
    {
        let list = SplitList(Rle::new());
        reveal(gapless);
        assert(list@ =~= Seq::<V::Item>::empty());
        list
    }

    /// The span that holds the item with a number.
    pub fn entry_at(&self, pos: usize) -> (entry: V)
        requires
            self.wf(),
            pos < self@.len(),
        ensures
            covers(self.0@[index_of_key(self.0@, pos as int)], pos as int),
            entry == self.0@[index_of_key(self.0@, pos as int)].1,
            self@[pos as int] == entry.item_at(
                pos - self.0@[index_of_key(self.0@, pos as int)].0,
            ),
    {
        proof {
            lemma_gapless(self.0@);
            lemma_gapless_covered(self.0@, pos as int);
            assert(self.0@[index_of_key(self.0@, pos as int)].span_ok());
        }
        let (entry, _) = self.0.find(pos as u32).unwrap();
        entry.1
    }

    /// The last span.
    pub fn last(&self) -> (last: Option<V>)
        requires
            self.wf(),
        ensures
            match last {
                Some(entry) => {
                    &&& self@.len() > 0
                    &&& self.0@.len() > 0
                    &&& entry == self.0@.last().1
                    &&& entry.span_len() <= self@.len()
                    &&& forall|k: int|
                        0 <= k < entry.span_len() ==> self@[self@.len() - entry.span_len() + k]
                            == #[trigger] entry.item_at(k)
                },
                None => self@.len() == 0,
            },
    {
        proof {
            lemma_gapless(self.0@);
        }
        match self.0.last() {
            Some(pair) => {
                proof {
                    let n = self.0@.len() - 1;
                    assert(self.0@[n].span_len() > 0);
                    assert forall|k: int| 0 <= k < pair.1.span_len() implies self@[self@.len()
                        - pair.1.span_len() + k] == #[trigger] pair.1.item_at(k) by {
                        lemma_item_of(self.0@, n, self@.len() - pair.1.span_len() + k);
                    }
                }
                Some(pair.1)
            },
            None => None,
        }
    }

    /// Adds a span at the end, glued to the last one if it continues it. A span without
    /// items adds nothing.
    pub fn append_entry(&mut self, entry: V)
        requires
            old(self).wf(),
            entry.span_ok(),
            old(self)@.len() + entry.span_len() <= V::max_span_len(),
        ensures
            final(self).wf(),
            final(self)@ == old(self)@ + span_items(entry),
    {
        let ghost was = self.0@;
        let ghost end = rle_end(was);
        proof {
            lemma_gapless(was);
            entry.lemma_len_bound();
        }
        if entry.len() == 0 {
            assert(self@ =~= old(self)@ + span_items(entry));
            return;
        }
        let start: u32 = match self.0.last() {
            Some(last) => {
                assert(was[was.len() - 1].span_ok());
                last.end()
            },
            None => 0,
        };
        let pair = KVPair(start, entry);
        proof {
            if was.len() > 0 {
                assert(was.last() == was[was.len() - 1]);
                assert(was.last().span_ok());
                if was.last().appends(&pair) {
                    was.last().1.lemma_join(&entry);
                    was.last().1.lemma_join_items(&entry);
                }
            }
        }
        proof {
            lemma_push_items(was, pair);
        }
        self.0.append(pair);
    }

    /// Cuts the span that holds the item with a number, so that a span starts with it.
    /// Gives back where that span is; behind the last item, where it would be.
    fn split_at(&mut self, pos: usize) -> (idx: usize)
        requires
            old(self).wf(),
            pos <= old(self)@.len(),
            pos <= u32::MAX,
        ensures
            final(self).wf(),
            final(self)@ == old(self)@,
            idx <= final(self).0@.len(),
            rle_end(final(self).0@.take(idx as int)) == pos,
    {
        let ghost was = self.0@;
        proof {
            lemma_gapless(was);
        }
        match self.0.search(pos as u32) {
            Ok(i) => {
                proof {
                    assert(was[i as int].span_ok());
                    lemma_front_items(was, i as int);
                }
                let start = self.0.0[i].0;
                let off = pos - start as usize;
                if off == 0 {
                    i
                } else {
                    proof {
                        was[i as int].1.lemma_split_items(off as int);
                        was[i as int].1.lemma_split(off as int);
                        was[i as int].lemma_can_cut(off as int);
                        lemma_cut_span(was, i as int, off as int);
                    }
                    let n = self.0.0.len();
                    assert(i + 1 <= n);
                    let mut left = self.0.0[i];
                    let right = left.truncate(off);
                    self.0.0.set(i, left);
                    self.0.0.insert(i + 1, right);
                    proof {
                        let now = self.0@;
                        assert(now.take(i + 1).last() == left);
                    }
                    i + 1
                }
            },
            Err(i) => {
                proof {
                    if pos < self@.len() {
                        lemma_gapless_covered(was, pos as int);
                    }
                    if i < was.len() {
                        let n = was.len() - 1;
                        assert(was[n].rle_key() > pos);
                    }
                    assert(was.take(i as int) =~= was);
                }
                i
            },
        }
    }

    /// Replaces the items from a number on by those of a span. The list grows where the
    /// span reaches beyond its end.
    #[verifier::rlimit(30)]
    pub fn replace_range(&mut self, pos: usize, entry: V)
        requires
            old(self).wf(),
            pos <= old(self)@.len(),
            entry.span_ok(),
            pos + entry.span_len() <= V::max_span_len(),
        ensures
            final(self).wf(),
            final(self)@ == replaced(old(self)@, pos as int, span_items(entry)),
    {
        let ghost was = self@;
        proof {
            lemma_gapless(self.0@);
            entry.lemma_len_bound();
        }
        let end: usize = pos + entry.len();
        let total = match self.0.last() {
            Some(last) => {
                assert(self.0@[self.0@.len() - 1].span_ok());
                last.end() as usize
            },
            None => 0,
        };
        if end >= total {
            let a = self.split_at(pos);
            proof {
                lemma_front_items(self.0@, a as int);
            }
            self.0.0.truncate(a);
            self.append_entry(entry);
            assert(self@ =~= replaced(was, pos as int, span_items(entry)));
        } else {
            let b = self.split_at(end);
            let ghost all = self.0@;
            proof {
                lemma_front_items(all, b as int);
                assert(all.take(all.len() as int) =~= all);
            }
            let mut tail = self.0.0.split_off(b);
            assert(self.0@ =~= all.take(b as int));
            assert(tail@ =~= all.skip(b as int));
            let a = self.split_at(pos);
            proof {
                lemma_front_items(self.0@, a as int);
            }
            self.0.0.truncate(a);
            self.append_entry(entry);
            proof {
                assert(self@.len() == end);
                assert(b < all.len());
                assert(rle_end(self.0@) == all[b as int].0);
                lemma_back_items(all, b as int, self.0@);
            }
            self.0.0.append(&mut tail);
            proof {
                assert(keyed_items(all) == was);
                assert(self@ =~= replaced(was, pos as int, span_items(entry)));
            }
        }
    }

    /// Whether every span holds items and starts where the one before it ends.
    pub fn check(&self) -> (ok: bool)
        requires
            forall|i: int| 0 <= i < self.0@.len() ==> (#[trigger] self.0@[i]).span_ok(),
        ensures
            ok == self.wf(),
    {
        reveal(gapless);
        let mut i: usize = 0;
        let mut end: u32 = 0;
        assert(self.0@.take(0) =~= Seq::empty());
        while i < self.0.0.len()
            invariant
                forall|i: int| 0 <= i < self.0@.len() ==> (#[trigger] self.0@[i]).span_ok(),
                i <= self.0@.len(),
                end == rle_end(self.0@.take(i as int)),
                gapless(self.0@.take(i as int)),
            decreases self.0@.len() - i,
        {
            let pair = &self.0.0[i];
            assert(self.0@[i as int].span_ok());
            if pair.0 != end || pair.1.len() == 0 {
                assert(!gapless(self.0@)) by {
                    reveal(gapless);
                    assert(*pair == self.0@[i as int]);
                    if i > 0 {
                        assert(key_end(self.0@[i - 1]) == end);
                    }
                }
                return false;
            }
            proof {
                let front = self.0@.take(i as int);
                lemma_extend(front, *pair);
                assert(self.0@.take(i + 1) =~= front.push(*pair));
            }
            end = pair.end();
            i = i + 1;
        }
        assert(self.0@.take(i as int) =~= self.0@);
        true
    }
}

/// A row with the items from `pos` on replaced by others; beyond its end the row grows.
pub open spec fn replaced<T>(row: Seq<T>, pos: int, items: Seq<T>) -> Seq<T> {
    row.take(pos) + items + if pos + items.len() < row.len() {
        row.skip(pos + items.len())
    } else {
        Seq::empty()
    }
}

} // verus!
