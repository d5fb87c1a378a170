//! Deleting items of a tree. A deleted item stays in its place, in an entry that is no
//! longer active.

use crate::list::Order;
use crate::list::span::YjsSpan;
use crate::range_tree::cursor::{Cursor, Place};
use crate::range_tree::delete_result::{extend_delete, extended, DeleteResult};
use crate::range_tree::entry::EntryTraits;
use crate::range_tree::homes::{distinct, has_item, holds, lemma_noted_add, noted};
use crate::range_tree::index::TreeIndex;
use crate::range_tree::mutations::{
    cut_entry, lemma_items_len_insert, lemma_items_len_update, notes_ok,
};
use crate::range_tree::node::LeafPtr;
use crate::range_tree::runs::{
    content_num, entries_ok, entry_ok, items_len, lemma_items_len_add, lemma_items_len_one,
    lemma_measure_add, lemma_measure_one, lemma_total_bound, lemma_total_nonneg, measure,
};
use crate::range_tree::tree::RangeTree;
use crate::splitable_span::{glues, MergableSpan, SplitableSpan};
use vstd::prelude::*;

verus! {

/// What a deletion leaves of a row of entries, and the spans that it deleted.
pub struct Deletion {
    pub entries: Seq<YjsSpan>,
    pub taken: Seq<YjsSpan>,
}

/// The row of entries with the first `n` items of the entry `g` deleted.
pub open spec fn front_deactivated(entries: Seq<YjsSpan>, g: int, n: int) -> Seq<YjsSpan> {
    if n < entries[g].span_len() {
        entries.update(g, entries[g].left_of(n).deactivated()).insert(
            g + 1,
            entries[g].right_of(n),
        )
    } else {
        entries.update(g, entries[g].deactivated())
    }
}

/// Deletes the first `n` visible items right of a place.
pub open spec fn deactivated_from(entries: Seq<YjsSpan>, p: Place, n: int) -> Deletion
    decreases n, entries.len() - p.entry, p.offset,
{
    if n <= 0 || !(0 <= p.entry < entries.len()) {
        Deletion { entries, taken: Seq::empty() }
    } else {
        let entry = entries[p.entry];
        if p.offset >= entry.span_len() || !entry.active() {
            deactivated_from(entries, Place { entry: p.entry + 1, offset: 0 }, n)
        } else if p.offset > 0 {
            deactivated_from(
                cut_entry(entries, p.entry, p.offset),
                Place { entry: p.entry + 1, offset: 0 },
                n,
            )
        } else if n < entry.span_len() {
            Deletion {
                entries: front_deactivated(entries, p.entry, n),
                taken: seq![entry.left_of(n)],
            }
        } else {
            let rest = deactivated_from(
                front_deactivated(entries, p.entry, n),
                p,
                n - entry.span_len(),
            );
            Deletion { entries: rest.entries, taken: seq![entry] + rest.taken }
        }
    }
}

/// A list of spans, each glued to the one before it where it continues it.
pub open spec fn gathered(spans: Seq<YjsSpan>) -> Seq<YjsSpan>
    decreases spans.len(),
{
    if spans.len() == 0 {
        Seq::empty()
    } else {
        extended(gathered(spans.drop_last()), spans.last())
    }
}

/// How many visible items are right of a place.
pub open spec fn content_after(entries: Seq<YjsSpan>, p: Place) -> int {
    if p.entry < entries.len() {
        (if entries[p.entry].active() {
            entries[p.entry].span_len() - p.offset
        } else {
            0
        }) + measure(entries.skip(p.entry + 1), content_num())
    } else {
        0
    }
}

/// The items of a span.
pub proof fn lemma_has_order(entry: YjsSpan, x: Order)
    requires
        entry.span_ok(),
    ensures
        has_item(entry, x) == (entry.order <= x < entry.order + entry.span_len()),
{
    if entry.order <= x < entry.order + entry.span_len() {
        assert(entry.item_at(x - entry.order) == x);
    }
    if has_item(entry, x) {
        let k = choose|k: int| 0 <= k < entry.span_len() && #[trigger] entry.item_at(k) == x;
        assert(entry.item_at(k) == entry.order + k);
    }
}

/// An item of a run is an item of one of its two parts.
proof fn lemma_part_of(whole: YjsSpan, left: YjsSpan, right: YjsSpan, x: Order)
    requires
        whole.span_ok(),
        left.span_ok(),
        right.span_ok(),
        left.order == whole.order,
        right.order == left.order + left.span_len(),
        left.span_len() + right.span_len() == whole.span_len(),
    ensures
        has_item(whole, x) == (has_item(left, x) || has_item(right, x)),
        !(has_item(left, x) && has_item(right, x)),
{
    lemma_has_order(whole, x);
    lemma_has_order(left, x);
    lemma_has_order(right, x);
}

/// Two entries in the place of one that held their items hold the same items together.
proof fn lemma_parts_items(entries: Seq<YjsSpan>, g: int, left: YjsSpan, right: YjsSpan)
    requires
        entries_ok(entries),
        0 <= g < entries.len(),
        left.span_ok(),
        right.span_ok(),
        left.order == entries[g].order,
        right.order == left.order + left.span_len(),
        left.span_len() + right.span_len() == entries[g].span_len(),
    ensures
        forall|x: Order| #[trigger]
            holds(entries.update(g, left).insert(g + 1, right), x) == holds(entries, x),
        distinct(entries) ==> distinct(entries.update(g, left).insert(g + 1, right)),
{
    let now = entries.update(g, left).insert(g + 1, right);
    let whole = entries[g];
    assert(entry_ok(whole));
    assert forall|x: Order| #[trigger] holds(now, x) == holds(entries, x) by {
        lemma_part_of(whole, left, right, x);
        if holds(entries, x) {
            let i = choose|i: int| 0 <= i < entries.len() && #[trigger] has_item(entries[i], x);
            if i < g {
                assert(has_item(now[i], x));
            } else if i > g {
                assert(has_item(now[i + 1], x));
            } else {
                assert(has_item(now[g], x) || has_item(now[g + 1], x));
            }
        }
        if holds(now, x) {
            let i = choose|i: int| 0 <= i < now.len() && #[trigger] has_item(now[i], x);
            if i < g {
                assert(has_item(entries[i], x));
            } else if i > g + 1 {
                assert(has_item(entries[i - 1], x));
            } else {
                assert(now[i] == left || now[i] == right);
                assert(has_item(entries[g], x));
            }
        }
    }
    if distinct(entries) {
        assert forall|i: int, j: int, x: Order|
            0 <= i < now.len() && 0 <= j < now.len() && #[trigger] has_item(now[i], x)
                && #[trigger] has_item(now[j], x) implies i == j by {
            let i2 = if i <= g { i } else { i - 1 };
            let j2 = if j <= g { j } else { j - 1 };
            lemma_part_of(whole, left, right, x);
            assert(now[i] == if i == g {
                left
            } else if i == g + 1 {
                right
            } else {
                entries[i2]
            });
            assert(now[j] == if j == g {
                left
            } else if j == g + 1 {
                right
            } else {
                entries[j2]
            });
            assert(has_item(entries[i2], x));
            assert(has_item(entries[j2], x));
        }
    }
}

/// An entry in the place of one with the same items changes no items.
proof fn lemma_same_items(entries: Seq<YjsSpan>, g: int, entry: YjsSpan)
    requires
        entries_ok(entries),
        0 <= g < entries.len(),
        entry.span_ok(),
        entry.order == entries[g].order,
        entry.span_len() == entries[g].span_len(),
    ensures
        forall|x: Order| #[trigger] holds(entries.update(g, entry), x) == holds(entries, x),
        distinct(entries) ==> distinct(entries.update(g, entry)),
        forall|x: Order| #[trigger] has_item(entry, x) == has_item(entries[g], x),
{
    let now = entries.update(g, entry);
    assert(entry_ok(entries[g]));
    assert forall|x: Order| #[trigger] has_item(entry, x) == has_item(entries[g], x) by {
        lemma_has_order(entry, x);
        lemma_has_order(entries[g], x);
    }
    assert forall|x: Order| #[trigger] holds(now, x) == holds(entries, x) by {
        if holds(entries, x) {
            let i = choose|i: int| 0 <= i < entries.len() && #[trigger] has_item(entries[i], x);
            assert(has_item(now[i], x));
        }
        if holds(now, x) {
            let i = choose|i: int| 0 <= i < now.len() && #[trigger] has_item(now[i], x);
            assert(has_item(entries[i], x));
        }
    }
    if distinct(entries) {
        assert forall|i: int, j: int, x: Order|
            0 <= i < now.len() && 0 <= j < now.len() && #[trigger] has_item(now[i], x)
                && #[trigger] has_item(now[j], x) implies i == j by {
            assert(has_item(entries[i], x));
            assert(has_item(entries[j], x));
        }
    }
}

/// Deleting the first items of an entry changes no items.
pub proof fn lemma_front_items(entries: Seq<YjsSpan>, g: int, n: int)
    requires
        entries_ok(entries),
        0 <= g < entries.len(),
        entries[g].active(),
        0 < n,
    ensures
        entries_ok(front_deactivated(entries, g, n)),
        items_len(front_deactivated(entries, g, n)) == items_len(entries),
        forall|x: Order| #[trigger]
            holds(front_deactivated(entries, g, n), x) == holds(entries, x),
        distinct(entries) ==> distinct(front_deactivated(entries, g, n)),
{
    assert(entry_ok(entries[g]));
    let now = front_deactivated(entries, g, n);
    if n < entries[g].span_len() {
        let left = entries[g].left_of(n).deactivated();
        let right = entries[g].right_of(n);
        lemma_parts_items(entries, g, left, right);
        lemma_items_len_update(entries, g, left);
        lemma_items_len_insert(entries.update(g, left), g + 1, right);
        assert forall|i: int| 0 <= i < now.len() implies entry_ok(#[trigger] now[i]) by {
            if i < g {
                assert(entry_ok(entries[i]));
            } else if i > g + 1 {
                assert(entry_ok(entries[i - 1]));
            }
        }
    } else {
        lemma_same_items(entries, g, entries[g].deactivated());
        lemma_items_len_update(entries, g, entries[g].deactivated());
        assert forall|i: int| 0 <= i < now.len() implies entry_ok(#[trigger] now[i]) by {
            assert(entry_ok(entries[i]));
        }
    }
}

/// Cutting an entry changes no items.
pub proof fn lemma_cut_items(entries: Seq<YjsSpan>, g: int, at: int)
    requires
        entries_ok(entries),
        0 <= g < entries.len(),
        0 < at < entries[g].span_len(),
    ensures
        entries_ok(cut_entry(entries, g, at)),
        items_len(cut_entry(entries, g, at)) == items_len(entries),
        forall|x: Order| #[trigger] holds(cut_entry(entries, g, at), x) == holds(entries, x),
        distinct(entries) ==> distinct(cut_entry(entries, g, at)),
{
    assert(entry_ok(entries[g]));
    let left = entries[g].left_of(at);
    let right = entries[g].right_of(at);
    let now = cut_entry(entries, g, at);
    lemma_parts_items(entries, g, left, right);
    lemma_items_len_update(entries, g, left);
    lemma_items_len_insert(entries.update(g, left), g + 1, right);
    assert forall|i: int| 0 <= i < now.len() implies entry_ok(#[trigger] now[i]) by {
        if i < g {
            assert(entry_ok(entries[i]));
        } else if i > g + 1 {
            assert(entry_ok(entries[i - 1]));
        }
    }
}

impl<I: TreeIndex<YjsSpan>> RangeTree<YjsSpan, I> {
    /// The tree has the items of `before`, and `notes` tell which of them are in another
    /// leaf than before.
    pub open spec fn rearranged(
        &self,
        before: Self,
        notes: Seq<(YjsSpan, LeafPtr)>,
    ) -> bool {
        &&& forall|x: Order| #[trigger] holds(self@, x) == holds(before@, x)
        &&& distinct(before@) ==> distinct(self@)
        &&& notes_ok(notes, self@)
        &&& forall|record: spec_fn(Order) -> LeafPtr| #[trigger]
            before.homes(record) && distinct(before@) ==> self.homes(noted(record, notes))
    }

    /// Notes of one rearrangement and of the next one are notes of both.
    proof fn lemma_rearranged(
        &self,
        mid: Self,
        before: Self,
        notes: Seq<(YjsSpan, LeafPtr)>,
        more: Seq<(YjsSpan, LeafPtr)>,
    )
        requires
            mid.rearranged(before, notes),
            self.rearranged(mid, more),
        ensures
            self.rearranged(before, notes + more),
    {
        let all = notes + more;
        assert forall|x: Order| #[trigger] holds(self@, x) == holds(before@, x) by {
            assert(holds(self@, x) == holds(mid@, x));
        }
        assert forall|j: int| 0 <= j < all.len() implies entry_ok((#[trigger] all[j]).0) by {
            if j < notes.len() {
                assert(entry_ok(notes[j].0));
            } else {
                assert(entry_ok(more[j - notes.len()].0));
            }
        }
        assert forall|j: int, x: Order|
            0 <= j < all.len() && #[trigger] has_item(all[j].0, x) implies holds(self@, x) by {
            if j < notes.len() {
                assert(has_item(notes[j].0, x));
                assert(holds(self@, x) == holds(mid@, x));
            } else {
                assert(has_item(more[j - notes.len()].0, x));
            }
        }
        assert forall|record: spec_fn(Order) -> LeafPtr| #[trigger]
            before.homes(record) && distinct(before@) implies self.homes(noted(record, all)) by {
            lemma_noted_add(record, notes, more);
            assert(mid.homes(noted(record, notes)));
        }
    }

    /// Nothing to note where every leaf keeps its items.
    proof fn lemma_rearranged_in_place(&self, before: Self)
        requires
            self.leaves@.len() == before.leaves@.len(),
            forall|l: int, x: Order|
                0 <= l < self.leaves@.len() && #[trigger] holds(self.leaves@[l].entries(), x)
                    ==> holds(before.leaves@[l].entries(), x),
            forall|x: Order| #[trigger] holds(self@, x) == holds(before@, x),
            distinct(before@) ==> distinct(self@),
        ensures
            self.rearranged(before, Seq::empty()),
    {
        assert forall|record: spec_fn(Order) -> LeafPtr| #[trigger]
            before.homes(record) && distinct(before@) implies self.homes(
            noted::<YjsSpan>(record, Seq::empty()),
        ) by {
            assert(noted::<YjsSpan>(record, Seq::empty()) == record);
            assert forall|l: int, x: Order|
                0 <= l < self.leaves@.len() && #[trigger] holds(
                    self.leaves@[l].entries(),
                    x,
                ) implies record(x) == LeafPtr(l as usize) by {
                assert(holds(before.leaves@[l].entries(), x));
            }
        }
    }

    /// Nothing to note where an entry was replaced by one with the same items.
    proof fn lemma_rearranged_same_items(&self, before: Self, c: Cursor, entry: YjsSpan)
        requires
            before.shape_ok(),
            before.leaves_ok(),
            before.cursor_ok(c),
            before@.len() > 0,
            entry.span_ok(),
            entry.order == before@[before.place(c).entry].order,
            entry.span_len() == before@[before.place(c).entry].span_len(),
            self@ == before@.update(before.place(c).entry, entry),
            self.leaves@.len() == before.leaves@.len(),
            self.leaves@[c.node.0 as int].entries()
                == before.leaves@[c.node.0 as int].entries().update(c.idx as int, entry),
            forall|x: int|
                0 <= x < self.leaves@.len() && x != c.node.0 ==> #[trigger] self.leaves@[x]
                    == before.leaves@[x],
        ensures
            self.rearranged(before, Seq::empty()),
    {
        before.lemma_place(c);
        before.lemma_entries_ok();
        lemma_same_items(before@, before.place(c).entry, entry);
        assert forall|l: int, x: Order|
            0 <= l < self.leaves@.len() && #[trigger] holds(
                self.leaves@[l].entries(),
                x,
            ) implies holds(before.leaves@[l].entries(), x) by {
            let part = self.leaves@[l].entries();
            let was = before.leaves@[l].entries();
            let j = choose|j: int| 0 <= j < part.len() && #[trigger] has_item(part[j], x);
            if l == c.node.0 && j == c.idx {
                assert(has_item(entry, x));
            }
            assert(has_item(was[j], x));
        }
        self.lemma_rearranged_in_place(before);
    }

    /// Deletes the first `n` items of the active entry at whose start the cursor is.
    fn deactivate_front(&mut self, cursor: Cursor, n: usize) -> (notes: Vec<(YjsSpan, LeafPtr)>)
        requires
            old(self).wf(),
            old(self).cursor_ok(cursor),
            old(self)@.len() > 0,
            cursor.offset == 0,
            old(self)@[old(self).place(cursor).entry].active(),
            0 < n <= old(self)@[old(self).place(cursor).entry].span_len(),
            items_len(old(self)@) <= u32::MAX,
        ensures
            final(self).wf(),
            final(self)@ == front_deactivated(
                old(self)@,
                old(self).place(cursor).entry,
                n as int,
            ),
            final(self).rearranged(*old(self), notes@),
    {
        let ghost g = self.place(cursor).entry;
        proof {
            self.lemma_place(cursor);
            self.lemma_entries_ok();
            assert(entry_ok(self@[g]));
            lemma_front_items(self@, g, n as int);
            lemma_items_len_update(self@, g, self@[g]);
            assert(self.leaves@[cursor.node.0 as int].sound());
        }
        let mut entry = cursor.get_entry(self);
        if n < entry.len() {
            let rest = entry.truncate(n);
            entry.mark_deactivated();
            let (_, notes) = self.replace_by_parts(cursor, entry, rest);
            notes
        } else {
            entry.mark_deactivated();
            self.set_entry(cursor.node, cursor.idx, entry);
            let notes: Vec<(YjsSpan, LeafPtr)> = Vec::new();
            proof {
                self.lemma_rearranged_same_items(*old(self), cursor, entry);
                assert(notes@ =~= Seq::empty());
            }
            notes
        }
    }

    /// Deletes the items right of the cursor, up to the end of the entry that holds them,
    /// and no more than `max_len` of them. Gives back how many there were, negative if
    /// they had been deleted before.
    pub fn remote_deactivate(&mut self, cursor: Cursor, max_len: usize) -> (res: (
        isize,
        Vec<(YjsSpan, LeafPtr)>,
    ))
        requires
            old(self).wf(),
            old(self).cursor_ok(cursor),
            old(self)@.len() > 0,
            cursor.offset < old(self)@[old(self).place(cursor).entry].span_len(),
            0 < max_len,
            items_len(old(self)@) <= u32::MAX,
        ensures
            final(self).wf(),
            ({
                let p = old(self).place(cursor);
                let entry = old(self)@[p.entry];
                let n = run_taken(entry, p.offset, max_len as int);
                &&& res.0 == if entry.active() {
                    n
                } else {
                    -n
                }
                &&& final(self)@ == run_deactivated(old(self)@, p, n)
            }),
            final(self).rearranged(*old(self), res.1@),
    {
        let ghost p = self.place(cursor);
        proof {
            self.lemma_place(cursor);
            self.lemma_entries_ok();
            assert(entry_ok(self@[p.entry]));
            self@[p.entry].lemma_len_bound();
        }
        let entry = cursor.get_entry(self);
        let left: usize = entry.len() - cursor.offset;
        let n = if max_len < left {
            max_len
        } else {
            left
        };
        let mut notes: Vec<(YjsSpan, LeafPtr)> = Vec::new();
        if !entry.is_activated() {
            proof {
                self.lemma_rearranged_in_place(*old(self));
                assert(notes@ =~= Seq::empty());
            }
            return (-(n as isize), notes);
        }
        let mut at = cursor;
        if at.offset > 0 {
            proof {
                lemma_cut_items(self@, p.entry, p.offset);
            }
            let (right, moved) = self.split_entry(at);
            at = right;
            notes = moved;
        } else {
            proof {
                self.lemma_rearranged_in_place(*old(self));
                assert(notes@ =~= Seq::empty());
            }
        }
        let ghost mid = *self;
        let ghost moved = notes@;
        let mut more = self.deactivate_front(at, n);
        let ghost new = more@;
        notes.append(&mut more);
        proof {
            self.lemma_rearranged(mid, *old(self), moved, new);
            assert(notes@ =~= moved + new);
        }
        (n as isize, notes)
    }

    /// Deletes the first `len` visible items right of the cursor. Gives back what was
    /// deleted, and which entries are in another leaf than before.
    #[verifier::rlimit(60)]
    pub fn local_deactivate(&mut self, cursor: Cursor, len: usize) -> (res: (
        DeleteResult,
        Vec<(YjsSpan, LeafPtr)>,
    ))
        requires
            old(self).wf(),
            old(self).cursor_ok(cursor),
            old(self)@.len() > 0,
            content_after(old(self)@, old(self).place(cursor)) >= len,
            items_len(old(self)@) <= u32::MAX,
        ensures
            final(self).wf(),
            ({
                let d = deactivated_from(old(self)@, old(self).place(cursor), len as int);
                &&& final(self)@ == d.entries
                &&& res.0@ == gathered(d.taken)
            }),
            final(self).rearranged(*old(self), res.1@),
    {
        let ghost whole = deactivated_from(self@, self.place(cursor), len as int);
        let mut result = DeleteResult::new();
        let mut notes: Vec<(YjsSpan, LeafPtr)> = Vec::new();
        let ghost mut done = Seq::<YjsSpan>::empty();
        let mut at = cursor;
        let mut remaining = len;
        let mut marker = I::zero_update();
        proof {
            self.lemma_nothing_pending(self.shape@.rank[at.node.0 as int]);
            self.lemma_rearranged_in_place(*old(self));
            assert(notes@ =~= Seq::empty());
            self.lemma_place(at);
            self.lemma_entries_ok();
            lemma_content_after_bound(self@, self.place(at));
        }
        while remaining > 0
            invariant
                whole == deactivated_from(old(self)@, old(self).place(cursor), len as int),
                len <= u32::MAX,
                remaining <= len,
                self.cursor_ok(at),
                self@.len() > 0,
                self.pending(self.shape@.rank[at.node.0 as int], I::update_extent(marker)),
                -(len - remaining) <= I::update_extent(marker).len <= len - remaining,
                -(len - remaining) <= I::update_extent(marker).content <= len - remaining,
                entries_ok(self@),
                items_len(self@) == items_len(old(self)@),
                items_len(self@) <= u32::MAX,
                content_after(self@, self.place(at)) >= remaining,
                whole.entries == deactivated_from(
                    self@,
                    self.place(at),
                    remaining as int,
                ).entries,
                whole.taken == done + deactivated_from(
                    self@,
                    self.place(at),
                    remaining as int,
                ).taken,
                result@ == gathered(done),
                result@.len() > 0 ==> result@.last().span_ok(),
                self.rearranged(*old(self), notes@),
            decreases remaining, self@.len() - self.place(at).entry, at.offset,
        {
            let ghost p = self.place(at);
            let ghost before = *self;
            proof {
                self.lemma_place(at);
                assert(entry_ok(self@[p.entry]));
            }
            let mut entry = at.get_entry(self);
            let entry_len = entry.len();
            if at.offset == entry_len || !entry.is_activated() {
                proof {
                    lemma_content_after_next(self@, p);
                }
                self.next_entry_or_panic(&mut at, &mut marker);
                proof {
                    self.lemma_rearranged_in_place(before);
                    self.lemma_rearranged(before, *old(self), notes@, Seq::empty());
                    assert(notes@ + Seq::empty() =~= notes@);
                }
            } else if at.offset > 0 || remaining < entry_len {
                proof {
                    lemma_total_bound::<YjsSpan, I>(self@);
                    lemma_total_nonneg::<YjsSpan, I>(self@);
                    self.lemma_range_total_all();
                }
                self.flush(at.node, marker);
                marker = I::zero_update();
                let ghost settled = *self;
                let ghost noted_so_far = notes@;
                proof {
                    assert(self.parts() == before.parts());
                    self.lemma_rearranged_in_place(before);
                    self.lemma_rearranged(before, *old(self), notes@, Seq::empty());
                    assert(notes@ + Seq::empty() =~= notes@);
                }
                if at.offset > 0 {
                    proof {
                        lemma_cut_items(self@, p.entry, p.offset);
                        lemma_content_after_cut(self@, p);
                    }
                    let (right, mut more) = self.split_entry(at);
                    at = right;
                    let ghost new = more@;
                    notes.append(&mut more);
                    proof {
                        assert(notes@ =~= noted_so_far + new);
                        self.lemma_rearranged(settled, *old(self), noted_so_far, new);
                        self.lemma_nothing_pending(self.shape@.rank[at.node.0 as int]);
                    }
                } else {
                    let mut more = self.deactivate_front(at, remaining);
                    let ghost new = more@;
                    notes.append(&mut more);
                    let _ = entry.truncate(remaining);
                    extend_delete(&mut result, entry);
                    proof {
                        assert(notes@ =~= noted_so_far + new);
                        self.lemma_rearranged(settled, *old(self), noted_so_far, new);
                        assert(done.push(entry).drop_last() =~= done);
                        assert(whole.taken =~= done.push(entry));
                    }
                    return (result, notes);
                }
            } else {
                let taken = entry;
                entry.mark_deactivated();
                proof {
                    lemma_front_items(self@, p.entry, remaining as int);
                    lemma_content_after_front(self@, p);
                    I::lemma_extent_bound(taken);
                    I::lemma_extent_bound(entry);
                    assert(self.leaves@[at.node.0 as int].sound());
                }
                self.set_pending(at.node, at.idx, entry, &mut marker);
                let ghost was = result@;
                extend_delete(&mut result, taken);
                remaining = remaining - entry_len;
                proof {
                    self.lemma_rearranged_same_items(before, at, entry);
                    self.lemma_rearranged(before, *old(self), notes@, Seq::empty());
                    assert(notes@ + Seq::empty() =~= notes@);
                    let rest = deactivated_from(self@, p, remaining as int);
                    assert(self@ == front_deactivated(before@, p.entry, remaining + entry_len));
                    assert(done + (seq![taken] + rest.taken) =~= done.push(taken) + rest.taken);
                    assert(done.push(taken).drop_last() =~= done);
                    if was.len() > 0 && glues(was.last(), taken) {
                        was.last().lemma_join(&taken);
                    }
                    done = done.push(taken);
                }
            }
        }
        proof {
            lemma_total_bound::<YjsSpan, I>(self@);
            lemma_total_nonneg::<YjsSpan, I>(self@);
            self.lemma_range_total_all();
            assert(whole.taken =~= done);
        }
        let ghost before = *self;
        self.flush(at.node, marker);
        proof {
            self.lemma_rearranged_in_place(before);
            self.lemma_rearranged(before, *old(self), notes@, Seq::empty());
            assert(notes@ + Seq::empty() =~= notes@);
        }
        (result, notes)
    }
}

/// Fewer visible items are right of a place than there are items in all.
proof fn lemma_content_after_bound(entries: Seq<YjsSpan>, p: Place)
    requires
        p.within(entries),
    ensures
        content_after(entries, p) <= items_len(entries),
{
    if entries.len() > 0 {
        let a = entries.take(p.entry);
        let b = entries.skip(p.entry + 1);
        let one = seq![entries[p.entry]];
        assert(entries =~= a + one + b);
        lemma_items_len_add(a, one);
        lemma_items_len_add(a + one, b);
        lemma_items_len_one(entries[p.entry]);
        lemma_measure_bound(b);
    }
}

proof fn lemma_measure_bound(entries: Seq<YjsSpan>)
    ensures
        0 <= measure(entries, content_num()) <= items_len(entries),
    decreases entries.len(),
{
    if entries.len() > 0 {
        lemma_measure_bound(entries.drop_last());
    }
}

/// Where no visible item is left in an entry, the visible items are behind it.
pub proof fn lemma_content_after_next(entries: Seq<YjsSpan>, p: Place)
    requires
        p.within(entries),
        entries.len() > 0,
        !entries[p.entry].active() || p.offset == entries[p.entry].span_len(),
        content_after(entries, p) > 0,
    ensures
        p.entry + 1 < entries.len(),
        content_after(entries, Place { entry: p.entry + 1, offset: 0 }) == content_after(
            entries,
            p,
        ),
{
    let rest = entries.skip(p.entry + 1);
    if p.entry + 1 < entries.len() {
        let next = seq![entries[p.entry + 1]];
        assert(rest =~= next + entries.skip(p.entry + 2));
        lemma_measure_add(next, entries.skip(p.entry + 2), content_num());
        lemma_measure_one(entries[p.entry + 1], content_num());
    }
}

/// Cutting an entry at a place leaves the visible items right of it.
pub proof fn lemma_content_after_cut(entries: Seq<YjsSpan>, p: Place)
    requires
        entries_ok(entries),
        0 <= p.entry < entries.len(),
        0 < p.offset < entries[p.entry].span_len(),
    ensures
        content_after(
            cut_entry(entries, p.entry, p.offset),
            Place { entry: p.entry + 1, offset: 0 },
        ) == content_after(entries, p),
{
    assert(entry_ok(entries[p.entry]));
    assert(cut_entry(entries, p.entry, p.offset).skip(p.entry + 2) =~= entries.skip(p.entry + 1));
}

/// Deleting an entry takes its items from the visible ones.
pub proof fn lemma_content_after_front(entries: Seq<YjsSpan>, p: Place)
    requires
        entries_ok(entries),
        0 <= p.entry < entries.len(),
        p.offset == 0,
        entries[p.entry].active(),
    ensures
        content_after(entries.update(p.entry, entries[p.entry].deactivated()), p)
            == content_after(entries, p) - entries[p.entry].span_len(),
{
    assert(entry_ok(entries[p.entry]));
    assert(entries.update(p.entry, entries[p.entry].deactivated()).skip(p.entry + 1)
        =~= entries.skip(p.entry + 1));
}

/// How many items there are right of an offset in an entry, but no more than `max_len`.
pub open spec fn run_taken(entry: YjsSpan, offset: int, max_len: int) -> int {
    if max_len < entry.span_len() - offset {
        max_len
    } else {
        entry.span_len() - offset
    }
}

/// The row of entries with the `n` items right of a place deleted, all of them in one
/// entry.
pub open spec fn run_deactivated(entries: Seq<YjsSpan>, p: Place, n: int) -> Seq<YjsSpan> {
    if !entries[p.entry].active() {
        entries
    } else if p.offset > 0 {
        front_deactivated(cut_entry(entries, p.entry, p.offset), p.entry + 1, n)
    } else {
        front_deactivated(entries, p.entry, n)
    }
}

} // verus!
