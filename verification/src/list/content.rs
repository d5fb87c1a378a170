//! The visible items of a document.

use crate::list::model::{content_len, content_place};
use crate::list::span::YjsSpan;
use crate::range_tree::cursor::Place;
use crate::range_tree::deactivate::{
    content_after, deactivated_from, front_deactivated, gathered, lemma_content_after_cut,
    lemma_content_after_front, lemma_content_after_next, lemma_cut_items, lemma_front_items,
};
use crate::range_tree::entry::EntryWithContent;
use crate::range_tree::mutations::{cut_entry, inserted, inserted_behind};
use crate::range_tree::query::{is_place_of, within_row};
use crate::range_tree::runs::{
    content_num, entries_ok, entry_ok, falls_into, items_len, lemma_items_len_add,
    lemma_items_len_one, lemma_measure_add, lemma_measure_one,
};
use crate::splitable_span::{glues, MergableSpan, SplitableSpan};
use vstd::prelude::*;

verus! {

/// Replacing an entry changes the visible items accordingly.
pub proof fn lemma_content_update(entries: Seq<YjsSpan>, g: int, entry: YjsSpan)
    requires
        0 <= g < entries.len(),
    ensures
        content_len(entries.update(g, entry)) == content_len(entries)
            - entries[g].spec_content_len() + entry.spec_content_len(),
{
    let num = content_num::<YjsSpan>();
    let a = entries.take(g);
    let b = entries.skip(g + 1);
    let was = seq![entries[g]];
    let now = seq![entry];
    assert(entries =~= a + was + b);
    assert(entries.update(g, entry) =~= a + now + b);
    lemma_measure_add(a, was, num);
    lemma_measure_add(a + was, b, num);
    lemma_measure_add(a, now, num);
    lemma_measure_add(a + now, b, num);
    lemma_measure_one(entries[g], num);
    lemma_measure_one(entry, num);
}

/// Inserting an entry adds its visible items.
pub proof fn lemma_content_insert(entries: Seq<YjsSpan>, g: int, entry: YjsSpan)
    requires
        0 <= g <= entries.len(),
    ensures
        content_len(entries.insert(g, entry)) == content_len(entries) + entry.spec_content_len(),
{
    let num = content_num::<YjsSpan>();
    let a = entries.take(g);
    let b = entries.skip(g);
    let new = seq![entry];
    assert(entries =~= a + b);
    assert(entries.insert(g, entry) =~= a + new + b);
    lemma_measure_add(a, b, num);
    lemma_measure_add(a, new, num);
    lemma_measure_add(a + new, b, num);
    lemma_measure_one(entry, num);
}

/// Cutting an entry leaves as many items visible.
pub proof fn lemma_content_cut(entries: Seq<YjsSpan>, g: int, at: int)
    requires
        entries_ok(entries),
        0 <= g < entries.len(),
        0 < at < entries[g].span_len(),
    ensures
        content_len(cut_entry(entries, g, at)) == content_len(entries),
{
    assert(entry_ok(entries[g]));
    lemma_content_update(entries, g, entries[g].left_of(at));
    lemma_content_insert(
        entries.update(g, entries[g].left_of(at)),
        g + 1,
        entries[g].right_of(at),
    );
}

/// Deleting the first items of an entry makes them invisible.
pub proof fn lemma_content_front(entries: Seq<YjsSpan>, g: int, n: int)
    requires
        entries_ok(entries),
        0 <= g < entries.len(),
        entries[g].active(),
        0 < n,
    ensures
        content_len(front_deactivated(entries, g, n)) == content_len(entries) - if n
            < entries[g].span_len() {
            n
        } else {
            entries[g].span_len() as int
        },
{
    assert(entry_ok(entries[g]));
    if n < entries[g].span_len() {
        let left = entries[g].left_of(n).deactivated();
        lemma_content_update(entries, g, left);
        lemma_content_insert(entries.update(g, left), g + 1, entries[g].right_of(n));
    } else {
        lemma_content_update(entries, g, entries[g].deactivated());
    }
}

/// Inserted items are visible.
pub proof fn lemma_content_inserted(entries: Seq<YjsSpan>, p: Place, item: YjsSpan)
    requires
        entries_ok(entries),
        p.within(entries),
        entry_ok(item),
    ensures
        content_len(inserted(entries, p, item)) == content_len(entries) + item.spec_content_len(),
{
    if entries.len() == 0 {
        assert(entries.insert(0, item) =~= seq![item]);
        lemma_content_insert(entries, 0, item);
    } else if p.offset == 0 && p.entry == 0 {
        lemma_content_insert(entries, 0, item);
    } else if p.offset == 0 || p.offset == entries[p.entry].span_len() {
        let g = if p.offset == 0 { p.entry - 1 } else { p.entry };
        assert(inserted(entries, p, item) == inserted_behind(entries, g, item));
        assert(entry_ok(entries[g]));
        if glues(entries[g], item) {
            lemma_content_update(entries, g, entries[g].joined(&item));
        } else {
            lemma_content_insert(entries, g + 1, item);
        }
    } else {
        lemma_content_cut(entries, p.entry, p.offset);
        lemma_content_insert(cut_entry(entries, p.entry, p.offset), p.entry + 1, item);
    }
}

/// Deleting visible items makes that many items invisible.
pub proof fn lemma_content_deactivated(entries: Seq<YjsSpan>, p: Place, n: int)
    requires
        entries_ok(entries),
        0 <= n <= content_after(entries, p),
        n > 0 ==> p.within(entries) && entries.len() > 0,
    ensures
        content_len(deactivated_from(entries, p, n).entries) == content_len(entries) - n,
        items_len(deactivated_from(entries, p, n).taken) == n,
        forall|i: int|
            0 <= i < deactivated_from(entries, p, n).taken.len() ==> entry_ok(
                #[trigger] deactivated_from(entries, p, n).taken[i],
            ) && deactivated_from(entries, p, n).taken[i].active(),
    decreases n, entries.len() - p.entry, p.offset,
{
    let d = deactivated_from(entries, p, n);
    if n > 0 {
        let entry = entries[p.entry];
        assert(entry_ok(entry));
        let next = Place { entry: p.entry + 1, offset: 0 };
        if p.offset >= entry.span_len() || !entry.active() {
            lemma_content_after_next(entries, p);
            lemma_content_deactivated(entries, next, n);
        } else if p.offset > 0 {
            let cut = cut_entry(entries, p.entry, p.offset);
            lemma_cut_items(entries, p.entry, p.offset);
            lemma_content_after_cut(entries, p);
            lemma_content_cut(entries, p.entry, p.offset);
            lemma_content_deactivated(cut, next, n);
        } else {
            lemma_content_front(entries, p.entry, n);
            lemma_front_items(entries, p.entry, n);
            if n < entry.span_len() {
                let left = entry.left_of(n);
                lemma_items_len_one(left);
            } else {
                let front = front_deactivated(entries, p.entry, n);
                lemma_content_after_front(entries, p);
                let rest = deactivated_from(front, p, n - entry.span_len());
                lemma_content_deactivated(front, p, n - entry.span_len());
                lemma_items_len_one(entry);
                lemma_items_len_add(seq![entry], rest.taken);
                assert forall|i: int| 0 <= i < d.taken.len() implies entry_ok(#[trigger] d.taken[i])
                    && d.taken[i].active() by {
                    if i > 0 {
                        assert(d.taken[i] == rest.taken[i - 1]);
                    }
                }
            }
        }
    }
}

/// Gluing spans together keeps them active, and keeps their items.
pub proof fn lemma_gathered(spans: Seq<YjsSpan>)
    requires
        forall|i: int| 0 <= i < spans.len() ==> entry_ok(#[trigger] spans[i]) && spans[i].active(),
    ensures
        forall|i: int|
            0 <= i < gathered(spans).len() ==> entry_ok(#[trigger] gathered(spans)[i]) && gathered(
                spans,
            )[i].active(),
        items_len(gathered(spans)) == items_len(spans),
    decreases spans.len(),
{
    if spans.len() > 0 {
        let head = spans.drop_last();
        let span = spans.last();
        let n = spans.len() - 1;
        assert(spans[n] == span);
        assert forall|i: int| 0 <= i < head.len() implies entry_ok(#[trigger] head[i])
            && head[i].active() by {
            assert(head[i] == spans[i]);
        }
        lemma_gathered(head);
        let was = gathered(head);
        let now = gathered(spans);
        if was.len() > 0 && glues(was.last(), span) {
            let k = was.len() - 1;
            assert(entry_ok(was[k]));
            was.last().lemma_join(&span);
            assert(now.drop_last() =~= was.drop_last());
            assert forall|i: int| 0 <= i < now.len() implies entry_ok(#[trigger] now[i])
                && now[i].active() by {
                if i < k {
                    assert(now[i] == was[i]);
                }
            }
        } else {
            assert(now.drop_last() =~= was);
            assert forall|i: int| 0 <= i < now.len() implies entry_ok(#[trigger] now[i])
                && now[i].active() by {
                if i < n {
                    assert(now[i] == was[i] || i == was.len());
                }
            }
        }
    }
}

/// The place of a position among the visible items is in an active entry, and the visible
/// items behind the position are right of it.
pub proof fn lemma_content_place(entries: Seq<YjsSpan>, p: Place, pos: int)
    requires
        entries_ok(entries),
        is_place_of(p, entries, content_num(), pos, false),
        0 <= pos,
    ensures
        content_place(entries, pos) == p,
        p.within(entries),
        entries[p.entry].active(),
        0 <= p.offset < entries[p.entry].span_len(),
        content_after(entries, p) == content_len(entries) - pos,
{
    let num = content_num::<YjsSpan>();
    let q = content_place(entries, pos);
    assert(is_place_of(q, entries, num, pos, false));
    if q.entry < p.entry {
        assert(!falls_into(entries, num, pos, false, q.entry));
    } else if p.entry < q.entry {
        assert(!falls_into(entries, num, pos, false, p.entry));
    }
    let a = entries.take(p.entry);
    let one = seq![entries[p.entry]];
    let b = entries.skip(p.entry + 1);
    assert(entries =~= a + one + b);
    assert(entries.take(p.entry + 1) =~= a + one);
    lemma_measure_add(a, one, num);
    lemma_measure_add(a + one, b, num);
    lemma_measure_one(entries[p.entry], num);
    if p.entry > 0 {
        assert(!falls_into(entries, num, pos, false, p.entry - 1));
    } else {
        assert(a =~= Seq::empty());
    }
}

/// No more items are visible than there are.
pub proof fn lemma_content_bound(entries: Seq<YjsSpan>)
    ensures
        0 <= content_len(entries) <= items_len(entries),
    decreases entries.len(),
{
    if entries.len() > 0 {
        lemma_content_bound(entries.drop_last());
    }
}

/// A position before the last visible item falls into some entry.
pub proof fn lemma_content_within(entries: Seq<YjsSpan>, pos: int)
    requires
        0 <= pos < content_len(entries),
    ensures
        within_row(entries, content_num(), pos, false),
{
    assert(entries.take(entries.len() as int) =~= entries);
}

} // verus!
