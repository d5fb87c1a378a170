//! Which items of a document can be seen.

use crate::list::Order;
use crate::list::content::lemma_content_bound;
use crate::list::filters::{lemma_filter_all, lemma_filter_part, not_among};
use crate::list::laws::new_orders;
use crate::list::span::YjsSpan;
use crate::list::text::{
    law_delete_takes_visible, lemma_text_around, lemma_text_one, orders, span_orders, visible,
    visible_before,
};
use crate::list::valid::lemma_held;
use crate::range_tree::cursor::Place;
use crate::range_tree::deactivate::{
    content_after, deactivated_from, front_deactivated, lemma_has_order, run_deactivated,
};
use crate::range_tree::homes::{distinct, has_item};
use crate::range_tree::mutations::cut_entry;
use crate::range_tree::runs::{entries_ok, entry_ok};
use crate::splitable_span::{MergableSpan, SplitableSpan};
use vstd::prelude::*;

verus! {

/// Deleting visible items of one entry is deleting the first ones right of a place in it.
pub proof fn lemma_run_is_deletion(entries: Seq<YjsSpan>, p: Place, n: int)
    requires
        entries_ok(entries),
        0 <= p.entry < entries.len(),
        0 <= p.offset,
        entries[p.entry].active(),
        0 < n <= entries[p.entry].span_len() - p.offset,
    ensures
        deactivated_from(entries, p, n).entries == run_deactivated(entries, p, n),
        orders(deactivated_from(entries, p, n).taken) == new_orders(
            entries[p.entry].order + p.offset,
            n,
        ),
{
    let entry = entries[p.entry];
    assert(entry_ok(entry));
    let (row, g) = if p.offset > 0 {
        (cut_entry(entries, p.entry, p.offset), p.entry + 1)
    } else {
        (entries, p.entry)
    };
    let at = Place { entry: g, offset: 0 };
    let here = row[g];
    assert(here.order == entry.order + p.offset && here.span_len() == entry.span_len() - p.offset
        && here.active());
    assert(deactivated_from(entries, p, n) == deactivated_from(row, at, n));
    if n < here.span_len() {
        lemma_text_one(here.left_of(n));
        assert(span_orders(here.left_of(n)) =~= new_orders(here.order as int, n));
    } else {
        let front = front_deactivated(row, g, n);
        assert(deactivated_from(front, at, 0).taken =~= Seq::empty());
        assert(deactivated_from(row, at, n).taken =~= seq![here]);
        lemma_text_one(here);
        assert(span_orders(here) =~= new_orders(here.order as int, n));
    }
}

/// A visible item is held by the document.
pub proof fn lemma_visible_held(entries: Seq<YjsSpan>, i: int) -> (g: int)
    requires
        entries_ok(entries),
        0 <= i < visible(entries).len(),
    ensures
        0 <= g < entries.len(),
        entries[g].active(),
        has_item(entries[g], visible(entries)[i]),
    decreases entries.len(),
{
    let n = entries.len() - 1;
    let head = entries.drop_last();
    assert(entry_ok(entries[n]));
    assert(entries_ok(head)) by {
        assert forall|j: int| 0 <= j < head.len() implies entry_ok(#[trigger] head[j]) by {
            assert(entry_ok(entries[j]));
        }
    }
    if i < visible(head).len() {
        let g = lemma_visible_held(head, i);
        assert(head[g] == entries[g]);
        g
    } else {
        lemma_has_order(entries[n], visible(entries)[i]);
        n
    }
}

/// An item is visible where its entry is active.
pub proof fn lemma_visible_contains(entries: Seq<YjsSpan>, g: int, x: Order)
    requires
        entries_ok(entries),
        distinct(entries),
        0 <= g < entries.len(),
        has_item(entries[g], x),
    ensures
        visible(entries).contains(x) == entries[g].active(),
{
    assert(entry_ok(entries[g]));
    lemma_has_order(entries[g], x);
    if entries[g].active() {
        lemma_text_around(entries, g);
        let i = visible(entries.take(g)).len() + (x - entries[g].order);
        assert(visible(entries)[i] == x);
    } else if visible(entries).contains(x) {
        let i = choose|i: int| 0 <= i < visible(entries).len() && visible(entries)[i] == x;
        let _ = lemma_visible_held(entries, i);
    }
}

/// No item is visible twice.
pub proof fn lemma_visible_once(entries: Seq<YjsSpan>, i: int, j: int)
    requires
        entries_ok(entries),
        distinct(entries),
        0 <= i < j < visible(entries).len(),
    ensures
        visible(entries)[i] != visible(entries)[j],
    decreases entries.len(),
{
    let n = entries.len() - 1;
    let head = entries.drop_last();
    let last = entries[n];
    assert(entry_ok(last));
    assert(entries_ok(head)) by {
        assert forall|k: int| 0 <= k < head.len() implies entry_ok(#[trigger] head[k]) by {
            assert(entry_ok(entries[k]));
        }
    }
    assert(distinct(head)) by {
        assert forall|a: int, b: int, x: Order|
            0 <= a < head.len() && 0 <= b < head.len() && #[trigger] has_item(head[a], x)
                && #[trigger] has_item(head[b], x) implies a == b by {
            assert(has_item(entries[a], x));
            assert(has_item(entries[b], x));
        }
    }
    let m = visible(head).len() as int;
    if j < m {
        lemma_visible_once(head, i, j);
    } else if i < m {
        let g = lemma_visible_held(head, i);
        assert(head[g] == entries[g]);
        lemma_has_order(last, visible(entries)[j]);
        if visible(entries)[i] == visible(entries)[j] {
            assert(has_item(entries[g], visible(entries)[j]));
            assert(has_item(entries[n], visible(entries)[j]));
        }
    }
}

/// Taking items out of a row without duplicates takes out just these.
pub proof fn lemma_taken_out(row: Seq<u32>, v: int, n: int, x: u32)
    requires
        0 <= v,
        0 <= n,
        v + n <= row.len(),
        forall|i: int, j: int| 0 <= i < j < row.len() ==> row[i] != row[j],
    ensures
        (row.take(v) + row.skip(v + n)).contains(x) == (row.contains(x) && !row.subrange(
            v,
            v + n,
        ).contains(x)),
{
    let rest = row.take(v) + row.skip(v + n);
    if rest.contains(x) {
        let i = choose|i: int| 0 <= i < rest.len() && rest[i] == x;
        let k = if i < v { i } else { i + n };
        assert(row[k] == x);
        let gone = row.subrange(v, v + n);
        if gone.contains(x) {
            let j = choose|j: int| 0 <= j < gone.len() && gone[j] == x;
            assert(row[v + j] == x);
        }
    }
    if row.contains(x) && !row.subrange(v, v + n).contains(x) {
        let k = choose|k: int| 0 <= k < row.len() && row[k] == x;
        if v <= k < v + n {
            assert(row.subrange(v, v + n)[k - v] == x);
        }
        let i = if k < v { k } else { k - n };
        assert(rest[i] == x);
    }
}

/// Deleting visible items of one entry takes them out of the visible ones.
pub proof fn lemma_run_filter(entries: Seq<YjsSpan>, p: Place, n: int)
    requires
        entries_ok(entries),
        distinct(entries),
        0 <= p.entry < entries.len(),
        0 <= p.offset,
        entries[p.entry].active(),
        0 < n <= entries[p.entry].span_len() - p.offset,
    ensures
        visible(run_deactivated(entries, p, n)) == visible(entries).filter(
            not_among(entries[p.entry].order + p.offset, n),
        ),
{
    let shown = visible(entries);
    let target = entries[p.entry].order + p.offset;
    assert(entry_ok(entries[p.entry]));
    lemma_run_is_deletion(entries, p, n);
    lemma_content_after_some(entries, p, n);
    law_delete_takes_visible(entries, p, n);
    assert forall|i: int, j: int| 0 <= i < j < shown.len() implies shown[i] != shown[j] by {
        lemma_visible_once(entries, i, j);
    }
    lemma_filter_part(shown, visible_before(entries, p), n, target);
}

/// Deleted items of one entry are none of the visible ones.
pub proof fn lemma_run_unseen(entries: Seq<YjsSpan>, p: Place, n: int)
    requires
        entries_ok(entries),
        distinct(entries),
        0 <= p.entry < entries.len(),
        0 <= p.offset,
        !entries[p.entry].active(),
        0 < n <= entries[p.entry].span_len() - p.offset,
    ensures
        visible(entries) == visible(entries).filter(
            not_among(entries[p.entry].order + p.offset, n),
        ),
{
    let shown = visible(entries);
    let target = entries[p.entry].order + p.offset;
    assert forall|i: int| 0 <= i < shown.len() implies not_among(target, n)(#[trigger] shown[i]) by {
        if target <= shown[i] < target + n {
            lemma_held(entries, p.entry, shown[i] as int);
            lemma_visible_contains(entries, p.entry, shown[i]);
            assert(shown.contains(shown[i]));
        }
    }
    lemma_filter_all(shown, not_among(target, n));
}

/// The visible items of an entry are among those right of a place in it.
pub proof fn lemma_content_after_some(entries: Seq<YjsSpan>, p: Place, n: int)
    requires
        0 <= p.entry < entries.len(),
        entries[p.entry].active(),
        n <= entries[p.entry].span_len() - p.offset,
    ensures
        content_after(entries, p) >= n,
{
    lemma_content_bound(entries.skip(p.entry + 1));
}

} // verus!
