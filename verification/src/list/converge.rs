//! Insertions that come to a document in different orders.

use crate::list::ROOT_ORDER;
use crate::list::merged::{
    is_gap, is_left_of, is_origin, law_integrated_place, lemma_gap_filled, lemma_is_left_of,
    lemma_row_index, lemma_row_once, lemma_take_mono, search_for, Search,
};
use crate::list::model::{is_before_item, place_after, DocState};
use crate::list::origins::{law_insert_keeps_origins, span_says, was_inserted};
use crate::list::span::YjsSpan;
use crate::list::text::{items_before, lemma_text_len, orders, span_orders, spliced};
use crate::list::valid::{
    fresh, lemma_held, lemma_place_before, lemma_place_unique, lemma_row_inserted, row_ok,
};
use crate::range_tree::cursor::Place;
use crate::range_tree::homes::{distinct, holds};
use crate::range_tree::mutations::{cut_entry, inserted};
use crate::range_tree::runs::{entries_ok, entry_ok, items_len, lemma_items_len_add};
use crate::splitable_span::MergableSpan;
use vstd::prelude::*;

verus! {

/// How many entries an item makes more that is inserted behind the item `left` in the entry
/// `g`: one, and one more where the entry is cut.
spec fn more_entries(entries: Seq<YjsSpan>, g: int, left: u32) -> int {
    if left + 1 < entries[g].order + entries[g].span_len() {
        2
    } else {
        1
    }
}

/// One more entry holds as many items more.
proof fn lemma_next_sum(entries: Seq<YjsSpan>, g: int)
    requires
        0 <= g < entries.len(),
    ensures
        items_len(entries.take(g + 1)) == items_len(entries.take(g)) + entries[g].span_len(),
{
    assert(entries.take(g + 1).drop_last() =~= entries.take(g));
    assert(entries.take(g + 1).last() == entries[g]);
}

/// The entries after an item was inserted behind one in the entry `g`.
#[verifier::rlimit(40)]
proof fn lemma_entries_moved(entries: Seq<YjsSpan>, p: Place, y: YjsSpan, g: int)
    requires
        entries_ok(entries),
        y.origin_left != ROOT_ORDER,
        0 <= g < entries.len(),
        entries[g].order <= y.origin_left < entries[g].order + entries[g].span_len(),
        entries[g].origin_right != y.origin_right,
        p == (Place { entry: g, offset: y.origin_left - entries[g].order + 1 }),
    ensures
        ({
            let now = inserted(entries, p, y);
            let d = more_entries(entries, g, y.origin_left);
            &&& now.len() == entries.len() + d
            &&& forall|i: int| 0 <= i < g ==> #[trigger] now[i] == entries[i]
            &&& now[g].order == entries[g].order
            &&& now[g].origin_left == entries[g].origin_left
            &&& now[g].origin_right == entries[g].origin_right
            &&& now[g].order + now[g].span_len() == y.origin_left + 1
            &&& now[g + 1] == y
            &&& d == 2 ==> now[g + 2].order == y.origin_left + 1 && now[g + 2].origin_left
                == y.origin_left && now[g + 2].origin_right == entries[g].origin_right
            &&& forall|i: int| g < i < entries.len() ==> now[i + d] == #[trigger] entries[i]
            &&& forall|i: int| 0 <= i <= g ==> #[trigger] items_len(now.take(i)) == items_len(
                entries.take(i),
            )
            &&& items_len(now.take(g + 1)) == items_before(entries, p)
            &&& items_len(now.take(g + 2)) == items_before(entries, p) + y.span_len()
            &&& forall|i: int|
                g < i <= entries.len() ==> items_len(now.take(i + d)) == #[trigger] items_len(
                    entries.take(i),
                ) + y.span_len()
        }),
{
    let now = inserted(entries, p, y);
    let d = more_entries(entries, g, y.origin_left);
    let at = p.offset;
    let entry = entries[g];
    assert(entry_ok(entry));
    assert(now =~= if d == 2 {
        cut_entry(entries, g, at).insert(g + 1, y)
    } else {
        entries.insert(g + 1, y)
    });
    assert forall|i: int| 0 <= i <= g implies #[trigger] items_len(now.take(i)) == items_len(
        entries.take(i),
    ) by {
        assert(now.take(i) =~= entries.take(i));
    }
    lemma_next_sum(entries, g);
    lemma_next_sum(now, g);
    lemma_next_sum(now, g + 1);
    assert(now[g].span_len() == at);
    if d == 2 {
        lemma_next_sum(now, g + 2);
        assert(now[g + 2].span_len() == entry.span_len() - at);
        assert(now.take(g + 1 + d) == now.take(g + 3));
    } else {
        assert(now.take(g + 1 + d) == now.take(g + 2));
    }
    assert forall|i: int| g < i < entries.len() implies now[i + d] == #[trigger] entries[i] by {}
    assert forall|i: int| g < i <= entries.len() implies items_len(now.take(i + d))
        == #[trigger] items_len(entries.take(i)) + y.span_len() by {
        let rest = entries.subrange(g + 1, i);
        assert(now.take(i + d) =~= now.take(g + 1 + d) + rest);
        assert(entries.take(i) =~= entries.take(g + 1) + rest);
        lemma_items_len_add(now.take(g + 1 + d), rest);
        lemma_items_len_add(entries.take(g + 1), rest);
    }
}

/// Items that were in a row stand in the same order after others were put in.
proof fn lemma_left_of_kept(row: Seq<u32>, at: int, new: Seq<u32>, x: u32, y: u32)
    requires
        0 <= at <= row.len(),
        !new.contains(x),
        !new.contains(y),
    ensures
        is_left_of(spliced(row, at, new), x, y) == is_left_of(row, x, y),
{
    let now = spliced(row, at, new);
    let m = new.len() as int;
    if x != ROOT_ORDER && y != ROOT_ORDER {
        if is_left_of(row, x, y) {
            let (i, j) = choose|i: int, j: int|
                0 <= i < j < row.len() && #[trigger] row[i] == x && #[trigger] row[j] == y;
            let a = if i < at { i } else { i + m };
            let b = if j < at { j } else { j + m };
            assert(now[a] == x && now[b] == y);
        }
        if is_left_of(now, x, y) {
            let (a, b) = choose|a: int, b: int|
                0 <= a < b < now.len() && #[trigger] now[a] == x && #[trigger] now[b] == y;
            assert(!(at <= a < at + m)) by {
                if at <= a < at + m {
                    assert(new[a - at] == x);
                }
            }
            assert(!(at <= b < at + m)) by {
                if at <= b < at + m {
                    assert(new[b - at] == y);
                }
            }
            let i = if a < at { a } else { a - m };
            let j = if b < at { b } else { b - m };
            assert(row[i] == x && row[j] == y);
        }
    }
}

/// What a search meets after an item was inserted that descends from one that the search
/// meets.
spec fn moved(s: Search, now: Seq<YjsSpan>) -> Search {
    Search { doc: DocState { entries: now, ..s.doc }, ..s }
}

/// Where an entry is after an item was inserted behind one in the entry `g`.
spec fn moved_to(entries: Seq<YjsSpan>, g: int, left: u32, i: int) -> int {
    if i <= g {
        i
    } else {
        i + more_entries(entries, g, left)
    }
}

/// An item `y` is inserted into a gap that a search finds: behind an item in the entry `g`
/// that is right of what the search started from.
pub open spec fn is_put_in(s: Search, y: YjsSpan, g: int, order: int) -> bool {
    let entries = s.doc.entries;
    &&& row_ok(entries, order)
    &&& fresh(y, entries, order)
    &&& s.ok()
    &&& is_origin(entries, s.left)
    &&& is_origin(entries, s.right)
    &&& y.origin_left != ROOT_ORDER
    &&& s.home <= g < entries.len()
    &&& entries[g].order <= y.origin_left < entries[g].order + entries[g].span_len()
    &&& entries[g].origin_right != y.origin_right
    &&& is_left_of(s.row(), s.left, y.origin_left)
    &&& s.right != y.origin_right
}

/// The row and the entries after an item was put in.
spec fn is_after(s: Search, y: YjsSpan, g: int, order: int, now: Seq<YjsSpan>, i: int) -> bool {
    let p = Place { entry: g, offset: y.origin_left - s.doc.entries[g].order + 1 };
    &&& now == inserted(s.doc.entries, p, y)
    &&& i == items_before(s.doc.entries, p)
    &&& row_ok(now, order + y.span_len())
    &&& orders(now) == spliced(s.row(), i, span_orders(y))
    &&& 0 < i <= s.row().len()
    &&& i < s.row().len() ==> s.row()[i] == y.origin_right
}

/// An item of the row is none of the new ones.
proof fn lemma_not_new(entries: Seq<YjsSpan>, y: YjsSpan, order: int, x: u32)
    requires
        row_ok(entries, order),
        fresh(y, entries, order),
        is_origin(entries, x),
    ensures
        !span_orders(y).contains(x),
{
    if span_orders(y).contains(x) {
        let j = choose|j: int| 0 <= j < span_orders(y).len() && span_orders(y)[j] == x;
        if x != ROOT_ORDER {
            assert(holds(entries, x));
        }
    }
}

/// An item right of the one that a search starts from has more items before it.
proof fn lemma_home_before(s: Search, g: int, x: u32)
    requires
        s.ok(),
        entries_ok(s.doc.entries),
        distinct(s.doc.entries),
        s.left != ROOT_ORDER,
        s.home <= g < s.doc.entries.len(),
        s.doc.entries[g].order <= x < s.doc.entries[g].order + s.doc.entries[g].span_len(),
        is_left_of(s.row(), s.left, x),
    ensures
        s.before(s.home) <= items_len(s.doc.entries.take(g)) + x - s.doc.entries[g].order,
{
    let entries = s.doc.entries;
    if s.home < g {
        lemma_take_mono(entries, s.home, g);
    } else {
        lemma_held(entries, g, x as int);
        lemma_held(entries, g, s.left as int);
        lemma_is_left_of(entries, s.left, x);
        let p = Place { entry: g, offset: x - entries[g].order };
        let q = Place { entry: g, offset: s.left - entries[g].order };
        assert(is_before_item(entries, p, x as int));
        assert(is_before_item(entries, q, s.left as int));
        lemma_place_unique(entries, p, x as int);
        lemma_place_unique(entries, q, s.left as int);
    }
}

/// What a search makes of an entry does not depend on an item that was put in further right,
/// or further left.
#[verifier::rlimit(40)]
proof fn lemma_met_moved(
    s: Search,
    y: YjsSpan,
    g: int,
    order: int,
    now: Seq<YjsSpan>,
    i: int,
    b: int,
)
    requires
        is_put_in(s, y, g, order),
        is_after(s, y, g, order, now, i),
        s.home <= b < s.doc.entries.len(),
    ensures
        ({
            let t = moved(s, now);
            let c = moved_to(s.doc.entries, g, y.origin_left, b);
            &&& t.is_rival(c) == s.is_rival(b)
            &&& t.is_barrier(c) == s.is_barrier(b)
            &&& t.sorts_behind(c) == s.sorts_behind(b)
            &&& t.before(c) == s.before(b) + if b <= g {
                0
            } else {
                y.span_len() as int
            }
            &&& b <= g ==> s.before(b) < i
            &&& b > g ==> s.before(b) >= i
        }),
{
    let entries = s.doc.entries;
    let t = moved(s, now);
    let c = moved_to(entries, g, y.origin_left, b);
    let p = Place { entry: g, offset: y.origin_left - entries[g].order + 1 };
    lemma_entries_moved(entries, p, y, g);
    assert(entry_ok(entries[g]));
    assert(is_origin(entries, s.left_of_met(b)));
    lemma_not_new(entries, y, order, s.left);
    lemma_not_new(entries, y, order, s.left_of_met(b));
    lemma_left_of_kept(s.row(), i, span_orders(y), s.left_of_met(b), s.left);
    lemma_text_len(entries);
    lemma_text_len(now);
    s.lemma_before_known(b);
    if b <= g {
        assert(items_len(now.take(b)) == items_len(entries.take(b)));
        if s.is_home(b) {
            lemma_home_before(s, g, y.origin_left);
        } else if b < g {
            s.lemma_before_known(g);
            s.lemma_before_mono(b, g);
            assert(entry_ok(entries[b]));
        }
        assert(s.before(b) < i);
        assert(t.row()[s.before(b)] == s.row()[s.before(b)]);
    } else {
        assert(items_len(now.take(c)) == items_len(entries.take(b)) + y.span_len());
        lemma_take_mono(entries, g, b);
        if s.before(b) < s.row().len() {
            assert(t.row()[s.before(b) + y.span_len()] == s.row()[s.before(b)]);
        }
    }
}

/// A search goes past an item that was put in behind one right of where it started.
#[verifier::rlimit(40)]
proof fn lemma_new_met(
    s: Search,
    y: YjsSpan,
    g: int,
    order: int,
    now: Seq<YjsSpan>,
    i: int,
    c: int,
)
    requires
        is_put_in(s, y, g, order),
        is_after(s, y, g, order, now, i),
        g < c <= g + more_entries(s.doc.entries, g, y.origin_left),
    ensures
        !moved(s, now).is_rival(c),
        !moved(s, now).is_barrier(c),
{
    let entries = s.doc.entries;
    let t = moved(s, now);
    let p = Place { entry: g, offset: y.origin_left - entries[g].order + 1 };
    lemma_entries_moved(entries, p, y, g);
    lemma_not_new(entries, y, order, s.left);
    lemma_not_new(entries, y, order, y.origin_left);
    lemma_not_new(entries, y, order, s.right);
    lemma_left_of_kept(s.row(), i, span_orders(y), s.left, y.origin_left);
    lemma_left_of_kept(s.row(), i, span_orders(y), y.origin_left, s.left);
    lemma_is_left_of(entries, s.left, y.origin_left);
    lemma_is_left_of(entries, y.origin_left, s.left);
    lemma_text_len(entries);
    lemma_text_len(now);
    assert(t.left_of_met(c) == y.origin_left);
    assert(span_orders(y)[0] == y.order);
    if c == g + 1 {
        assert(t.before(c) == i);
        assert(t.row()[i] == y.order);
        assert(span_orders(y).contains(y.order));
    } else {
        assert(t.before(c) == i + y.span_len());
        lemma_next_sum(now, c);
        assert(entry_ok(now[c]));
        let upto = items_len(now.take(c + 1));
        assert(now =~= now.take(c + 1) + now.skip(c + 1));
        lemma_items_len_add(now.take(c + 1), now.skip(c + 1));
        assert(i < s.row().len());
        assert(t.row()[i + y.span_len()] == s.row()[i]);
    }
}

/// Up to where a search went past everything, it still does after an item was put in.
proof fn lemma_still_open(
    s: Search,
    y: YjsSpan,
    g: int,
    order: int,
    now: Seq<YjsSpan>,
    i: int,
    h: int,
)
    requires
        is_put_in(s, y, g, order),
        is_after(s, y, g, order, now, i),
        s.home <= h <= s.doc.entries.len(),
        forall|e: int| s.home <= e < h ==> !#[trigger] s.is_barrier(e),
    ensures
        forall|c: int|
            s.home <= c < moved_to(s.doc.entries, g, y.origin_left, h) ==> !#[trigger] moved(
                s,
                now,
            ).is_barrier(c),
{
    let d = more_entries(s.doc.entries, g, y.origin_left);
    let to = moved_to(s.doc.entries, g, y.origin_left, h);
    assert forall|c: int| s.home <= c < to implies !#[trigger] moved(s, now).is_barrier(c) by {
        if c <= g {
            lemma_met_moved(s, y, g, order, now, i, c);
            assert(!s.is_barrier(c));
        } else if c <= g + d {
            lemma_new_met(s, y, g, order, now, i, c);
        } else {
            lemma_met_moved(s, y, g, order, now, i, c - d);
            assert(!s.is_barrier(c - d));
        }
    }
}

/// Where a search met no rivals, it still meets none after an item was put in.
proof fn lemma_still_alone(
    s: Search,
    y: YjsSpan,
    g: int,
    order: int,
    now: Seq<YjsSpan>,
    i: int,
    b: int,
    h: int,
)
    requires
        is_put_in(s, y, g, order),
        is_after(s, y, g, order, now, i),
        s.home - 1 <= b < h <= s.doc.entries.len(),
        forall|e: int| b < e < h ==> !#[trigger] s.is_rival(e),
    ensures
        forall|c: int|
            moved_to(s.doc.entries, g, y.origin_left, b) < c < moved_to(
                s.doc.entries,
                g,
                y.origin_left,
                h,
            ) ==> !#[trigger] moved(s, now).is_rival(c),
{
    let d = more_entries(s.doc.entries, g, y.origin_left);
    let from = moved_to(s.doc.entries, g, y.origin_left, b);
    let to = moved_to(s.doc.entries, g, y.origin_left, h);
    assert forall|c: int| from < c < to implies !#[trigger] moved(s, now).is_rival(c) by {
        if c <= g {
            lemma_met_moved(s, y, g, order, now, i, c);
            assert(!s.is_rival(c));
        } else if c <= g + d {
            lemma_new_met(s, y, g, order, now, i, c);
        } else {
            lemma_met_moved(s, y, g, order, now, i, c - d);
            assert(!s.is_rival(c - d));
        }
    }
}

/// Where a search ends after an item was put in: where it ended before.
#[verifier::rlimit(40)]
proof fn lemma_end_moved(
    s: Search,
    y: YjsSpan,
    g: int,
    order: int,
    now: Seq<YjsSpan>,
    i: int,
    h: int,
    k: int,
    h2: int,
    k2: int,
)
    requires
        is_put_in(s, y, g, order),
        is_after(s, y, g, order, now, i),
        is_found(s, k, h),
        is_found(moved(s, now), k2, h2),
    ensures
        k2 == if k < i {
            k
        } else {
            k + y.span_len()
        },
{
    let entries = s.doc.entries;
    let n = entries.len() as int;
    let t = moved(s, now);
    let left = y.origin_left;
    let d = more_entries(entries, g, left);
    let p = Place { entry: g, offset: left - entries[g].order + 1 };
    lemma_entries_moved(entries, p, y, g);
    let to = moved_to(entries, g, left, h);
    lemma_still_open(s, y, g, order, now, i, h);
    if h < n {
        lemma_met_moved(s, y, g, order, now, i, h);
    } else {
        lemma_text_len(entries);
        assert(entries.take(n) =~= entries);
        assert(items_len(now.take(n + d)) == items_len(entries.take(n)) + y.span_len());
    }
    assert(h2 == to) by {
        if h2 < to {
            assert(!t.is_barrier(h2));
        }
        if to < h2 {
            assert(!t.is_barrier(to));
        }
    }
    if exists|b: int| s.home <= b < h && #[trigger] s.is_rival(b) {
        let b = s.lemma_last_rival(h);
        lemma_met_moved(s, y, g, order, now, i, b);
        let c0 = moved_to(entries, g, left, b);
        lemma_still_alone(s, y, g, order, now, i, b, h);
        assert(t.is_last_rival(c0, to));
    } else {
        lemma_still_alone(s, y, g, order, now, i, s.home - 1, h);
    }
}

/// The place that a search finds.
pub open spec fn is_found(s: Search, k: int, h: int) -> bool {
    &&& s.is_end(h)
    &&& forall|b: int| #[trigger]
        s.is_last_rival(b, h) ==> k == s.before(
            if s.sorts_behind(b) {
                h
            } else {
                b
            },
        )
    &&& (forall|b: int| s.home <= b < h ==> !#[trigger] s.is_rival(b)) ==> k == s.before(h)
}

/// A search finds one place.
proof fn lemma_found_once(s: Search, k: int, h: int, k2: int, h2: int)
    requires
        is_found(s, k, h),
        is_found(s, k2, h2),
    ensures
        k == k2,
        h == h2,
{
    if h < h2 {
        assert(!s.is_barrier(h));
    } else if h2 < h {
        assert(!s.is_barrier(h2));
    }
    if exists|b: int| s.home <= b < h && #[trigger] s.is_rival(b) {
        let b = s.lemma_last_rival(h);
    }
}

/// A row with the items `ys` put in behind the first `i`, and `xs` behind the first `k`.
pub open spec fn both_put(
    row: Seq<u32>,
    i: int,
    ys: Seq<u32>,
    k: int,
    xs: Seq<u32>,
) -> Seq<u32> {
    if i < k {
        row.take(i) + ys + row.subrange(i, k) + xs + row.skip(k)
    } else {
        row.take(k) + xs + row.subrange(k, i) + ys + row.skip(i)
    }
}

/// A run with another number for its first item.
pub open spec fn renumbered(item: YjsSpan, order: int) -> YjsSpan {
    YjsSpan { order: order as u32, ..item }
}

/// A gap that nothing was inserted into is still there after an insertion: what it is behind is
/// in an entry that was inserted before what that entry was.
#[verifier::rlimit(60)]
proof fn lemma_gap_stays(
    entries: Seq<YjsSpan>,
    p: Place,
    x: YjsSpan,
    y: YjsSpan,
    g: int,
    order: int,
    k: int,
) -> (g1: int)
    requires
        row_ok(entries, order),
        fresh(x, entries, order),
        p.within(entries),
        y.origin_left != ROOT_ORDER,
        0 <= g < entries.len(),
        entries[g].order <= y.origin_left < entries[g].order + entries[g].span_len(),
        orders(inserted(entries, p, x)) == spliced(orders(entries), k, span_orders(x)),
        0 <= k <= orders(entries).len(),
        k != items_len(entries.take(g)) + y.origin_left - entries[g].order + 1,
        ({
            let i = items_len(entries.take(g)) + y.origin_left - entries[g].order + 1;
            i < orders(entries).len() ==> orders(entries)[i] == y.origin_right
        }),
    ensures
        ({
            let now = inserted(entries, p, x);
            let i = items_len(entries.take(g)) + y.origin_left - entries[g].order + 1;
            let i1 = if i < k { i } else { i + x.span_len() };
            &&& 0 <= g1 < now.len()
            &&& now[g1].order <= y.origin_left < now[g1].order + now[g1].span_len()
            &&& now[g1].origin_right == entries[g].origin_right
            &&& items_len(now.take(g1)) + y.origin_left - now[g1].order + 1 == i1
            &&& 0 < i <= orders(entries).len()
            &&& i1 < orders(now).len() ==> orders(now)[i1] == y.origin_right
            &&& row_ok(now, order + x.span_len())
            &&& holds(now, y.origin_left)
        }),
{
    let now = inserted(entries, p, x);
    let row = orders(entries);
    let row1 = orders(now);
    let z = y.origin_left;
    let i = items_len(entries.take(g)) + z - entries[g].order + 1;
    let i1 = if i < k { i } else { i + x.span_len() };
    lemma_row_inserted(entries, p, x, order);
    let l0 = if z == entries[g].order {
        entries[g].origin_left
    } else {
        (z - 1) as u32
    };
    let r0 = entries[g].origin_right;
    assert(span_says(entries[g], z, l0, r0));
    assert(was_inserted(entries, z, l0, r0));
    law_insert_keeps_origins(entries, p, x, z, l0, r0);
    let g1 = choose|e: int| 0 <= e < now.len() && #[trigger] span_says(now[e], z, l0, r0);
    lemma_held(now, g1, z as int);
    let q = Place { entry: g, offset: z - entries[g].order };
    let q1 = Place { entry: g1, offset: z - now[g1].order };
    lemma_row_index(entries, q, z as int);
    lemma_row_index(now, q1, z as int);
    assert(row[i - 1] == z);
    assert(row1[i1 - 1] == z);
    lemma_row_once(now, i1 - 1, items_before(now, q1));
    if i < row.len() {
        assert(row1[i1] == row[i]);
    }
    g1
}

/// An item is integrated by inserting it at a place.
proof fn lemma_put_somewhere(doc: DocState, a: int, x: YjsSpan, order: int) -> (p: Place)
    requires
        row_ok(doc.entries, order),
        fresh(x, doc.entries, order),
        doc.entries.len() > 0,
    ensures
        p.within(doc.entries),
        doc.integrated(a, x, place_after(doc.entries, x.origin_left as int)).entries == inserted(
            doc.entries,
            p,
            x,
        ),
{
    let left = place_after(doc.entries, x.origin_left as int);
    let name = doc.clients[a].name;
    if x.origin_left != ROOT_ORDER {
        lemma_place_before(doc.entries, x.origin_left);
    } else {
        assert(entry_ok(doc.entries[0]));
    }
    doc.lemma_scan_within(name, x, left, left, left, false);
    doc.scan(name, x, left, left, left, false)
}

/// Where the first of two insertions leaves room for the second one.
#[verifier::rlimit(100)]
proof fn lemma_then_gap(
    doc: DocState,
    a: int,
    x: YjsSpan,
    s: Search,
    b: int,
    y: YjsSpan,
    hy: int,
    order: int,
    k: int,
)
    requires
        is_put_in(s, y, hy, order),
        s.doc == doc,
        fresh(x, doc.entries, order),
        order + x.span_len() + y.span_len() <= ROOT_ORDER,
        is_gap(search_for(doc, b, y, hy)),
        0 <= k <= orders(doc.entries).len(),
        orders(doc.integrated(a, x, place_after(doc.entries, x.origin_left as int)).entries)
            == spliced(orders(doc.entries), k, span_orders(x)),
        k != search_for(doc, b, y, hy).before(hy),
    ensures
        ({
            let row = orders(doc.entries);
            let i = search_for(doc, b, y, hy).before(hy);
            let later = renumbered(y, order + x.span_len());
            let mid = doc.integrated(a, x, place_after(doc.entries, x.origin_left as int));
            let after = mid.integrated(b, later, place_after(mid.entries, y.origin_left as int));
            orders(after.entries) == both_put(row, i, span_orders(later), k, span_orders(x))
        }),
{
    let u = search_for(doc, b, y, hy);
    let entries = doc.entries;
    let row = orders(entries);
    let i = u.before(hy);
    let next = order + x.span_len();
    let later = renumbered(y, next);
    let left = place_after(entries, x.origin_left as int);
    let mid = doc.integrated(a, x, left);
    let p = lemma_put_somewhere(doc, a, x, order);
    let i1 = if i < k { i } else { i + x.span_len() };
    let g1 = lemma_gap_stays(entries, p, x, y, hy, order, k);
    assert(search_for(mid, b, later, g1).before(g1) == i1);
    lemma_gap_filled(mid, b, later, g1, next);
    let ys = span_orders(later);
    let xs = span_orders(x);
    assert(spliced(orders(mid.entries), i1, ys) =~= both_put(row, i, ys, k, xs));
}

/// Where the second of two insertions goes when it comes first.
#[verifier::rlimit(100)]
proof fn lemma_gap_first(
    doc: DocState,
    a: int,
    x: YjsSpan,
    hx: int,
    b: int,
    y: YjsSpan,
    hy: int,
    order: int,
    k: int,
    h: int,
)
    requires
        is_put_in(search_for(doc, a, x, hx), y, hy, order),
        fresh(x, doc.entries, order),
        order + x.span_len() + y.span_len() <= ROOT_ORDER,
        is_gap(search_for(doc, b, y, hy)),
        is_found(search_for(doc, a, x, hx), k, h),
        0 <= k <= orders(doc.entries).len(),
        k != search_for(doc, b, y, hy).before(hy),
    ensures
        ({
            let row = orders(doc.entries);
            let i = search_for(doc, b, y, hy).before(hy);
            let later = renumbered(x, order + y.span_len());
            let mid = doc.integrated(b, y, place_after(doc.entries, y.origin_left as int));
            let after = mid.integrated(a, later, place_after(mid.entries, x.origin_left as int));
            orders(after.entries) == both_put(row, i, span_orders(y), k, span_orders(later))
        }),
{
    let s = search_for(doc, a, x, hx);
    let u = search_for(doc, b, y, hy);
    let entries = doc.entries;
    let row = orders(entries);
    let i = u.before(hy);
    let next = order + y.span_len();
    let later = renumbered(x, next);
    let left = place_after(entries, y.origin_left as int);
    let mid = doc.integrated(b, y, left);
    let now = mid.entries;
    let z = y.origin_left;
    let q = Place { entry: hy, offset: z - entries[hy].order };
    let p = Place { entry: hy, offset: z - entries[hy].order + 1 };
    assert(entry_ok(entries[hy]));
    assert(is_before_item(entries, q, z as int));
    lemma_place_unique(entries, q, z as int);
    assert(left == p);
    lemma_gap_filled(doc, b, y, hy, order);
    assert(is_after(s, y, hy, order, now, i));
    lemma_entries_moved(entries, p, y, hy);
    let t = search_for(mid, a, later, hx);
    assert(t == moved(s, now));
    assert(t.ok()) by {
        if x.origin_left != ROOT_ORDER {
            lemma_home_before(s, hy, z);
            if hx < hy {
                assert(now[hx] == entries[hx]);
            }
        }
    }
    assert(fresh(later, now, next)) by {
        if x.origin_left != ROOT_ORDER {
            assert(holds(now, x.origin_left));
        }
    }
    let (k2, h2) = law_integrated_place(mid, a, later, hx, next);
    lemma_end_moved(s, y, hy, order, now, i, h, k, h2, k2);
    let ys = span_orders(y);
    let xs = span_orders(later);
    assert(spliced(spliced(row, i, ys), k2, xs) =~= both_put(row, i, ys, k, xs));
}

/// Two peers that insert something without knowing of each other get the same text whichever
/// insertion comes in first, also where one of them is made inside text that the other one goes
/// past: the items `y` are inserted between two items that stand side by side, further right
/// than what the items `x` are inserted behind, and into a run that was itself inserted before
/// something else. Wherever else `x` goes, both orders leave the items in the same arrangement,
/// and each of them where it would go alone.
pub proof fn law_inserts_converge(
    doc: DocState,
    a: int,
    x: YjsSpan,
    hx: int,
    b: int,
    y: YjsSpan,
    hy: int,
    order: int,
    k: int,
    h: int,
)
    requires
        is_put_in(search_for(doc, a, x, hx), y, hy, order),
        fresh(x, doc.entries, order),
        order + x.span_len() + y.span_len() <= ROOT_ORDER,
        is_gap(search_for(doc, b, y, hy)),
        is_found(search_for(doc, a, x, hx), k, h),
        k != search_for(doc, b, y, hy).before(hy),
    ensures
        ({
            let row = orders(doc.entries);
            let i = search_for(doc, b, y, hy).before(hy);
            let x_left = x.origin_left as int;
            let y_left = y.origin_left as int;
            let y_later = renumbered(y, order + x.span_len());
            let x_later = renumbered(x, order + y.span_len());
            let with_x = doc.integrated(a, x, place_after(doc.entries, x_left));
            let with_y = doc.integrated(b, y, place_after(doc.entries, y_left));
            let x_then_y = with_x.integrated(b, y_later, place_after(with_x.entries, y_left));
            let y_then_x = with_y.integrated(a, x_later, place_after(with_y.entries, x_left));
            &&& orders(with_x.entries) == spliced(row, k, span_orders(x))
            &&& orders(with_y.entries) == spliced(row, i, span_orders(y))
            &&& orders(x_then_y.entries) == both_put(
                row,
                i,
                span_orders(y_later),
                k,
                span_orders(x),
            )
            &&& orders(y_then_x.entries) == both_put(
                row,
                i,
                span_orders(y),
                k,
                span_orders(x_later),
            )
        }),
{
    let (k1, h1) = law_integrated_place(doc, a, x, hx, order);
    lemma_found_once(search_for(doc, a, x, hx), k, h, k1, h1);
    lemma_gap_filled(doc, b, y, hy, order);
    lemma_then_gap(doc, a, x, search_for(doc, a, x, hx), b, y, hy, order, k);
    lemma_gap_first(doc, a, x, hx, b, y, hy, order, k, h);
}

} // verus!
