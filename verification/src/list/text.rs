//! The items of a document in their order in the text.

use crate::list::model::content_len;
use crate::list::span::YjsSpan;
use crate::range_tree::cursor::Place;
use crate::range_tree::deactivate::{
    content_after, deactivated_from, front_deactivated, lemma_content_after_cut,
    lemma_content_after_front, lemma_content_after_next, lemma_cut_items, lemma_front_items,
};
use crate::range_tree::mutations::{cut_entry, inserted, inserted_behind, lemma_items_len_update};
use crate::range_tree::runs::{entries_ok, entry_ok, items_len};
use crate::splitable_span::{glues, MergableSpan, SplitableSpan};
use vstd::prelude::*;

verus! {

/// The items of a run.
pub open spec fn span_orders(entry: YjsSpan) -> Seq<u32> {
    Seq::new(entry.span_len(), |k: int| (entry.order + k) as u32)
}

/// All items, visible and deleted ones.
pub open spec fn orders(entries: Seq<YjsSpan>) -> Seq<u32>
    decreases entries.len(),
{
    if entries.len() == 0 {
        Seq::empty()
    } else {
        orders(entries.drop_last()) + span_orders(entries.last())
    }
}

/// The items of a run that are visible: all or none.
pub open spec fn span_visible(entry: YjsSpan) -> Seq<u32> {
    if entry.active() {
        span_orders(entry)
    } else {
        Seq::empty()
    }
}

/// The visible items.
pub open spec fn visible(entries: Seq<YjsSpan>) -> Seq<u32>
    decreases entries.len(),
{
    if entries.len() == 0 {
        Seq::empty()
    } else {
        visible(entries.drop_last()) + span_visible(entries.last())
    }
}

/// How many items are left of a place.
pub open spec fn items_before(entries: Seq<YjsSpan>, p: Place) -> int {
    items_len(entries.take(p.entry)) + p.offset
}

/// How many visible items are left of a place.
pub open spec fn visible_before(entries: Seq<YjsSpan>, p: Place) -> int {
    content_len(entries.take(p.entry)) + if p.entry < entries.len()
        && entries[p.entry].active() {
        p.offset
    } else {
        0
    }
}

/// A row with others put in behind the first `at`.
pub open spec fn spliced(row: Seq<u32>, at: int, new: Seq<u32>) -> Seq<u32> {
    row.take(at) + new + row.skip(at)
}

pub proof fn lemma_text_add(a: Seq<YjsSpan>, b: Seq<YjsSpan>)
    ensures
        orders(a + b) == orders(a) + orders(b),
        visible(a + b) == visible(a) + visible(b),
    decreases b.len(),
{
    if b.len() == 0 {
        assert(a + b =~= a);
        assert(orders(a) + orders(b) =~= orders(a));
        assert(visible(a) + visible(b) =~= visible(a));
    } else {
        lemma_text_add(a, b.drop_last());
        assert((a + b).drop_last() =~= a + b.drop_last());
        assert((a + b).last() == b.last());
        assert(orders(a + b) =~= orders(a) + orders(b));
        assert(visible(a + b) =~= visible(a) + visible(b));
    }
}

pub proof fn lemma_text_one(entry: YjsSpan)
    ensures
        orders(seq![entry]) == span_orders(entry),
        visible(seq![entry]) == span_visible(entry),
{
    let one = seq![entry];
    assert(one.drop_last() =~= Seq::empty());
    assert(orders(one.drop_last()) =~= Seq::empty());
    assert(visible(one.drop_last()) =~= Seq::empty());
    assert(orders(one) =~= span_orders(entry));
    assert(visible(one) =~= span_visible(entry));
}

/// There are as many items as the entries hold together.
pub proof fn lemma_text_len(entries: Seq<YjsSpan>)
    ensures
        orders(entries).len() == items_len(entries),
        visible(entries).len() == content_len(entries),
    decreases entries.len(),
{
    if entries.len() > 0 {
        lemma_text_len(entries.drop_last());
    }
}

/// The items around an entry.
pub proof fn lemma_text_around(entries: Seq<YjsSpan>, g: int)
    requires
        0 <= g < entries.len(),
    ensures
        orders(entries) == orders(entries.take(g)) + span_orders(entries[g]) + orders(
            entries.skip(g + 1),
        ),
        visible(entries) == visible(entries.take(g)) + span_visible(entries[g]) + visible(
            entries.skip(g + 1),
        ),
        orders(entries.take(g)).len() == items_len(entries.take(g)),
        visible(entries.take(g)).len() == content_len(entries.take(g)),
{
    let one = seq![entries[g]];
    assert(entries =~= entries.take(g) + one + entries.skip(g + 1));
    lemma_text_add(entries.take(g), one);
    lemma_text_add(entries.take(g) + one, entries.skip(g + 1));
    lemma_text_one(entries[g]);
    lemma_text_len(entries.take(g));
}

/// The items around a gap between entries.
pub proof fn lemma_text_gap(entries: Seq<YjsSpan>, i: int)
    requires
        0 <= i <= entries.len(),
    ensures
        orders(entries) == orders(entries.take(i)) + orders(entries.skip(i)),
        visible(entries) == visible(entries.take(i)) + visible(entries.skip(i)),
        orders(entries.take(i)).len() == items_len(entries.take(i)),
        visible(entries.take(i)).len() == content_len(entries.take(i)),
{
    assert(entries =~= entries.take(i) + entries.skip(i));
    lemma_text_add(entries.take(i), entries.skip(i));
    lemma_text_len(entries.take(i));
}

/// Replacing an entry replaces its items.
pub proof fn lemma_text_update(entries: Seq<YjsSpan>, g: int, entry: YjsSpan)
    requires
        0 <= g < entries.len(),
    ensures
        orders(entries.update(g, entry)) == orders(entries.take(g)) + span_orders(entry) + orders(
            entries.skip(g + 1),
        ),
        visible(entries.update(g, entry)) == visible(entries.take(g)) + span_visible(entry)
            + visible(entries.skip(g + 1)),
{
    let now = entries.update(g, entry);
    lemma_text_around(now, g);
    assert(now.take(g) =~= entries.take(g));
    assert(now.skip(g + 1) =~= entries.skip(g + 1));
}

/// Inserting an entry inserts its items.
pub proof fn lemma_text_insert(entries: Seq<YjsSpan>, i: int, entry: YjsSpan)
    requires
        0 <= i <= entries.len(),
    ensures
        orders(entries.insert(i, entry)) == orders(entries.take(i)) + span_orders(entry) + orders(
            entries.skip(i),
        ),
        visible(entries.insert(i, entry)) == visible(entries.take(i)) + span_visible(entry)
            + visible(entries.skip(i)),
{
    let now = entries.insert(i, entry);
    lemma_text_around(now, i);
    assert(now.take(i) =~= entries.take(i));
    assert(now.skip(i + 1) =~= entries.skip(i));
}

/// Two parts in the place of an entry hold its items.
pub proof fn lemma_text_parts(entries: Seq<YjsSpan>, g: int, left: YjsSpan, right: YjsSpan)
    requires
        0 <= g < entries.len(),
    ensures
        ({
            let now = entries.update(g, left).insert(g + 1, right);
            &&& orders(now) == orders(entries.take(g)) + span_orders(left) + span_orders(right)
                + orders(entries.skip(g + 1))
            &&& visible(now) == visible(entries.take(g)) + span_visible(left) + span_visible(right)
                + visible(entries.skip(g + 1))
            &&& now.take(g) == entries.take(g)
            &&& now.take(g + 1) == entries.take(g).push(left)
        }),
{
    let mid = entries.update(g, left);
    let now = mid.insert(g + 1, right);
    lemma_text_insert(mid, g + 1, right);
    assert(mid.skip(g + 1) =~= entries.skip(g + 1));
    let head = mid.take(g + 1);
    assert(head.drop_last() =~= entries.take(g));
    assert(head.last() == left);
    assert(now.take(g) =~= entries.take(g));
    assert(now.take(g + 1) =~= entries.take(g).push(left));
}

/// Cutting an entry leaves the text as it is.
pub proof fn lemma_text_cut(entries: Seq<YjsSpan>, g: int, at: int)
    requires
        entries_ok(entries),
        0 <= g < entries.len(),
        0 < at < entries[g].span_len(),
    ensures
        orders(cut_entry(entries, g, at)) == orders(entries),
        visible(cut_entry(entries, g, at)) == visible(entries),
        items_len(cut_entry(entries, g, at).take(g + 1)) == items_len(entries.take(g)) + at,
        content_len(cut_entry(entries, g, at).take(g + 1)) == content_len(entries.take(g)) + if
            entries[g].active() {
            at
        } else {
            0
        },
{
    let whole = entries[g];
    let left = whole.left_of(at);
    let right = whole.right_of(at);
    let now = cut_entry(entries, g, at);
    assert(entry_ok(whole));
    lemma_text_parts(entries, g, left, right);
    lemma_text_around(entries, g);
    assert(span_orders(left) + span_orders(right) =~= span_orders(whole));
    assert(span_visible(left) + span_visible(right) =~= span_visible(whole));
    assert(orders(now) =~= orders(entries));
    assert(visible(now) =~= visible(entries));
    assert(now.take(g + 1).drop_last() =~= entries.take(g));
    assert(now.take(g + 1).last() == left);
}

/// Inserting behind an entry inserts the items there.
proof fn lemma_text_behind(entries: Seq<YjsSpan>, g: int, item: YjsSpan)
    requires
        entries_ok(entries),
        entry_ok(item),
        item.active(),
        0 <= g < entries.len(),
    ensures
        orders(inserted_behind(entries, g, item)) == spliced(
            orders(entries),
            items_len(entries.take(g + 1)) as int,
            span_orders(item),
        ),
        visible(inserted_behind(entries, g, item)) == spliced(
            visible(entries),
            content_len(entries.take(g + 1)),
            span_orders(item),
        ),
{
    let was = entries[g];
    assert(entry_ok(was));
    lemma_text_gap(entries, g + 1);
    if glues(was, item) {
        let whole = was.joined(&item);
        lemma_items_len_update(entries, g, whole);
        was.lemma_join(&item);
        lemma_text_update(entries, g, whole);
        assert(span_orders(whole) =~= span_orders(was) + span_orders(item));
        assert(entries.take(g + 1).drop_last() =~= entries.take(g));
        assert(entries.take(g + 1).last() == was);
    } else {
        lemma_text_insert(entries, g + 1, item);
    }
    assert(orders(inserted_behind(entries, g, item)) =~= spliced(
        orders(entries),
        items_len(entries.take(g + 1)) as int,
        span_orders(item),
    ));
    assert(visible(inserted_behind(entries, g, item)) =~= spliced(
        visible(entries),
        content_len(entries.take(g + 1)),
        span_orders(item),
    ));
}

/// Items that are inserted at a place are between those left and those right of it, and
/// those keep their order.
pub proof fn law_insert_keeps_order(entries: Seq<YjsSpan>, p: Place, item: YjsSpan)
    requires
        entries_ok(entries),
        p.within(entries),
        entry_ok(item),
        item.active(),
    ensures
        orders(inserted(entries, p, item)) == spliced(
            orders(entries),
            items_before(entries, p),
            span_orders(item),
        ),
        visible(inserted(entries, p, item)) == spliced(
            visible(entries),
            visible_before(entries, p),
            span_orders(item),
        ),
{
    let all = orders(entries);
    let shown = visible(entries);
    let new = span_orders(item);
    if entries.len() == 0 {
        assert(entries.take(0) =~= Seq::empty());
        lemma_text_one(item);
        assert(orders(seq![item]) =~= spliced(all, 0, new));
        assert(visible(seq![item]) =~= spliced(shown, 0, new));
    } else if p.offset == 0 && p.entry == 0 {
        lemma_text_insert(entries, 0, item);
        assert(entries.take(0) =~= Seq::empty());
        assert(entries.skip(0) =~= entries);
        assert(orders(entries.insert(0, item)) =~= spliced(all, 0, new));
        assert(visible(entries.insert(0, item)) =~= spliced(shown, 0, new));
    } else if p.offset == 0 {
        lemma_text_behind(entries, p.entry - 1, item);
    } else if p.offset == entries[p.entry].span_len() {
        lemma_text_behind(entries, p.entry, item);
        assert(entries.take(p.entry + 1).drop_last() =~= entries.take(p.entry));
        assert(entries.take(p.entry + 1).last() == entries[p.entry]);
        assert(entry_ok(entries[p.entry]));
    } else {
        let cut = cut_entry(entries, p.entry, p.offset);
        lemma_text_cut(entries, p.entry, p.offset);
        lemma_text_insert(cut, p.entry + 1, item);
        lemma_text_gap(cut, p.entry + 1);
        assert(orders(cut.insert(p.entry + 1, item)) =~= spliced(
            all,
            items_before(entries, p),
            new,
        ));
        assert(visible(cut.insert(p.entry + 1, item)) =~= spliced(
            shown,
            visible_before(entries, p),
            new,
        ));
    }
}

/// Deleting the first `n` visible items right of a place makes just these invisible, and
/// leaves all items in their places.
pub proof fn law_delete_takes_visible(entries: Seq<YjsSpan>, p: Place, n: int)
    requires
        entries_ok(entries),
        0 <= n <= content_after(entries, p),
        p.within(entries),
        entries.len() > 0,
    ensures
        ({
            let d = deactivated_from(entries, p, n);
            let v = visible_before(entries, p);
            &&& orders(d.entries) == orders(entries)
            &&& 0 <= v && v + n <= visible(entries).len()
            &&& visible(d.entries) == visible(entries).take(v) + visible(entries).skip(v + n)
            &&& orders(d.taken) == visible(entries).subrange(v, v + n)
        }),
    decreases n, entries.len() - p.entry, p.offset,
{
    let d = deactivated_from(entries, p, n);
    let v = visible_before(entries, p);
    let shown = visible(entries);
    let entry = entries[p.entry];
    assert(entry_ok(entry));
    lemma_text_around(entries, p.entry);
    lemma_text_len(entries.skip(p.entry + 1));
    if n <= 0 {
        assert(shown =~= shown.take(v) + shown.skip(v + n));
        assert(orders(d.taken) =~= shown.subrange(v, v + n));
    } else {
        let next = Place { entry: p.entry + 1, offset: 0 };
        if p.offset >= entry.span_len() || !entry.active() {
            lemma_content_after_next(entries, p);
            law_delete_takes_visible(entries, next, n);
            assert(entries.take(p.entry + 1).drop_last() =~= entries.take(p.entry));
            assert(entries.take(p.entry + 1).last() == entry);
        } else if p.offset > 0 {
            let cut = cut_entry(entries, p.entry, p.offset);
            lemma_cut_items(entries, p.entry, p.offset);
            lemma_content_after_cut(entries, p);
            lemma_text_cut(entries, p.entry, p.offset);
            law_delete_takes_visible(cut, next, n);
        } else {
            lemma_front_items(entries, p.entry, n);
            lemma_text_front(entries, p.entry, n);
            if n >= entry.span_len() {
                let front = front_deactivated(entries, p.entry, n);
                let m = n - entry.span_len();
                lemma_content_after_front(entries, p);
                law_delete_takes_visible(front, p, m);
                assert(front.take(p.entry) =~= entries.take(p.entry));
                let rest = deactivated_from(front, p, m);
                lemma_text_add(seq![entry], rest.taken);
                lemma_text_one(entry);
                lemma_take_out(
                    visible(entries.take(p.entry)),
                    span_orders(entry),
                    visible(entries.skip(p.entry + 1)),
                    m,
                );
            }
        }
    }
}

/// The text after the first items of an entry were deleted.
proof fn lemma_text_front(entries: Seq<YjsSpan>, g: int, n: int)
    requires
        entries_ok(entries),
        0 <= g < entries.len(),
        entries[g].active(),
        0 < n,
    ensures
        ({
            let front = front_deactivated(entries, g, n);
            let v = content_len(entries.take(g));
            let shown = visible(entries);
            &&& orders(front) == orders(entries)
            &&& n < entries[g].span_len() ==> visible(front) == shown.take(v) + shown.skip(v + n)
                && orders(seq![entries[g].left_of(n)]) == shown.subrange(v, v + n)
            &&& n >= entries[g].span_len() ==> visible(front) == visible(entries.take(g))
                + visible(entries.skip(g + 1))
        }),
{
    let entry = entries[g];
    let v = content_len(entries.take(g));
    let shown = visible(entries);
    let front = front_deactivated(entries, g, n);
    assert(entry_ok(entry));
    lemma_text_around(entries, g);
    if n < entry.span_len() {
        let left = entry.left_of(n);
        let right = entry.right_of(n);
        lemma_text_parts(entries, g, left.deactivated(), right);
        lemma_text_one(left);
        assert(span_orders(left.deactivated()) + span_orders(right) =~= span_orders(entry));
        assert(orders(front) =~= orders(entries));
        assert(visible(front) =~= shown.take(v) + shown.skip(v + n));
        assert(orders(seq![left]) =~= shown.subrange(v, v + n));
    } else {
        let dead = entry.deactivated();
        lemma_text_update(entries, g, dead);
        assert(span_orders(dead) =~= span_orders(entry));
        assert(orders(front) =~= orders(entries));
        assert(visible(front) =~= visible(entries.take(g)) + visible(entries.skip(g + 1)));
    }
}

/// Taking out a part of a row and more behind it.
proof fn lemma_take_out(a: Seq<u32>, b: Seq<u32>, c: Seq<u32>, m: int)
    requires
        0 <= m <= c.len(),
    ensures
        ({
            let v = a.len() as int;
            let n = b.len() + m;
            &&& (a + c).take(v) + (a + c).skip(v + m) == (a + b + c).take(v) + (a + b + c).skip(
                v + n,
            )
            &&& b + (a + c).subrange(v, v + m) == (a + b + c).subrange(v, v + n)
        }),
{
    let v = a.len() as int;
    let n = b.len() + m;
    assert((a + c).take(v) + (a + c).skip(v + m) =~= (a + b + c).take(v) + (a + b + c).skip(v + n));
    assert(b + (a + c).subrange(v, v + m) =~= (a + b + c).subrange(v, v + n));
}

} // verus!
