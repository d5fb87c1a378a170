//! Deleted items as runs of orders that follow each other.

use crate::list::{Order, ROOT_ORDER};
use crate::list::content::{lemma_content_bound, lemma_content_deactivated, lemma_gathered};
use crate::list::delete::DeleteEntry;
use crate::list::external_txn::RemoteOp;
use crate::list::keeps::lemma_row_run_deleted;
use crate::list::laws::{lemma_content_place_of, lemma_gathered_orders, lemma_logged, new_orders};
use crate::list::model::{
    content_len, content_place, deletes_logged, is_before_item, item_held, items_held, place_before,
    remote_ops_len, DocState,
};
use crate::list::remote_delete::lemma_items_held_rest;
use crate::list::seen::{lemma_run_is_deletion, lemma_visible_held};
use crate::list::span::YjsSpan;
use crate::list::text::{
    law_delete_takes_visible, lemma_text_around, lemma_text_cut, lemma_text_len, orders,
    span_orders, visible, visible_before,
};
use crate::list::valid::{lemma_place_unique, lemma_row_run, row_ok};
use crate::range_tree::cursor::Place;
use crate::range_tree::deactivate::{
    content_after, deactivated_from, front_deactivated, gathered, lemma_content_after_cut,
    lemma_content_after_front, lemma_content_after_next, lemma_cut_items, run_deactivated,
    run_taken,
};
use crate::range_tree::homes::{has_item, holds};
use crate::range_tree::mutations::cut_entry;
use crate::range_tree::runs::{entries_ok, entry_ok, items_len};
use crate::rle::KVPair;
use crate::rle::simple_rle::{lemma_rle_push, rle_end, rle_push, rle_sorted};
use crate::splitable_span::MergableSpan;
use vstd::prelude::*;

verus! {

/// The items of runs, each given by its first item and its length, one run after the other.
pub open spec fn run_row(runs: Seq<(int, int)>) -> Seq<u32>
    decreases runs.len(),
{
    if runs.len() == 0 {
        Seq::empty()
    } else {
        new_orders(runs[0].0, runs[0].1) + run_row(runs.skip(1))
    }
}

/// The runs of a row: no run goes on where the one before it ends.
pub open spec fn are_runs(runs: Seq<(int, int)>, row: Seq<u32>) -> bool {
    &&& run_row(runs) == row
    &&& forall|i: int|
        0 <= i < runs.len() ==> 0 <= (#[trigger] runs[i]).0 && 0 < runs[i].1 && runs[i].0
            + runs[i].1 <= ROOT_ORDER
    &&& apart(runs)
}

/// No run goes on where the one before it ends.
pub open spec fn apart(runs: Seq<(int, int)>) -> bool {
    forall|i: int, j: int|
        0 <= i && j == i + 1 && j < runs.len() ==> (#[trigger] runs[j]).0 != (
        #[trigger] runs[i]).0 + runs[i].1
}

/// The document after runs of items were deleted one after the other.
pub open spec fn runs_deleted(doc: DocState, runs: Seq<(int, int)>) -> DocState
    decreases runs.len(),
{
    if runs.len() == 0 {
        doc
    } else {
        runs_deleted(doc.run_deleted(runs[0].0, runs[0].1), runs.skip(1))
    }
}

/// One more run is deleted last.
proof fn lemma_runs_push(doc: DocState, runs: Seq<(int, int)>, run: (int, int))
    ensures
        runs_deleted(doc, runs.push(run)) == runs_deleted(doc, runs).run_deleted(run.0, run.1),
        run_row(runs.push(run)) == run_row(runs) + new_orders(run.0, run.1),
    decreases runs.len(),
{
    let more = runs.push(run);
    if runs.len() == 0 {
        assert(more.skip(1) =~= Seq::empty());
        assert(runs_deleted(doc.run_deleted(run.0, run.1), more.skip(1)) == doc.run_deleted(
            run.0,
            run.1,
        ));
        assert(run_row(more.skip(1)) =~= Seq::empty());
        assert(run_row(more) =~= run_row(runs) + new_orders(run.0, run.1));
    } else {
        assert(more.skip(1) =~= runs.skip(1).push(run));
        assert(more[0] == runs[0]);
        lemma_runs_push(doc.run_deleted(runs[0].0, runs[0].1), runs.skip(1), run);
        assert(run_row(more) =~= run_row(runs) + new_orders(run.0, run.1));
    }
}

/// Deleting items of an entry leaves as many visible items before them.
proof fn lemma_before_kept(entries: Seq<YjsSpan>, p: Place, n: int)
    requires
        entries_ok(entries),
        0 <= p.entry < entries.len(),
        0 <= p.offset,
        entries[p.entry].active(),
        n == entries[p.entry].span_len() - p.offset,
        0 < n,
    ensures
        ({
            let g = if p.offset > 0 {
                p.entry + 1
            } else {
                p.entry
            };
            let now = run_deactivated(entries, p, n);
            let at = Place { entry: g, offset: 0 };
            visible_before(now, at) == visible_before(entries, p) && at.within(now)
        }),
{
    let now = run_deactivated(entries, p, n);
    assert(entry_ok(entries[p.entry]));
    if p.offset > 0 {
        let cut = cut_entry(entries, p.entry, p.offset);
        lemma_text_cut(entries, p.entry, p.offset);
        assert(now.take(p.entry + 1) =~= cut.take(p.entry + 1));
    } else {
        assert(now.take(p.entry) =~= entries.take(p.entry));
    }
}

/// A run reaches at least as far as the items of an entry that it starts with.
proof fn lemma_run_reaches(row: Seq<u32>, runs: Seq<(int, int)>, t: int)
    requires
        row == run_row(runs),
        runs.len() > 0,
        0 < runs[0].1,
        apart(runs),
        forall|i: int|
            0 <= i < runs.len() ==> 0 <= (#[trigger] runs[i]).0 && 0 <= runs[i].1 && runs[i].0
                + runs[i].1 <= ROOT_ORDER,
        forall|i: int| 1 <= i < runs.len() ==> 0 < (#[trigger] runs[i]).1,
        0 < t <= row.len(),
        forall|j: int| 0 <= j < t ==> #[trigger] row[j] == runs[0].0 + j,
    ensures
        t <= runs[0].1,
{
    let l = runs[0].1;
    let rest = runs.skip(1);
    if t > l {
        assert(row[l] == runs[0].0 + l);
        assert(row[l] == run_row(rest)[0]);
        assert(rest.len() > 0);
        assert(rest[0] == runs[1]);
        assert(0 < runs[1].1);
        assert(new_orders(rest[0].0, rest[0].1)[0] == rest[0].0 as u32);
        assert(runs[1].0 != runs[0].0 + runs[0].1);
    }
}

/// Deleting visible items is deleting the runs of their names.
proof fn lemma_runs_follow(
    doc: DocState,
    p: Place,
    n: int,
    runs: Seq<(int, int)>,
    order: int,
)
    requires
        row_ok(doc.entries, order),
        doc.entries.len() > 0,
        p.within(doc.entries),
        0 <= n <= content_after(doc.entries, p),
        apart(runs),
        forall|i: int|
            0 <= i < runs.len() ==> 0 <= (#[trigger] runs[i]).0 && 0 <= runs[i].1 && runs[i].0
                + runs[i].1 <= ROOT_ORDER,
        forall|i: int| 1 <= i < runs.len() ==> 0 < (#[trigger] runs[i]).1,
        run_row(runs) == visible(doc.entries).subrange(
            visible_before(doc.entries, p),
            visible_before(doc.entries, p) + n,
        ),
    ensures
        runs_deleted(doc, runs) == (DocState {
            entries: deactivated_from(doc.entries, p, n).entries,
            ..doc
        }),
    decreases n, runs.len(), doc.entries.len() - p.entry,
{
    let entries = doc.entries;
    let shown = visible(entries);
    let v = visible_before(entries, p);
    law_delete_takes_visible(entries, p, n);
    if runs.len() == 0 {
        assert(run_row(runs).len() == 0);
    } else if runs[0].1 == 0 {
        let rest = runs.skip(1);
        assert(new_orders(runs[0].0, 0) + run_row(rest) =~= run_row(rest));
        assert(doc.run_deleted(runs[0].0, 0) == doc);
        lemma_rest_apart(runs);
        if rest.len() > 0 {
            assert(rest[0] == runs[1]);
        }
        lemma_runs_follow(doc, p, n, rest, order);
    } else {
        assert(new_orders(runs[0].0, runs[0].1).len() == runs[0].1);
        assert(n > 0);
        let entry = entries[p.entry];
        assert(entry_ok(entry));
        lemma_text_around(entries, p.entry);
        if p.offset >= entry.span_len() || !entry.active() {
            let next = Place { entry: p.entry + 1, offset: 0 };
            lemma_content_after_next(entries, p);
            assert(entries.take(p.entry + 1).drop_last() =~= entries.take(p.entry));
            assert(entries.take(p.entry + 1).last() == entry);
            assert(visible_before(entries, next) == v);
            lemma_runs_follow(doc, next, n, runs, order);
        } else {
            lemma_runs_step(doc, p, n, runs, order);
            let t = run_taken(entry, p.offset, n);
            let now = run_deactivated(entries, p, t);
            let step = DocState { entries: now, ..doc };
            let left = runs.update(0, (runs[0].0 + t, runs[0].1 - t));
            lemma_run_is_deletion(entries, p, t);
            if t < n {
                let at = if p.offset > 0 {
                    Place { entry: p.entry + 1, offset: 0 }
                } else {
                    p
                };
                lemma_runs_left(doc, p, n, runs, order);
                lemma_runs_follow(step, at, n - t, left, order);
            } else {
                assert(runs.len() == 1 && runs[0].1 == t) by {
                    let rest = runs.skip(1);
                    assert(run_row(runs).len() == runs[0].1 + run_row(rest).len());
                    if rest.len() > 0 {
                        assert(rest[0] == runs[1]);
                        assert(new_orders(rest[0].0, rest[0].1).len() == rest[0].1);
                    }
                }
                assert(left.skip(1) =~= Seq::empty());
                assert(step.run_deleted(left[0].0, 0) == step);
                assert(runs_deleted(step, left.skip(1)) == step);
            }
        }
    }
}

/// The runs behind the first one are apart, too.
proof fn lemma_rest_apart(runs: Seq<(int, int)>)
    requires
        runs.len() > 0,
        apart(runs),
        forall|i: int|
            0 <= i < runs.len() ==> 0 <= (#[trigger] runs[i]).0 && 0 <= runs[i].1 && runs[i].0
                + runs[i].1 <= ROOT_ORDER,
        forall|i: int| 1 <= i < runs.len() ==> 0 < (#[trigger] runs[i]).1,
    ensures
        ({
            let rest = runs.skip(1);
            &&& apart(rest)
            &&& forall|i: int|
                0 <= i < rest.len() ==> 0 <= (#[trigger] rest[i]).0 && 0 <= rest[i].1 && rest[i].0
                    + rest[i].1 <= ROOT_ORDER
            &&& forall|i: int| 1 <= i < rest.len() ==> 0 < (#[trigger] rest[i]).1
        }),
{
    let rest = runs.skip(1);
    assert forall|i: int, j: int| 0 <= i && j == i + 1 && j < rest.len() implies (
    #[trigger] rest[j]).0 != (#[trigger] rest[i]).0 + rest[i].1 by {
        assert(runs[j + 1].0 != runs[i + 1].0 + runs[i + 1].1);
    }
    assert forall|i: int| 0 <= i < rest.len() implies 0 <= (#[trigger] rest[i]).0 && 0 < rest[i].1
        && rest[i].0 + rest[i].1 <= ROOT_ORDER by {
        assert(0 < runs[i + 1].1);
    }
}

/// The first run starts with the visible items of the entry at hand.
proof fn lemma_runs_step(
    doc: DocState,
    p: Place,
    n: int,
    runs: Seq<(int, int)>,
    order: int,
)
    requires
        row_ok(doc.entries, order),
        0 <= p.entry < doc.entries.len(),
        0 <= p.offset < doc.entries[p.entry].span_len(),
        doc.entries[p.entry].active(),
        0 < n <= content_after(doc.entries, p),
        apart(runs),
        runs.len() > 0,
        0 < runs[0].1,
        forall|i: int|
            0 <= i < runs.len() ==> 0 <= (#[trigger] runs[i]).0 && 0 <= runs[i].1 && runs[i].0
                + runs[i].1 <= ROOT_ORDER,
        forall|i: int| 1 <= i < runs.len() ==> 0 < (#[trigger] runs[i]).1,
        run_row(runs) == visible(doc.entries).subrange(
            visible_before(doc.entries, p),
            visible_before(doc.entries, p) + n,
        ),
    ensures
        ({
            let t = run_taken(doc.entries[p.entry], p.offset, n);
            let step = DocState { entries: run_deactivated(doc.entries, p, t), ..doc };
            &&& 0 < t <= runs[0].1
            &&& runs[0].0 == doc.entries[p.entry].order + p.offset
            &&& runs_deleted(doc, runs) == runs_deleted(
                step,
                runs.update(0, (runs[0].0 + t, runs[0].1 - t)),
            )
        }),
{
    let entries = doc.entries;
    let shown = visible(entries);
    let v = visible_before(entries, p);
    let entry = entries[p.entry];
    let row = run_row(runs);
    let t = run_taken(entry, p.offset, n);
    assert(entry_ok(entry));
    lemma_text_around(entries, p.entry);
    law_delete_takes_visible(entries, p, n);
    assert(new_orders(runs[0].0, runs[0].1).len() == runs[0].1);
    assert forall|j: int| 0 <= j < t implies #[trigger] row[j] == entry.order + p.offset + j by {
        assert(row[j] == shown[v + j]);
    }
    assert(row[0] == new_orders(runs[0].0, runs[0].1)[0]);
    assert(row[0] == entry.order + p.offset + 0);
    assert(runs[0].0 == entry.order + p.offset);
    lemma_run_reaches(row, runs, t);
    assert(run_row(runs).len() >= runs[0].1);
    assert(run_taken(entry, p.offset, runs[0].1) == t);
    let target = runs[0].0;
    assert(is_before_item(entries, p, target));
    lemma_place_unique(entries, p, target);
    let step = DocState { entries: run_deactivated(entries, p, t), ..doc };
    assert(doc.run_deleted(target, runs[0].1) == step.run_deleted(target + t, runs[0].1 - t));
    let left = runs.update(0, (target + t, runs[0].1 - t));
    assert(left.skip(1) =~= runs.skip(1));
}

/// What is left of the runs after the entry at hand.
proof fn lemma_runs_left(
    doc: DocState,
    p: Place,
    n: int,
    runs: Seq<(int, int)>,
    order: int,
)
    requires
        row_ok(doc.entries, order),
        0 <= p.entry < doc.entries.len(),
        0 <= p.offset < doc.entries[p.entry].span_len(),
        doc.entries[p.entry].active(),
        0 < n <= content_after(doc.entries, p),
        apart(runs),
        runs.len() > 0,
        0 < runs[0].1,
        runs[0].0 == doc.entries[p.entry].order + p.offset,
        run_taken(doc.entries[p.entry], p.offset, n) < n,
        run_taken(doc.entries[p.entry], p.offset, n) <= runs[0].1,
        forall|i: int|
            0 <= i < runs.len() ==> 0 <= (#[trigger] runs[i]).0 && 0 <= runs[i].1 && runs[i].0
                + runs[i].1 <= ROOT_ORDER,
        forall|i: int| 1 <= i < runs.len() ==> 0 < (#[trigger] runs[i]).1,
        run_row(runs) == visible(doc.entries).subrange(
            visible_before(doc.entries, p),
            visible_before(doc.entries, p) + n,
        ),
    ensures
        ({
            let t = run_taken(doc.entries[p.entry], p.offset, n);
            let now = run_deactivated(doc.entries, p, t);
            let left = runs.update(0, (runs[0].0 + t, runs[0].1 - t));
            let at = if p.offset > 0 {
                Place { entry: p.entry + 1, offset: 0 }
            } else {
                p
            };
            &&& row_ok(now, order)
            &&& now.len() > 0
            &&& at.within(now)
            &&& n - t <= content_after(now, at)
            &&& apart(left)
            &&& forall|i: int|
                0 <= i < left.len() ==> 0 <= (#[trigger] left[i]).0 && 0 <= left[i].1 && left[i].0
                    + left[i].1 <= ROOT_ORDER
            &&& forall|i: int| 1 <= i < left.len() ==> 0 < (#[trigger] left[i]).1
            &&& run_row(left) == visible(now).subrange(
                visible_before(now, at),
                visible_before(now, at) + (n - t),
            )
            &&& deactivated_from(doc.entries, p, n).entries == deactivated_from(
                now,
                at,
                n - t,
            ).entries
        }),
{
    let entries = doc.entries;
    let shown = visible(entries);
    let v = visible_before(entries, p);
    let entry = entries[p.entry];
    assert(entry_ok(entry));
    let t = run_taken(entry, p.offset, n);
    let now = run_deactivated(entries, p, t);
    let left = runs.update(0, (runs[0].0 + t, runs[0].1 - t));
    let (row, g) = if p.offset > 0 {
        (cut_entry(entries, p.entry, p.offset), p.entry + 1)
    } else {
        (entries, p.entry)
    };
    let at = Place { entry: g, offset: 0 };
    lemma_row_run(entries, p, t, order);
    lemma_run_is_deletion(entries, p, t);
    if p.offset > 0 {
        lemma_cut_items(entries, p.entry, p.offset);
        lemma_content_after_cut(entries, p);
    }
    assert(deactivated_from(entries, p, n) == deactivated_from(row, at, n));
    assert(row[g].span_len() == t && row[g].active());
    assert(front_deactivated(row, g, n) == now);
    assert(deactivated_from(row, at, n).entries == deactivated_from(now, at, n - t).entries);
    lemma_content_after_front(row, at);
    law_delete_takes_visible(entries, p, n);
    law_delete_takes_visible(entries, p, t);
    lemma_before_kept(entries, p, t);
    assert forall|i: int, j: int| 0 <= i && j == i + 1 && j < left.len() implies (
    #[trigger] left[j]).0 != (#[trigger] left[i]).0 + left[i].1 by {
        assert(runs[j].0 != runs[i].0 + runs[i].1);
    }
    assert forall|i: int| 0 <= i < left.len() implies 0 <= (#[trigger] left[i]).0 && 0 <= left[i].1
        && left[i].0 + left[i].1 <= ROOT_ORDER by {
        assert(0 <= runs[i].0 && 0 <= runs[i].1 && runs[i].0 + runs[i].1 <= ROOT_ORDER);
    }
    assert forall|i: int| 1 <= i < left.len() implies 0 < (#[trigger] left[i]).1 by {
        assert(0 < runs[i].1);
    }
    assert(left.skip(1) =~= runs.skip(1));
    let rest = run_row(runs.skip(1));
    assert(new_orders(runs[0].0, runs[0].1).skip(t) =~= new_orders(
        runs[0].0 + t,
        runs[0].1 - t,
    ));
    assert(run_row(left) =~= run_row(runs).skip(t));
    assert(visible(now).subrange(v, v + (n - t)) =~= shown.subrange(v + t, v + n));
    assert(run_row(runs).skip(t) =~= shown.subrange(v + t, v + n));
}

/// The items of a row, logged one by one.
pub open spec fn logged_singly(
    deletes: Seq<KVPair<DeleteEntry>>,
    row: Seq<u32>,
    order: int,
) -> Seq<KVPair<DeleteEntry>>
    decreases row.len(),
{
    if row.len() == 0 {
        deletes
    } else {
        rle_push(
            logged_singly(deletes, row.drop_last(), order),
            KVPair((order + row.len() - 1) as u32, DeleteEntry { order: row.last(), len: 1 }),
        )
    }
}

proof fn lemma_singly_add(
    deletes: Seq<KVPair<DeleteEntry>>,
    a: Seq<u32>,
    b: Seq<u32>,
    order: int,
)
    ensures
        logged_singly(deletes, a + b, order) == logged_singly(
            logged_singly(deletes, a, order),
            b,
            order + a.len(),
        ),
    decreases b.len(),
{
    if b.len() == 0 {
        assert(a + b =~= a);
    } else {
        lemma_singly_add(deletes, a, b.drop_last(), order);
        assert((a + b).drop_last() =~= a + b.drop_last());
        assert((a + b).last() == b.last());
    }
}

/// Two runs, of which the second one goes on where the first one ends, are logged as one.
proof fn lemma_push_merged(
    deletes: Seq<KVPair<DeleteEntry>>,
    order: int,
    target: int,
    m: int,
    n: int,
)
    requires
        rle_sorted(deletes),
        0 <= rle_end(deletes) <= order,
        0 <= target,
        0 < m,
        0 <= n,
        order + m + n <= u32::MAX,
        target + m + n <= u32::MAX,
    ensures
        rle_push(
            rle_push(
                deletes,
                KVPair(order as u32, DeleteEntry { order: target as u32, len: m as u32 }),
            ),
            KVPair(
                (order + m) as u32,
                DeleteEntry { order: (target + m) as u32, len: n as u32 },
            ),
        ) == rle_push(
            deletes,
            KVPair(order as u32, DeleteEntry { order: target as u32, len: (m + n) as u32 }),
        ),
{
    let a = KVPair(order as u32, DeleteEntry { order: target as u32, len: m as u32 });
    let b = KVPair(
        (order + m) as u32,
        DeleteEntry { order: (target + m) as u32, len: n as u32 },
    );
    let all = KVPair(order as u32, DeleteEntry { order: target as u32, len: (m + n) as u32 });
    let was = rle_push(deletes, a);
    assert(a.appends(&b));
    assert(a.joined(&b) == all);
    if deletes.len() > 0 {
        assert(deletes[deletes.len() - 1].span_ok());
    }
    if deletes.len() > 0 && deletes.last().appends(&a) {
        assert(was.last() == deletes.last().joined(&a));
        assert(was.last().appends(&b));
        assert(deletes.last().appends(&all));
        assert(was.last().joined(&b) == deletes.last().joined(&all));
    } else {
        assert(was.last() == a);
    }
    assert(rle_push(was, b) =~= rle_push(deletes, all));
}

/// Logging a run is logging its items one by one.
proof fn lemma_run_singly(
    deletes: Seq<KVPair<DeleteEntry>>,
    order: int,
    target: int,
    len: int,
)
    requires
        rle_sorted(deletes),
        0 <= rle_end(deletes) <= order,
        0 <= target,
        0 < len,
        order + len <= u32::MAX,
        target + len <= u32::MAX,
    ensures
        rle_push(
            deletes,
            KVPair(order as u32, DeleteEntry { order: target as u32, len: len as u32 }),
        ) == logged_singly(deletes, new_orders(target, len), order),
    decreases len,
{
    let row = new_orders(target, len);
    assert(row.drop_last() =~= new_orders(target, len - 1));
    assert(row.last() == target + len - 1);
    if len == 1 {
        assert(logged_singly(deletes, row.drop_last(), order) == deletes);
    } else {
        lemma_run_singly(deletes, order, target, len - 1);
        lemma_push_merged(deletes, order, target, len - 1, 1);
    }
}

/// Logging spans is logging their items one by one.
proof fn lemma_spans_singly(
    deletes: Seq<KVPair<DeleteEntry>>,
    spans: Seq<YjsSpan>,
    order: int,
)
    requires
        rle_sorted(deletes),
        0 <= rle_end(deletes) <= order,
        order + items_len(spans) <= u32::MAX,
        forall|i: int| 0 <= i < spans.len() ==> entry_ok(#[trigger] spans[i]),
    ensures
        deletes_logged(deletes, spans, order) == logged_singly(deletes, orders(spans), order),
    decreases spans.len(),
{
    if spans.len() > 0 {
        let head = spans.drop_last();
        let span = spans.last();
        assert(spans[spans.len() - 1] == span);
        assert(entry_ok(span));
        assert forall|i: int| 0 <= i < head.len() implies entry_ok(#[trigger] head[i]) by {
            assert(head[i] == spans[i]);
        }
        lemma_spans_singly(deletes, head, order);
        lemma_logged(deletes, head, order);
        lemma_text_len(head);
        let was = deletes_logged(deletes, head, order);
        let m = items_len(head) as int;
        lemma_end_nonneg(was);
        lemma_run_singly(was, order + m, span.order as int, span.span_len() as int);
        assert(span_orders(span) =~= new_orders(span.order as int, span.span_len() as int));
        lemma_singly_add(deletes, orders(head), span_orders(span), order);
    }
}

proof fn lemma_end_nonneg(deletes: Seq<KVPair<DeleteEntry>>)
    ensures
        0 <= rle_end(deletes),
{
}

/// Runs, logged one after the other.
pub open spec fn runs_logged(
    deletes: Seq<KVPair<DeleteEntry>>,
    runs: Seq<(int, int)>,
    order: int,
) -> Seq<KVPair<DeleteEntry>>
    decreases runs.len(),
{
    if runs.len() == 0 {
        deletes
    } else {
        let before = runs.drop_last();
        rle_push(
            runs_logged(deletes, before, order),
            KVPair(
                (order + run_row(before).len()) as u32,
                DeleteEntry { order: runs.last().0 as u32, len: runs.last().1 as u32 },
            ),
        )
    }
}

/// Logging runs is logging their items one by one.
proof fn lemma_runs_singly(
    deletes: Seq<KVPair<DeleteEntry>>,
    runs: Seq<(int, int)>,
    order: int,
)
    requires
        rle_sorted(deletes),
        0 <= rle_end(deletes) <= order,
        order + run_row(runs).len() <= u32::MAX,
        forall|i: int|
            0 <= i < runs.len() ==> 0 <= (#[trigger] runs[i]).0 && 0 < runs[i].1 && runs[i].0
                + runs[i].1 <= ROOT_ORDER,
    ensures
        runs_logged(deletes, runs, order) == logged_singly(deletes, run_row(runs), order),
        rle_sorted(runs_logged(deletes, runs, order)),
        0 <= rle_end(runs_logged(deletes, runs, order)) <= order + run_row(runs).len(),
    decreases runs.len(),
{
    if runs.len() > 0 {
        let head = runs.drop_last();
        let run = runs.last();
        assert(runs[runs.len() - 1] == run);
        assert(head.push(run) =~= runs);
        lemma_runs_push(arbitrary(), head, run);
        assert(new_orders(run.0, run.1).len() == run.1);
        assert forall|i: int| 0 <= i < head.len() implies 0 <= (#[trigger] head[i]).0 && 0
            < head[i].1 && head[i].0 + head[i].1 <= ROOT_ORDER by {
            assert(head[i] == runs[i]);
        }
        lemma_runs_singly(deletes, head, order);
        let was = runs_logged(deletes, head, order);
        let m = run_row(head).len() as int;
        let val = KVPair(
            (order + m) as u32,
            DeleteEntry { order: run.0 as u32, len: run.1 as u32 },
        );
        if was.len() > 0 {
            assert(was[was.len() - 1].span_ok());
        }
        lemma_rle_push(was, val);
        lemma_run_singly(was, order + m, run.0, run.1);
        lemma_singly_add(deletes, run_row(head), new_orders(run.0, run.1), order);
    } else {
        assert(run_row(runs) =~= Seq::empty());
    }
}

/// What was logged does not matter to a deletion.
proof fn lemma_deleted_unlogged(
    doc: DocState,
    deletes: Seq<KVPair<DeleteEntry>>,
    target: int,
    len: int,
)
    ensures
        (DocState { deletes, ..doc }).run_deleted(target, len) == (DocState {
            deletes,
            ..doc.run_deleted(target, len)
        }),
    decreases len,
{
    if len > 0 {
        let p = place_before(doc.entries, target);
        let entry = doc.entries[p.entry];
        let n = run_taken(entry, p.offset, len);
        if 0 < n <= len {
            let excess = doc.double_deletes;
            let step = if entry.active() {
                DocState { entries: run_deactivated(doc.entries, p, n), ..doc }
            } else {
                DocState {
                    double_deletes: |key: int|
                        excess(key) + if target <= key < target + n {
                            1int
                        } else {
                            0
                        },
                    ..doc
                }
            };
            assert(doc.run_deleted(target, len) == step.run_deleted(target + n, len - n));
            let other = DocState { deletes, ..doc };
            let other_step = DocState { deletes, ..step };
            assert(other.run_deleted(target, len) == other_step.run_deleted(target + n, len - n));
            lemma_deleted_unlogged(step, deletes, target + n, len - n);
        }
    }
}

/// The runs that deleting steps of a remote transaction name.
pub open spec fn runs_of(doc: DocState, ops: Seq<RemoteOp>, m: int) -> Seq<(int, int)> {
    Seq::new(
        m as nat,
        |i: int| (doc.resolved(ops[i]->id.agent@, ops[i]->id.seq as int)->0, ops[i]->len as int),
    )
}

/// The first `m` steps delete known items.
pub open spec fn are_deletions(doc: DocState, ops: Seq<RemoteOp>, m: int) -> bool {
    &&& 0 <= m <= ops.len()
    &&& forall|i: int|
        0 <= i < m ==> (#[trigger] ops[i]) is Del && doc.resolved(
            ops[i]->id.agent@,
            ops[i]->id.seq as int,
        ) is Some
}

/// What deleting steps of a remote transaction do.
proof fn lemma_deletions(
    doc: DocState,
    agent: int,
    ops: Seq<RemoteOp>,
    m: int,
    k: int,
    order: int,
)
    requires
        are_deletions(doc, ops, m),
        0 <= k <= m,
        row_ok(doc.entries, order),
        forall|x: int|
            0 <= x < m ==> items_held(
                doc.entries,
                (#[trigger] runs_of(doc, ops, m)[x]).0,
                runs_of(doc, ops, m)[x].1,
            ),
    ensures
        ({
            let runs = runs_of(doc, ops, m).take(k);
            let after = runs_deleted(doc, runs);
            &&& doc.changed_by(agent, ops, k, order) == (DocState {
                deletes: runs_logged(doc.deletes, runs, order),
                ..after
            })
            &&& remote_ops_len(ops, k) == run_row(runs).len()
            &&& row_ok(after.entries, order)
            &&& forall|x: Order| #[trigger] holds(after.entries, x) == holds(doc.entries, x)
        }),
        forall|j: int|
            0 <= j < k ==> (#[trigger] doc.changed_by(agent, ops, j, order)).remote_op_ok(ops[j]),
    decreases k,
{
    let all = runs_of(doc, ops, m);
    let runs = all.take(k);
    if k == 0 {
        assert(runs =~= Seq::empty());
        assert(run_row(runs) =~= Seq::empty());
    } else {
        lemma_deletions(doc, agent, ops, m, k - 1, order);
        let head = all.take(k - 1);
        let run = all[k - 1];
        assert(runs =~= head.push(run));
        assert(runs.drop_last() =~= head);
        lemma_runs_push(doc, head, run);
        assert(new_orders(run.0, run.1).len() == run.1);
        let before = doc.changed_by(agent, ops, k - 1, order);
        doc.lemma_changed_by(agent, ops, k - 1, order);
        let op = ops[k - 1];
        assert(op is Del);
        let at = order + remote_ops_len(ops, k - 1);
        let log = rle_push(
            before.deletes,
            KVPair(at as u32, DeleteEntry { order: run.0 as u32, len: op->len }),
        );
        let mid = runs_deleted(doc, head);
        assert(items_held(doc.entries, all[k - 1].0, all[k - 1].1));
        lemma_items_held_rest(doc.entries, mid.entries, run.0, 0, run.1);
        assert(before.remote_op_ok(op));
        lemma_deleted_unlogged(mid, log, run.0, run.1);
        lemma_row_run_deleted(mid, run.0, run.1, order);
        assert(before.changed(agent, op, at) == (DocState { deletes: log, ..mid }).run_deleted(
            run.0,
            run.1,
        ));
        assert forall|x: Order| #[trigger]
            holds(runs_deleted(doc, runs).entries, x) == holds(doc.entries, x) by {
            assert(holds(mid.entries, x) == holds(doc.entries, x));
        }
        assert forall|j: int| 0 <= j < k implies (#[trigger] doc.changed_by(
            agent,
            ops,
            j,
            order,
        )).remote_op_ok(ops[j]) by {
            if j == k - 1 {
                assert(doc.changed_by(agent, ops, j, order) == before);
            }
        }
    }
}

/// Steps that delete the runs of visible items delete these items.
pub proof fn lemma_deletions_repeat(
    doc: DocState,
    agent: int,
    ops: Seq<RemoteOp>,
    m: int,
    pos: int,
    len: int,
    order: int,
)
    requires
        doc.content_ok(order),
        0 <= order,
        0 <= pos,
        0 < len,
        pos + len <= content_len(doc.entries),
        order + len <= u32::MAX,
        are_deletions(doc, ops, m),
        are_runs(runs_of(doc, ops, m), visible(doc.entries).subrange(pos, pos + len)),
    ensures
        doc.changed_by(agent, ops, m, order) == doc.locally_deleted(pos, len, order),
        remote_ops_len(ops, m) == len,
        forall|j: int|
            0 <= j < m ==> (#[trigger] doc.changed_by(agent, ops, j, order)).remote_op_ok(ops[j]),
{
    let entries = doc.entries;
    let shown = visible(entries);
    let runs = runs_of(doc, ops, m);
    let row = shown.subrange(pos, pos + len);
    lemma_content_place_of(entries, pos);
    let p = content_place(entries, pos);
    let d = deactivated_from(entries, p, len);
    let spans = gathered(d.taken);
    law_delete_takes_visible(entries, p, len);
    lemma_content_deactivated(entries, p, len);
    lemma_content_bound(entries);
    lemma_gathered(d.taken);
    lemma_gathered_orders(d.taken);
    lemma_text_len(spans);
    lemma_end_nonneg(doc.deletes);
    lemma_spans_singly(doc.deletes, spans, order);
    lemma_runs_singly(doc.deletes, runs, order);
    assert forall|x: int| 0 <= x < m implies items_held(
        entries,
        (#[trigger] runs[x]).0,
        runs[x].1,
    ) by {
        lemma_run_held(entries, pos, len, runs, x);
    }
    lemma_deletions(doc, agent, ops, m, m, order);
    assert(runs.take(m) =~= runs);
    lemma_runs_follow(doc, p, len, runs, order);
}

/// Where a run is in the row.
proof fn lemma_run_at(runs: Seq<(int, int)>, i: int) -> (at: int)
    requires
        0 <= i < runs.len(),
        forall|j: int| 0 <= j < runs.len() ==> 0 <= (#[trigger] runs[j]).1,
    ensures
        0 <= at,
        at + runs[i].1 <= run_row(runs).len(),
        forall|j: int|
            0 <= j < runs[i].1 ==> #[trigger] run_row(runs)[at + j] == (runs[i].0 + j) as u32,
    decreases i,
{
    let rest = runs.skip(1);
    let first = new_orders(runs[0].0, runs[0].1);
    assert(0 <= runs[0].1);
    assert(first.len() == runs[0].1);
    if i == 0 {
        assert forall|j: int| 0 <= j < runs[i].1 implies #[trigger] run_row(runs)[0 + j] == (
        runs[i].0 + j) as u32 by {
            assert(run_row(runs)[j] == first[j]);
        }
        0
    } else {
        assert forall|j: int| 0 <= j < rest.len() implies 0 <= (#[trigger] rest[j]).1 by {
            assert(0 <= runs[j + 1].1);
        }
        assert(rest[i - 1] == runs[i]);
        let at = lemma_run_at(rest, i - 1);
        let here = at + runs[0].1;
        assert forall|j: int| 0 <= j < runs[i].1 implies #[trigger] run_row(runs)[here + j] == (
        runs[i].0 + j) as u32 by {
            assert(run_row(rest)[at + j] == (rest[i - 1].0 + j) as u32);
            assert(run_row(runs)[here + j] == run_row(rest)[at + j]);
        }
        here
    }
}

/// The items of a run of visible items are items of the document.
proof fn lemma_run_held(
    entries: Seq<YjsSpan>,
    pos: int,
    len: int,
    runs: Seq<(int, int)>,
    i: int,
)
    requires
        entries_ok(entries),
        0 <= pos,
        0 <= len,
        pos + len <= visible(entries).len(),
        are_runs(runs, visible(entries).subrange(pos, pos + len)),
        0 <= i < runs.len(),
    ensures
        items_held(entries, runs[i].0, runs[i].1),
{
    let row = visible(entries).subrange(pos, pos + len);
    assert forall|j: int| 0 <= j < runs.len() implies 0 <= (#[trigger] runs[j]).1 by {}
    assert(0 <= runs[i].0 && 0 < runs[i].1 && runs[i].0 + runs[i].1 <= ROOT_ORDER);
    let at = lemma_run_at(runs, i);
    assert forall|x: int| runs[i].0 <= x < runs[i].0 + runs[i].1 implies #[trigger] item_held(
        entries,
        x,
    ) by {
        let j = x - runs[i].0;
        assert(row[at + j] == (runs[i].0 + j) as u32);
        let g = lemma_visible_held(entries, pos + (at + j));
        assert(entry_ok(entries[g]));
        assert(has_item(entries[g], x as u32));
        assert(holds(entries, x as u32));
    }
}

} // verus!
