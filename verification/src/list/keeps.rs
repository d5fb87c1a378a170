//! What every operation keeps of a document.

use crate::list::{Order, ROOT_ORDER};
use crate::list::content::{lemma_content_bound, lemma_content_deactivated, lemma_gathered};
use crate::list::delete::DeleteEntry;
use crate::list::deletions::{deletions_counted, lemma_deletions_counted};
use crate::list::external_txn::{RemoteOp, RemoteTxn};
use crate::list::laws::{
    lemma_content_place_of, lemma_edited_by, lemma_gathered_orders, lemma_logged, lemma_logged_next,
    lemma_ops_len_nonneg, lemma_remote_ops_len_nonneg, lemma_row_later, new_orders,
};
use crate::list::model::{
    content_len, content_place, deleted_item, is_deleted, item_held, items_held, logs, ops_len,
    place_after, place_before, remote_op_inserted, remote_op_len, remote_ops_len, DocState, Edit,
};
use crate::list::remote_delete::{law_remote_delete, lemma_items_held_rest};
use crate::list::seen::{lemma_taken_out, lemma_visible_held, lemma_visible_once};
use crate::list::span::YjsSpan;
use crate::list::text::{
    law_delete_takes_visible, law_insert_keeps_order, lemma_text_around, lemma_text_len,
    span_orders, spliced, visible, visible_before,
};
use crate::list::valid::{
    accounted, fresh, lemma_assigned, lemma_place_before, lemma_resolved_order,
    lemma_row_deactivated, lemma_row_inserted, lemma_row_run, lemma_with_agent, lemma_with_txn_ok,
    row_ok,
};
use crate::range_tree::cursor::Place;
use crate::range_tree::deactivate::{
    deactivated_from, gathered, lemma_has_order, run_deactivated, run_taken,
};
use crate::range_tree::homes::{has_item, holds};
use crate::range_tree::mutations::inserted;
use crate::range_tree::runs::{entries_ok, entry_ok, items_len};
use crate::rle::{KVPair, RleKeyed};
use crate::rle::simple_rle::{covered, covers, key_end, rle_end, rle_push, rle_sorted};
use crate::splitable_span::MergableSpan;
use vstd::prelude::*;

verus! {

/// Nothing behind the end of a list is in it.
pub proof fn lemma_covered_end(deletes: Seq<KVPair<DeleteEntry>>, x: int)
    requires
        rle_sorted(deletes),
        covered(deletes, x),
    ensures
        0 <= x < rle_end(deletes),
{
    let i = choose|i: int| 0 <= i < deletes.len() && #[trigger] covers(deletes[i], x);
    let n = deletes.len() - 1;
    if i < n {
        assert(key_end(deletes[i]) <= deletes[n].rle_key());
    }
}

/// Where some are put into a row, the row has those and what it had.
proof fn lemma_spliced_contains(row: Seq<u32>, at: int, new: Seq<u32>, x: u32)
    requires
        0 <= at <= row.len(),
    ensures
        spliced(row, at, new).contains(x) == (row.contains(x) || new.contains(x)),
{
    let all = spliced(row, at, new);
    if row.contains(x) {
        let i = choose|i: int| 0 <= i < row.len() && row[i] == x;
        let j = if i < at { i } else { i + new.len() };
        assert(all[j] == x);
    }
    if new.contains(x) {
        let i = choose|i: int| 0 <= i < new.len() && new[i] == x;
        assert(all[at + i] == x);
    }
    if all.contains(x) {
        let j = choose|j: int| 0 <= j < all.len() && all[j] == x;
        if j < at {
            assert(row[j] == x);
        } else if j < at + new.len() {
            assert(new[j - at] == x);
        } else {
            assert(row[j - new.len()] == x);
        }
    }
}

/// Inserting new items keeps account.
proof fn lemma_accounted_insert(
    entries: Seq<YjsSpan>,
    deletes: Seq<KVPair<DeleteEntry>>,
    p: Place,
    item: YjsSpan,
    order: int,
)
    requires
        row_ok(entries, order),
        rle_sorted(deletes),
        rle_end(deletes) <= order,
        accounted(entries, deletes, order),
        fresh(item, entries, order),
        p.within(entries),
    ensures
        accounted(inserted(entries, p, item), deletes, order + item.span_len()),
{
    reveal(accounted);
    let now = inserted(entries, p, item);
    lemma_row_inserted(entries, p, item, order);
    law_insert_keeps_order(entries, p, item);
    lemma_visible_before_bound(entries, p);
    assert forall|x: int| 0 <= x < order + item.span_len() implies #[trigger] item_held(now, x)
        != covered(deletes, x) by {
        lemma_has_order(item, x as u32);
        assert(holds(now, x as u32) == (holds(entries, x as u32) || has_item(item, x as u32)));
        if x < order {
            assert(item_held(entries, x) != covered(deletes, x));
        } else if covered(deletes, x) {
            lemma_covered_end(deletes, x);
        }
    }
    assert forall|op: int| #[trigger] covered(deletes, op) implies item_held(
        now,
        deleted_item(deletes, op),
    ) by {
        let x = deleted_item(deletes, op);
        assert(item_held(entries, x));
        assert(holds(now, x as u32) == (holds(entries, x as u32) || has_item(item, x as u32)));
    }
    assert forall|x: Order| #[trigger] visible(now).contains(x) == (holds(now, x) && !is_deleted(
        deletes,
        x as int,
    )) by {
        lemma_has_order(item, x);
        lemma_spliced_contains(
            visible(entries),
            visible_before(entries, p),
            span_orders(item),
            x,
        );
        assert(holds(now, x) == (holds(entries, x) || has_item(item, x)));
        assert(visible(entries).contains(x) == (holds(entries, x) && !is_deleted(
            deletes,
            x as int,
        )));
        if has_item(item, x) {
            assert(span_orders(item)[x - item.order] == x);
            if is_deleted(deletes, x as int) {
                let op = choose|op: int| #[trigger]
                    covered(deletes, op) && deleted_item(deletes, op) == x;
                assert(item_held(entries, x as int));
                assert(holds(entries, x));
            }
        }
        if span_orders(item).contains(x) {
            let i = choose|i: int| 0 <= i < span_orders(item).len() && span_orders(item)[i] == x;
        }
    }
}

/// No more visible items are left of a place than there are.
proof fn lemma_visible_before_bound(entries: Seq<YjsSpan>, p: Place)
    requires
        entries_ok(entries),
        p.within(entries),
    ensures
        0 <= visible_before(entries, p) <= visible(entries).len(),
{
    if entries.len() > 0 {
        assert(entry_ok(entries[p.entry]));
        lemma_text_around(entries, p.entry);
    } else {
        assert(entries.take(0) =~= Seq::empty());
    }
}

/// Deleting items and logging them keeps account.
proof fn lemma_accounted_delete(
    entries: Seq<YjsSpan>,
    deletes: Seq<KVPair<DeleteEntry>>,
    now: Seq<YjsSpan>,
    log: Seq<KVPair<DeleteEntry>>,
    row: Seq<u32>,
    order: int,
)
    requires
        accounted(entries, deletes, order),
        forall|x: Order| #[trigger] holds(entries, x) ==> x < order,
        forall|x: Order| #[trigger] holds(now, x) == holds(entries, x),
        rle_sorted(deletes),
        rle_end(deletes) <= order,
        0 <= order,
        logs(deletes, log, row, order),
        forall|j: int| 0 <= j < row.len() ==> item_held(entries, #[trigger] row[j] as int),
        forall|x: Order| #[trigger]
            visible(now).contains(x) == (visible(entries).contains(x) && !row.contains(x)),
    ensures
        accounted(now, log, order + row.len()),
{
    reveal(accounted);
    assert forall|x: int| 0 <= x < order + row.len() implies #[trigger] item_held(now, x)
        != covered(log, x) by {
        assert(covered(log, x) == (covered(deletes, x) || order <= x < order + row.len()));
        assert(holds(now, x as u32) == holds(entries, x as u32));
        if x < order {
            assert(item_held(entries, x) != covered(deletes, x));
        }
    }
    assert forall|op: int| #[trigger] covered(log, op) implies item_held(
        now,
        deleted_item(log, op),
    ) by {
        if covered(deletes, op) {
            let x = deleted_item(deletes, op);
            assert(item_held(entries, x));
            assert(holds(now, x as u32) == holds(entries, x as u32));
        } else {
            let x = row[op - order];
            assert(item_held(entries, row[op - order] as int));
            assert(deleted_item(log, order + (op - order)) == x);
            assert(holds(now, x) == holds(entries, x));
        }
    }
    assert forall|x: Order| #[trigger] visible(now).contains(x) == (holds(now, x) && !is_deleted(
        log,
        x as int,
    )) by {
        assert(visible(entries).contains(x) == (holds(entries, x) && !is_deleted(
            deletes,
            x as int,
        )));
        if is_deleted(deletes, x as int) {
            let op = choose|op: int| #[trigger]
                covered(deletes, op) && deleted_item(deletes, op) == x;
            assert(covered(log, op));
        }
        if row.contains(x) {
            let j = choose|j: int| 0 <= j < row.len() && row[j] == x;
            assert(deleted_item(log, order + j) == row[j]);
            assert(covered(log, order + j));
        }
        if is_deleted(log, x as int) {
            let op = choose|op: int| #[trigger] covered(log, op) && deleted_item(log, op) == x;
            if !covered(deletes, op) {
                assert(deleted_item(log, order + (op - order)) == row[op - order]);
            }
        }
    }
}

/// Integrating an item keeps the content sound.
pub proof fn lemma_integrated_ok(doc: DocState, agent: int, item: YjsSpan, left: Place, order: int)
    requires
        doc.content_ok(order),
        fresh(item, doc.entries, order),
        left.within(doc.entries),
    ensures
        doc.integrated(agent, item, left).content_ok(order + item.span_len()),
        items_len(doc.integrated(agent, item, left).entries) == items_len(doc.entries)
            + item.span_len(),
        forall|x: Order| #[trigger]
            holds(doc.integrated(agent, item, left).entries, x) == (holds(doc.entries, x)
                || has_item(item, x)),
{
    let name = doc.clients[agent].name;
    let at = doc.scan(name, item, left, left, left, false);
    doc.lemma_scan_within(name, item, left, left, left, false);
    lemma_row_inserted(doc.entries, at, item, order);
    lemma_accounted_insert(doc.entries, doc.deletes, at, item, order);
}

/// Deleting visible items keeps the content sound.
#[verifier::rlimit(30)]
pub proof fn lemma_locally_deleted_ok(doc: DocState, pos: int, len: int, order: int)
    requires
        doc.content_ok(order),
        0 <= order,
        0 <= pos,
        0 < len,
        pos + len <= content_len(doc.entries),
        order + len <= u32::MAX,
    ensures
        doc.locally_deleted(pos, len, order).content_ok(order + len),
{
    let entries = doc.entries;
    let shown = visible(entries);
    lemma_content_place_of(entries, pos);
    let p = content_place(entries, pos);
    let d = deactivated_from(entries, p, len);
    let spans = gathered(d.taken);
    law_delete_takes_visible(entries, p, len);
    lemma_row_deactivated(entries, p, len, order);
    lemma_content_deactivated(entries, p, len);
    lemma_content_bound(entries);
    lemma_gathered(d.taken);
    lemma_gathered_orders(d.taken);
    lemma_text_len(spans);
    if doc.deletes.len() > 0 {
        assert(doc.deletes[doc.deletes.len() - 1].span_ok());
    }
    lemma_logged(doc.deletes, spans, order);
    let row = shown.subrange(pos, pos + len);
    let after = doc.locally_deleted(pos, len, order);
    assert forall|j: int| 0 <= j < row.len() implies item_held(entries, #[trigger] row[j] as int) by {
        let g = lemma_visible_held(entries, pos + j);
        assert(entry_ok(entries[g]));
        lemma_has_order(entries[g], row[j]);
        assert(holds(entries, row[j]));
    }
    assert forall|x: Order| #[trigger]
        visible(d.entries).contains(x) == (shown.contains(x) && !row.contains(x)) by {
        assert forall|i: int, j: int| 0 <= i < j < shown.len() implies shown[i] != shown[j] by {
            lemma_visible_once(entries, i, j);
        }
        lemma_taken_out(shown, pos, len, x);
    }
    lemma_accounted_delete(entries, doc.deletes, d.entries, after.deletes, row, order);
    assert(deletions_counted(after.deletes, after.double_deletes)) by {
        assert forall|i: int, j: int| 0 <= i < j < row.len() implies row[i] != row[j] by {
            lemma_visible_once(entries, pos + i, pos + j);
        }
        assert forall|x: int| 0 <= x <= u32::MAX && #[trigger] row.contains(
            x as u32,
        ) implies !is_deleted(doc.deletes, x) by {
            let j = choose|j: int| 0 <= j < row.len() && row[j] == x as u32;
            assert(shown[pos + j] == x as u32);
            assert(shown.contains(x as u32));
            reveal(accounted);
        }
        lemma_deletions_counted(
            doc.deletes,
            after.deletes,
            row,
            order,
            doc.double_deletes,
            doc.double_deletes,
        );
    }
    lemma_row_later(d.entries, order, order + len);
}

/// Deleting items by their names keeps the row sound, and keeps its items.
pub proof fn lemma_row_run_deleted(doc: DocState, target: int, len: int, order: int)
    requires
        row_ok(doc.entries, order),
        items_held(doc.entries, target, len),
        0 <= len,
    ensures
        row_ok(doc.run_deleted(target, len).entries, order),
        forall|x: Order| #[trigger]
            holds(doc.run_deleted(target, len).entries, x) == holds(doc.entries, x),
    decreases len,
{
    if len > 0 {
        let entries = doc.entries;
        assert(item_held(entries, target));
        lemma_place_before(entries, target as u32);
        let p = place_before(entries, target);
        let entry = entries[p.entry];
        assert(entry_ok(entry));
        let n = run_taken(entry, p.offset, len);
        lemma_row_run(entries, p, n, order);
        let excess = doc.double_deletes;
        let step = if entry.active() {
            DocState { entries: run_deactivated(entries, p, n), ..doc }
        } else {
            DocState {
                double_deletes: |key: int|
                    excess(key) + if target <= key < target + n {
                        1int
                    } else {
                        0
                    },
                ..doc
            }
        };
        assert(doc.run_deleted(target, len) == step.run_deleted(target + n, len - n));
        lemma_items_held_rest(entries, step.entries, target, n, len);
        lemma_row_run_deleted(step, target + n, len - n, order);
        assert forall|x: Order| #[trigger]
            holds(doc.run_deleted(target, len).entries, x) == holds(entries, x) by {
            assert(holds(step.entries, x) == holds(entries, x));
        }
    }
}

/// Logging the deletion of consecutive items.
pub proof fn lemma_logged_remotely(
    deletes: Seq<KVPair<DeleteEntry>>,
    order: int,
    target: int,
    len: int,
)
    requires
        rle_sorted(deletes),
        rle_end(deletes) <= order,
        0 <= order,
        0 <= len,
        0 <= target,
        target + len <= u32::MAX,
        order + len <= u32::MAX,
    ensures
        logs(
            deletes,
            rle_push(
                deletes,
                KVPair(order as u32, DeleteEntry { order: target as u32, len: len as u32 }),
            ),
            new_orders(target, len),
            order,
        ),
{
    let row = new_orders(target, len);
    assert(logs(deletes, deletes, Seq::<u32>::empty(), order)) by {
        assert forall|x: int| #[trigger] covered(deletes, x) implies x < order by {
            lemma_covered_end(deletes, x);
        }
    }
    lemma_logged_next(deletes, deletes, Seq::empty(), order, target, len);
    assert(Seq::<u32>::empty() + row =~= row);
}

/// Deleting items by their names keeps the content sound.
#[verifier::rlimit(30)]
pub proof fn lemma_remotely_deleted_ok(doc: DocState, target: int, len: int, order: int)
    requires
        doc.content_ok(order),
        0 <= order,
        0 <= len,
        0 <= target,
        target + len <= u32::MAX,
        order + len <= u32::MAX,
        items_held(doc.entries, target, len),
    ensures
        ({
            let logged = DocState {
                deletes: rle_push(
                    doc.deletes,
                    KVPair(order as u32, DeleteEntry { order: target as u32, len: len as u32 }),
                ),
                ..doc
            };
            logged.run_deleted(target, len).content_ok(order + len)
        }),
{
    let val = KVPair(order as u32, DeleteEntry { order: target as u32, len: len as u32 });
    let logged = DocState { deletes: rle_push(doc.deletes, val), ..doc };
    let after = logged.run_deleted(target, len);
    let entries = doc.entries;
    let row = new_orders(target, len);
    logged.lemma_run_deleted(target, len);
    lemma_row_run_deleted(logged, target, len, order);
    law_remote_delete(logged, target, len, order);
    lemma_logged_remotely(doc.deletes, order, target, len);
    assert forall|j: int| 0 <= j < row.len() implies item_held(entries, #[trigger] row[j] as int) by {
        assert(item_held(entries, target + j));
    }
    assert forall|x: Order| #[trigger]
        visible(after.entries).contains(x) == (visible(entries).contains(x) && !row.contains(x)) by {
        if target <= x < target + len {
            assert(row[x - target] == x);
        }
        if row.contains(x) {
            let j = choose|j: int| 0 <= j < row.len() && row[j] == x;
        }
    }
    lemma_accounted_delete(entries, doc.deletes, after.entries, after.deletes, row, order);
    assert(deletions_counted(after.deletes, after.double_deletes)) by {
        assert forall|x: int| #[trigger] (after.double_deletes)(x) == (doc.double_deletes)(x) + if 0
            <= x <= u32::MAX && row.contains(x as u32) && is_deleted(doc.deletes, x) {
            1int
        } else {
            0
        } by {
            if target <= x < target + len {
                assert(row[x - target] == x);
                assert(item_held(entries, x));
                assert(visible(entries).contains(x as u32) == (holds(entries, x as u32)
                    && !is_deleted(doc.deletes, x as int))) by {
                    reveal(accounted);
                }
            } else if 0 <= x <= u32::MAX && row.contains(x as u32) {
                let j = choose|j: int| 0 <= j < row.len() && row[j] == x as u32;
            }
        }
        lemma_deletions_counted(
            doc.deletes,
            after.deletes,
            row,
            order,
            doc.double_deletes,
            after.double_deletes,
        );
    }
    lemma_row_later(after.entries, order, order + len);
    assert forall|x: int| 0 <= #[trigger] (after.double_deletes)(x) <= order + len by {
        assert(0 <= (doc.double_deletes)(x) <= order);
    }
}

/// Every step of a remote transaction keeps the content sound.
pub proof fn lemma_changed_ok(doc: DocState, agent: int, op: RemoteOp, order: int)
    requires
        doc.clients_ok(),
        doc.content_ok(order),
        0 <= order,
        doc.remote_op_ok(op),
        order + remote_op_len(op) <= u32::MAX,
        remote_op_inserted(op) <= i32::MAX,
    ensures
        doc.changed(agent, op, order).content_ok(order + remote_op_len(op)),
{
    match op {
        RemoteOp::Ins { origin_left, origin_right, ins_content } => {
            let left = doc.resolved(origin_left.agent@, origin_left.seq as int)->0;
            let right = doc.resolved(origin_right.agent@, origin_right.seq as int)->0;
            let item = YjsSpan {
                order: order as u32,
                origin_left: left as u32,
                origin_right: right as u32,
                len: ins_content@.len() as i32,
            };
            lemma_resolved_order(doc, origin_left.agent@, origin_left.seq as int);
            if left != ROOT_ORDER {
                lemma_place_before(doc.entries, left as u32);
            }
            lemma_integrated_ok(doc, agent, item, place_after(doc.entries, left), order);
        },
        RemoteOp::Del { id, len } => {
            let target = doc.resolved(id.agent@, id.seq as int)->0;
            lemma_resolved_order(doc, id.agent@, id.seq as int);
            if len > 0 {
                assert(item_held(doc.entries, target + len - 1));
            }
            lemma_remotely_deleted_ok(doc, target, len as int, order);
        },
    }
}

/// The steps of a remote transaction keep the content sound.
pub proof fn lemma_changed_by_ok(doc: DocState, agent: int, ops: Seq<RemoteOp>, k: int, order: int)
    requires
        doc.clients_ok(),
        doc.content_ok(order),
        0 <= order,
        0 <= k <= ops.len(),
        doc.remote_ops_ok(agent, ops, order),
        order + remote_ops_len(ops, k) <= u32::MAX,
        forall|j: int| 0 <= j < ops.len() ==> remote_op_inserted(#[trigger] ops[j]) <= i32::MAX,
    ensures
        doc.changed_by(agent, ops, k, order).content_ok(order + remote_ops_len(ops, k)),
        doc.changed_by(agent, ops, k, order).clients_ok(),
        0 <= remote_ops_len(ops, k),
    decreases k,
{
    doc.lemma_changed_by(agent, ops, k, order);
    if k > 0 {
        lemma_changed_by_ok(doc, agent, ops, k - 1, order);
        let before = doc.changed_by(agent, ops, k - 1, order);
        assert(before.remote_op_ok(ops[k - 1]));
        assert(remote_op_inserted(ops[k - 1]) <= i32::MAX);
        lemma_changed_ok(before, agent, ops[k - 1], order + remote_ops_len(ops, k - 1));
    }
}

/// A local transaction makes a sound document of a sound document.
pub proof fn law_local_txn_keeps_sound(doc: DocState, agent: int, ops: Seq<Edit>)
    requires
        doc.ok(),
        0 <= agent < doc.clients.len(),
        doc.local_ops_ok(ops),
    ensures
        doc.after_local_txn(agent, ops).ok(),
{
    let first = doc.next_order();
    let n = ops.len() as int;
    let len = ops_len(ops, n);
    let start = doc.assigned(agent, doc.next_seq(agent), first, len);
    lemma_ops_len_nonneg(ops, n);
    lemma_assigned(doc, agent, len);
    lemma_edited_by(start, agent, ops, n, first);
    start.lemma_edited_by(agent, ops, n, first);
    lemma_with_txn_ok(start.edited_by(agent, ops, n, first), None, first, len);
}

/// A remote transaction makes a sound document of a sound document.
pub proof fn law_remote_txn_keeps_sound(doc: DocState, txn: RemoteTxn)
    requires
        doc.ok(),
        doc.remote_txn_ok(txn),
    ensures
        doc.after_remote_txn(txn).ok(),
{
    let ops = txn.ops@;
    let n = ops.len() as int;
    let first = doc.next_order();
    let len = remote_ops_len(ops, n);
    let agent = doc.remote_agent(txn);
    let known = doc.with_agent(txn.id.agent@);
    let start = doc.before_remote_ops(txn);
    lemma_with_agent(doc, txn.id.agent@);
    lemma_remote_ops_len_nonneg(ops, n);
    lemma_assigned(known, agent, len);
    lemma_changed_by_ok(start, agent, ops, n, first);
    start.lemma_changed_by(agent, ops, n, first);
    let changed = start.changed_by(agent, ops, n, first);
    lemma_with_txn_ok(changed, Some(changed.all_resolved(txn.parents@)), first, len);
}

/// Whatever its history, a document shows those of its items that no operation deleted.
pub proof fn law_visible_are_undeleted(doc: DocState, x: Order)
    requires
        doc.ok(),
    ensures
        visible(doc.entries).contains(x) == (holds(doc.entries, x) && !exists|op: int|
            #![trigger covered(doc.deletes, op)]
            covered(doc.deletes, op) && deleted_item(doc.deletes, op) == x),
{
    reveal(accounted);
}

/// Each operation of a document inserted an item or deleted one, and only items of the
/// document were deleted.
pub proof fn law_operations_insert_or_delete(doc: DocState, x: Order)
    requires
        doc.ok(),
    ensures
        x < doc.next_order() ==> holds(doc.entries, x) != covered(doc.deletes, x as int),
        x >= doc.next_order() ==> !holds(doc.entries, x) && !covered(doc.deletes, x as int),
        covered(doc.deletes, x as int) ==> 0 <= deleted_item(doc.deletes, x as int) < ROOT_ORDER
            && holds(doc.entries, deleted_item(doc.deletes, x as int) as u32),
{
    reveal(accounted);
    if covered(doc.deletes, x as int) {
        lemma_covered_end(doc.deletes, x as int);
        assert(item_held(doc.entries, deleted_item(doc.deletes, x as int)));
    }
    if x < doc.next_order() {
        assert(item_held(doc.entries, x as int) != covered(doc.deletes, x as int));
    }
}

/// The items of a document that no operation deleted.
pub open spec fn undeleted(doc: DocState) -> Set<Order> {
    Set::new(|x: Order| holds(doc.entries, x) && !is_deleted(doc.deletes, x as int))
}

/// The length of a document is the number of its items that no operation deleted. An item
/// that was deleted more than once counts as one that was deleted.
pub proof fn law_len_counts_undeleted(doc: DocState)
    requires
        doc.ok(),
    ensures
        undeleted(doc).finite(),
        content_len(doc.entries) == undeleted(doc).len(),
{
    let shown = visible(doc.entries);
    lemma_text_len(doc.entries);
    assert(shown.no_duplicates()) by {
        assert forall|i: int, j: int| 0 <= i < j < shown.len() implies shown[i] != shown[j] by {
            lemma_visible_once(doc.entries, i, j);
        }
    }
    shown.unique_seq_to_set();
    assert forall|x: Order| shown.to_set().contains(x) == undeleted(doc).contains(x) by {
        law_visible_are_undeleted(doc, x);
    }
    assert(shown.to_set() =~= undeleted(doc));
}

} // verus!
