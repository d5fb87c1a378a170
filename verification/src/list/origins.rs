//! What the items of a document were inserted between.

use crate::list::ROOT_ORDER;
use crate::list::content::lemma_content_deactivated;
use crate::list::delete::DeleteEntry;
use crate::list::external_txn::{RemoteId, RemoteOp, RemoteTxn};
use crate::list::keeps::{lemma_changed_by_ok, lemma_locally_deleted_ok};
use crate::list::laws::{
    law_local_insert_place, law_position_of_visible_item, lemma_content_place_of, lemma_edited_by,
    lemma_ops_len_nonneg, lemma_remote_ops_len_nonneg, new_orders,
};
use crate::list::merged::lemma_place_item;
use crate::list::model::{
    content_len, content_place, item_held, items_held, local_op_ok, op_len, ops_len, place_after,
    place_before, remote_op_inserted, remote_op_len, remote_ops_len, DocState, Edit,
};
use crate::list::remote_delete::lemma_items_held_rest;
use crate::list::span::YjsSpan;
use crate::list::text::{
    items_before, law_delete_takes_visible, law_insert_keeps_order, lemma_text_len, orders,
    span_orders, spliced, visible,
};
use crate::list::valid::{
    lemma_assigned, lemma_held, lemma_place_before, lemma_resolved_order, lemma_row_cut,
    lemma_row_front, lemma_row_run, lemma_with_agent, row_ok,
};
use crate::range_tree::cursor::Place;
use crate::range_tree::deactivate::{
    deactivated_from, front_deactivated, run_deactivated, run_taken,
};
use crate::range_tree::homes::holds;
use crate::range_tree::mutations::{cut_entry, inserted, inserted_behind};
use crate::range_tree::runs::{entries_ok, entry_ok};
use crate::rle::KVPair;
use crate::rle::simple_rle::rle_push;
use crate::splitable_span::{glues, MergableSpan, SplitableSpan};
use vstd::prelude::*;

verus! {

/// By an entry, the item `x` was inserted behind `left` and before `right`: the first item of
/// a run between what the run was inserted between, each of the others behind the one before
/// it.
pub open spec fn span_says(entry: YjsSpan, x: u32, left: u32, right: u32) -> bool {
    &&& entry.order <= x < entry.order + entry.span_len()
    &&& right == entry.origin_right
    &&& if x == entry.order {
        left == entry.origin_left
    } else {
        left == x - 1
    }
}

/// By the entries of a document, the item `x` was inserted behind `left` and before `right`.
pub open spec fn was_inserted(entries: Seq<YjsSpan>, x: u32, left: u32, right: u32) -> bool {
    exists|g: int| 0 <= g < entries.len() && #[trigger] span_says(entries[g], x, left, right)
}

/// Replacing an entry by another one.
proof fn lemma_says_update(
    entries: Seq<YjsSpan>,
    g: int,
    entry: YjsSpan,
    x: u32,
    left: u32,
    right: u32,
)
    requires
        0 <= g < entries.len(),
        span_says(entries[g], x, left, right) ==> span_says(entry, x, left, right),
    ensures
        was_inserted(entries.update(g, entry), x, left, right) == (was_inserted(
            entries,
            x,
            left,
            right,
        ) || span_says(entry, x, left, right)),
{
    let now = entries.update(g, entry);
    assert(now[g] == entry);
    if was_inserted(entries, x, left, right) {
        let i = choose|i: int|
            0 <= i < entries.len() && #[trigger] span_says(entries[i], x, left, right);
        assert(span_says(now[i], x, left, right));
    }
    if was_inserted(now, x, left, right) {
        let i = choose|i: int| 0 <= i < now.len() && #[trigger] span_says(now[i], x, left, right);
        if i != g {
            assert(span_says(entries[i], x, left, right));
        }
    }
}

/// Putting in another entry.
proof fn lemma_says_insert(
    entries: Seq<YjsSpan>,
    g: int,
    entry: YjsSpan,
    x: u32,
    left: u32,
    right: u32,
)
    requires
        0 <= g <= entries.len(),
    ensures
        was_inserted(entries.insert(g, entry), x, left, right) == (was_inserted(
            entries,
            x,
            left,
            right,
        ) || span_says(entry, x, left, right)),
{
    let now = entries.insert(g, entry);
    assert(now[g] == entry);
    if was_inserted(entries, x, left, right) {
        let i = choose|i: int|
            0 <= i < entries.len() && #[trigger] span_says(entries[i], x, left, right);
        let j = if i < g { i } else { i + 1 };
        assert(span_says(now[j], x, left, right));
    }
    if was_inserted(now, x, left, right) {
        let j = choose|j: int| 0 <= j < now.len() && #[trigger] span_says(now[j], x, left, right);
        if j != g {
            let i = if j < g { j } else { j - 1 };
            assert(span_says(entries[i], x, left, right));
        }
    }
}

/// Two parts in the place of an entry.
proof fn lemma_says_parts(
    entries: Seq<YjsSpan>,
    g: int,
    a: YjsSpan,
    b: YjsSpan,
    x: u32,
    left: u32,
    right: u32,
)
    requires
        0 <= g < entries.len(),
        span_says(entries[g], x, left, right) == (span_says(a, x, left, right) || span_says(
            b,
            x,
            left,
            right,
        )),
    ensures
        was_inserted(entries.update(g, a).insert(g + 1, b), x, left, right) == was_inserted(
            entries,
            x,
            left,
            right,
        ),
{
    let rest = entries.remove(g);
    assert(entries =~= rest.insert(g, entries[g]));
    assert(entries.update(g, a).insert(g + 1, b) =~= rest.insert(g, a).insert(g + 1, b));
    lemma_says_insert(rest, g, entries[g], x, left, right);
    lemma_says_insert(rest, g, a, x, left, right);
    lemma_says_insert(rest.insert(g, a), g + 1, b, x, left, right);
}

/// Cutting an entry in two changes no origins.
proof fn lemma_says_cut(entries: Seq<YjsSpan>, g: int, at: int, x: u32, left: u32, right: u32)
    requires
        entries_ok(entries),
        0 <= g < entries.len(),
        0 < at < entries[g].span_len(),
    ensures
        was_inserted(cut_entry(entries, g, at), x, left, right) == was_inserted(
            entries,
            x,
            left,
            right,
        ),
{
    assert(entry_ok(entries[g]));
    lemma_says_parts(
        entries,
        g,
        entries[g].left_of(at),
        entries[g].right_of(at),
        x,
        left,
        right,
    );
}

/// Deleting the first items of an entry changes no origins.
proof fn lemma_says_front(entries: Seq<YjsSpan>, g: int, n: int, x: u32, left: u32, right: u32)
    requires
        entries_ok(entries),
        0 <= g < entries.len(),
        0 < n,
    ensures
        was_inserted(front_deactivated(entries, g, n), x, left, right) == was_inserted(
            entries,
            x,
            left,
            right,
        ),
{
    let entry = entries[g];
    assert(entry_ok(entry));
    if n < entry.span_len() {
        lemma_says_parts(
            entries,
            g,
            entry.left_of(n).deactivated(),
            entry.right_of(n),
            x,
            left,
            right,
        );
    } else {
        lemma_says_update(entries, g, entry.deactivated(), x, left, right);
        if span_says(entry.deactivated(), x, left, right) {
            assert(span_says(entries[g], x, left, right));
        }
    }
}

/// Inserting an item leaves it on record what every other item was inserted between, and puts
/// on record what the new one was.
#[verifier::rlimit(30)]
pub proof fn law_insert_keeps_origins(
    entries: Seq<YjsSpan>,
    p: Place,
    item: YjsSpan,
    x: u32,
    left: u32,
    right: u32,
)
    requires
        entries_ok(entries),
        p.within(entries),
        entry_ok(item),
        item.active(),
    ensures
        was_inserted(inserted(entries, p, item), x, left, right) == (was_inserted(
            entries,
            x,
            left,
            right,
        ) || span_says(item, x, left, right)),
{
    if entries.len() == 0 {
        assert(entries.insert(0, item) =~= seq![item]);
        lemma_says_insert(entries, 0, item, x, left, right);
    } else if p.offset == 0 && p.entry == 0 {
        lemma_says_insert(entries, 0, item, x, left, right);
    } else if p.offset == 0 || p.offset == entries[p.entry].span_len() {
        let g = if p.offset == 0 { p.entry - 1 } else { p.entry };
        assert(inserted(entries, p, item) == inserted_behind(entries, g, item));
        if glues(entries[g], item) {
            assert(entry_ok(entries[g]));
            let whole = entries[g].joined(&item);
            lemma_says_update(entries, g, whole, x, left, right);
            assert(span_says(whole, x, left, right) == (span_says(entries[g], x, left, right)
                || span_says(item, x, left, right)));
        } else {
            lemma_says_insert(entries, g + 1, item, x, left, right);
        }
    } else {
        let cut = cut_entry(entries, p.entry, p.offset);
        lemma_says_cut(entries, p.entry, p.offset, x, left, right);
        lemma_says_insert(cut, p.entry + 1, item, x, left, right);
    }
}

/// Deleting visible items leaves it on record what every item was inserted between.
pub proof fn law_delete_keeps_origins(
    entries: Seq<YjsSpan>,
    p: Place,
    n: int,
    order: int,
    x: u32,
    left: u32,
    right: u32,
)
    requires
        row_ok(entries, order),
        0 <= p.entry,
        0 <= p.offset,
    ensures
        was_inserted(deactivated_from(entries, p, n).entries, x, left, right) == was_inserted(
            entries,
            x,
            left,
            right,
        ),
    decreases n, entries.len() - p.entry, p.offset,
{
    if n <= 0 || !(0 <= p.entry < entries.len()) {
    } else {
        let entry = entries[p.entry];
        assert(entry_ok(entry));
        let next = Place { entry: p.entry + 1, offset: 0 };
        if p.offset >= entry.span_len() || !entry.active() {
            law_delete_keeps_origins(entries, next, n, order, x, left, right);
        } else if p.offset > 0 {
            let cut = cut_entry(entries, p.entry, p.offset);
            lemma_row_cut(entries, p.entry, p.offset, order);
            lemma_says_cut(entries, p.entry, p.offset, x, left, right);
            law_delete_keeps_origins(cut, next, n, order, x, left, right);
        } else {
            let front = front_deactivated(entries, p.entry, n);
            lemma_row_front(entries, p.entry, n, order);
            lemma_says_front(entries, p.entry, n, x, left, right);
            if n >= entry.span_len() {
                law_delete_keeps_origins(
                    front,
                    p,
                    n - entry.span_len(),
                    order,
                    x,
                    left,
                    right,
                );
            }
        }
    }
}

/// Deleting items by their names leaves it on record what every item was inserted between.
pub proof fn law_remote_delete_keeps_origins(
    doc: DocState,
    target: int,
    len: int,
    order: int,
    x: u32,
    left: u32,
    right: u32,
)
    requires
        row_ok(doc.entries, order),
        items_held(doc.entries, target, len),
        0 <= len,
    ensures
        was_inserted(doc.run_deleted(target, len).entries, x, left, right) == was_inserted(
            doc.entries,
            x,
            left,
            right,
        ),
    decreases len,
{
    if len > 0 {
        let entries = doc.entries;
        assert(item_held(entries, target));
        lemma_place_before(entries, target as u32);
        let p = place_before(entries, target);
        let entry = entries[p.entry];
        assert(entry_ok(entry));
        let n = run_taken(entry, p.offset, len);
        lemma_row_run(entries, p, n, order);
        let excess = doc.double_deletes;
        let step = if entry.active() {
            DocState { entries: run_deactivated(entries, p, n), ..doc }
        } else {
            DocState {
                double_deletes: |key: int|
                    excess(key) + if target <= key < target + n {
                        1int
                    } else {
                        0
                    },
                ..doc
            }
        };
        assert(doc.run_deleted(target, len) == step.run_deleted(target + n, len - n));
        if entry.active() {
            if p.offset > 0 {
                let cut = cut_entry(entries, p.entry, p.offset);
                lemma_row_cut(entries, p.entry, p.offset, order);
                lemma_says_cut(entries, p.entry, p.offset, x, left, right);
                lemma_says_front(cut, p.entry + 1, n, x, left, right);
            } else {
                lemma_says_front(entries, p.entry, n, x, left, right);
            }
        }
        lemma_items_held_rest(entries, step.entries, target, n, len);
        law_remote_delete_keeps_origins(step, target + n, len - n, order, x, left, right);
    }
}

/// What a local insertion makes of the row and of the origins on record.
#[verifier::rlimit(30)]
proof fn lemma_local_insert(doc: DocState, agent: int, pos: int, len: int, order: int) -> (k: int)
    requires
        row_ok(doc.entries, order),
        0 <= order,
        0 < len <= i32::MAX,
        order + len <= u32::MAX,
        0 <= pos <= content_len(doc.entries),
    ensures
        ({
            let row = orders(doc.entries);
            let after = doc.locally_inserted(agent, pos, len, order).entries;
            let item = doc.local_item(pos, len, order);
            &&& 0 <= k <= row.len()
            &&& orders(after) == spliced(row, k, new_orders(order, len))
            &&& item.order == order && item.span_len() == len
            &&& item.origin_left == if k == 0 { ROOT_ORDER } else { row[k - 1] }
            &&& item.origin_right == if k == row.len() { ROOT_ORDER } else { row[k] }
            &&& pos == 0 ==> k == 0
            &&& pos > 0 ==> k > 0 && row[k - 1] == visible(doc.entries)[pos - 1]
            &&& forall|x: u32, l: u32, r: u32| #[trigger]
                was_inserted(after, x, l, r) == (was_inserted(doc.entries, x, l, r) || span_says(
                    item,
                    x,
                    l,
                    r,
                ))
        }),
{
    let entries = doc.entries;
    let row = orders(entries);
    let item = doc.local_item(pos, len, order);
    let p = doc.insert_place(pos);
    law_local_insert_place(doc, agent, pos, len, order);
    law_insert_keeps_order(entries, p, item);
    lemma_place_item(entries, p);
    assert(span_orders(item) =~= new_orders(order, len));
    let k = items_before(entries, p);
    if pos > 0 {
        lemma_content_place_of(entries, pos - 1);
        law_position_of_visible_item(entries, pos - 1);
        let q = content_place(entries, pos - 1);
        lemma_place_item(entries, q);
        assert(k == items_before(entries, q) + 1);
    } else {
        assert(entries.take(0) =~= Seq::empty());
    }
    assert forall|x: u32, l: u32, r: u32| #[trigger]
        was_inserted(doc.locally_inserted(agent, pos, len, order).entries, x, l, r) == (
        was_inserted(entries, x, l, r) || span_says(item, x, l, r)) by {
        law_insert_keeps_origins(entries, p, item, x, l, r);
    }
    k
}

/// What is on record was inserted by an operation.
proof fn lemma_inserted_known(entries: Seq<YjsSpan>, order: int, x: u32, left: u32, right: u32)
    requires
        row_ok(entries, order),
        was_inserted(entries, x, left, right),
    ensures
        holds(entries, x),
        x < order,
{
    let g = choose|g: int|
        0 <= g < entries.len() && #[trigger] span_says(entries[g], x, left, right);
    lemma_held(entries, g, x as int);
}

/// New items stand right behind what they were inserted behind by the record, and right before
/// what they were inserted before; the root stands for an end of the row.
pub open spec fn are_between(
    row: Seq<u32>,
    now: Seq<u32>,
    after: Seq<YjsSpan>,
    order: int,
    len: int,
    k: int,
) -> bool {
    &&& 0 <= k <= row.len()
    &&& now == row.take(k) + new_orders(order, len) + row.skip(k)
    &&& forall|j: int, left: u32, right: u32|
        0 <= j < len ==> (#[trigger] was_inserted(after, (order + j) as u32, left, right) == (left
            == (if k + j == 0 {
            ROOT_ORDER
        } else {
            now[k + j - 1]
        }) && right == (if k == row.len() {
            ROOT_ORDER
        } else {
            row[k]
        })))
}

/// What a local edit inserts, it puts right behind the visible item before its position, or
/// else first; and it puts on record that the new items were inserted behind that item and
/// before the one that is right of them now, if there is one.
#[verifier::rlimit(30)]
pub proof fn law_edit_inserts_between(doc: DocState, agent: int, op: Edit, order: int) -> (k: int)
    requires
        doc.content_ok(order),
        0 <= order,
        order + op_len(op) <= u32::MAX,
        op.pos + op.del_span <= content_len(doc.entries),
        0 < op.ins_len <= i32::MAX,
    ensures
        ({
            let row = orders(doc.entries);
            let after = doc.edited(agent, op, order).entries;
            &&& are_between(
                row,
                orders(after),
                after,
                order + op.del_span,
                op.ins_len as int,
                k,
            )
            &&& op.pos == 0 ==> k == 0
            &&& op.pos > 0 ==> k > 0 && row[k - 1] == visible(doc.entries)[op.pos - 1]
        }),
{
    let entries = doc.entries;
    let row = orders(entries);
    let pos = op.pos as int;
    let n = op.del_span as int;
    let len = op.ins_len as int;
    let deleted = if n > 0 {
        doc.locally_deleted(pos, n, order)
    } else {
        doc
    };
    lemma_text_len(entries);
    if n > 0 {
        lemma_content_place_of(entries, pos);
        let p = content_place(entries, pos);
        law_delete_takes_visible(entries, p, n);
        lemma_content_deactivated(entries, p, n);
        lemma_locally_deleted_ok(doc, pos, n, order);
        assert(orders(deleted.entries) == row);
        assert(pos > 0 ==> visible(deleted.entries)[pos - 1] == visible(entries)[pos - 1]);
    }
    let k = lemma_local_insert(deleted, agent, pos, len, order + n);
    let item = deleted.local_item(pos, len, order + n);
    let after = doc.edited(agent, op, order).entries;
    let now = orders(after);
    assert(after == deleted.locally_inserted(agent, pos, len, order + n).entries);
    assert forall|j: int, left: u32, right: u32| 0 <= j < len implies (#[trigger] was_inserted(
        after,
        (order + n + j) as u32,
        left,
        right,
    ) == (left == (if k + j == 0 {
        ROOT_ORDER
    } else {
        now[k + j - 1]
    }) && right == (if k == row.len() {
        ROOT_ORDER
    } else {
        row[k]
    }))) by {
        let x = (order + n + j) as u32;
        if was_inserted(deleted.entries, x, left, right) {
            lemma_inserted_known(deleted.entries, order + n, x, left, right);
        }
        assert(was_inserted(after, x, left, right) == span_says(item, x, left, right));
        if j > 0 {
            assert(now[k + j - 1] == new_orders(order + n, len)[j - 1]);
        } else if k > 0 {
            assert(now[k - 1] == row[k - 1]);
        }
    }
    k
}

/// A local edit leaves it on record what every earlier item was inserted between.
pub proof fn law_edit_keeps_origins(
    doc: DocState,
    agent: int,
    op: Edit,
    order: int,
    x: u32,
    left: u32,
    right: u32,
)
    requires
        doc.content_ok(order),
        0 <= order,
        order + op_len(op) <= u32::MAX,
        op_len(op) > 0 ==> op.pos + op.del_span <= content_len(doc.entries),
        op.ins_len <= i32::MAX,
        x < order,
    ensures
        was_inserted(doc.edited(agent, op, order).entries, x, left, right) == was_inserted(
            doc.entries,
            x,
            left,
            right,
        ),
{
    let entries = doc.entries;
    let pos = op.pos as int;
    let n = op.del_span as int;
    let len = op.ins_len as int;
    let deleted = if n > 0 {
        doc.locally_deleted(pos, n, order)
    } else {
        doc
    };
    if n > 0 {
        lemma_content_place_of(entries, pos);
        let p = content_place(entries, pos);
        lemma_content_deactivated(entries, p, n);
        lemma_locally_deleted_ok(doc, pos, n, order);
        law_delete_keeps_origins(entries, p, n, order, x, left, right);
    }
    if len > 0 {
        let _ = lemma_local_insert(deleted, agent, pos, len, order + n);
        assert(was_inserted(
            deleted.locally_inserted(agent, pos, len, order + n).entries,
            x,
            left,
            right,
        ) == (was_inserted(deleted.entries, x, left, right) || span_says(
            deleted.local_item(pos, len, order + n),
            x,
            left,
            right,
        )));
    }
}

/// A local transaction leaves it on record what every earlier item was inserted between.
pub proof fn law_local_txn_keeps_origins(
    doc: DocState,
    agent: int,
    ops: Seq<Edit>,
    x: u32,
    left: u32,
    right: u32,
)
    requires
        doc.ok(),
        0 <= agent < doc.clients.len(),
        doc.local_ops_ok(ops),
        x < doc.next_order(),
    ensures
        was_inserted(doc.after_local_txn(agent, ops).entries, x, left, right) == was_inserted(
            doc.entries,
            x,
            left,
            right,
        ),
{
    let first = doc.next_order();
    let n = ops.len() as int;
    let start = doc.assigned(agent, doc.next_seq(agent), first, ops_len(ops, n));
    lemma_edits_keep_origins(start, agent, ops, n, first, x, left, right);
}

proof fn lemma_edits_keep_origins(
    doc: DocState,
    agent: int,
    ops: Seq<Edit>,
    k: int,
    order: int,
    x: u32,
    left: u32,
    right: u32,
)
    requires
        doc.content_ok(order),
        0 <= order,
        0 <= k <= ops.len(),
        order + ops_len(ops, k) <= u32::MAX,
        forall|j: int| 0 <= j < k ==> (#[trigger] ops[j]).ins_len <= i32::MAX,
        forall|j: int|
            0 <= j < k ==> #[trigger] local_op_ok(ops, j, content_len(doc.entries)),
        x < order,
    ensures
        was_inserted(doc.edited_by(agent, ops, k, order).entries, x, left, right) == was_inserted(
            doc.entries,
            x,
            left,
            right,
        ),
    decreases k,
{
    if k > 0 {
        lemma_ops_len_nonneg(ops, k - 1);
        lemma_edits_keep_origins(doc, agent, ops, k - 1, order, x, left, right);
        lemma_edited_by(doc, agent, ops, k - 1, order);
        assert(local_op_ok(ops, k - 1, content_len(doc.entries)));
        law_edit_keeps_origins(
            doc.edited_by(agent, ops, k - 1, order),
            agent,
            ops[k - 1],
            order + ops_len(ops, k - 1),
            x,
            left,
            right,
        );
    }
}

/// A step of a remote transaction that inserts items puts on record that they were inserted
/// between the items that the step names; whatever was on record stays there.
#[verifier::rlimit(30)]
pub proof fn law_remote_step_origins(
    doc: DocState,
    agent: int,
    op: RemoteOp,
    order: int,
    x: u32,
    left: u32,
    right: u32,
)
    requires
        doc.clients_ok(),
        doc.content_ok(order),
        0 <= order,
        doc.remote_op_ok(op),
        order + remote_op_len(op) <= u32::MAX,
        remote_op_inserted(op) <= i32::MAX,
    ensures
        was_inserted(doc.changed(agent, op, order).entries, x, left, right) == if order <= x < order
            + remote_op_inserted(op) {
            match op {
                RemoteOp::Ins { origin_left, origin_right, ins_content } => {
                    &&& doc.resolved(origin_right.agent@, origin_right.seq as int) == Some(
                        right as int,
                    )
                    &&& if x == order {
                        doc.resolved(origin_left.agent@, origin_left.seq as int) == Some(
                            left as int,
                        )
                    } else {
                        left == x - 1
                    }
                },
                RemoteOp::Del { id, len } => false,
            }
        } else {
            was_inserted(doc.entries, x, left, right)
        },
{
    if was_inserted(doc.entries, x, left, right) {
        lemma_inserted_known(doc.entries, order, x, left, right);
    }
    match op {
        RemoteOp::Ins { origin_left, origin_right, ins_content } => {
            let l = doc.resolved(origin_left.agent@, origin_left.seq as int)->0;
            let r = doc.resolved(origin_right.agent@, origin_right.seq as int)->0;
            let item = YjsSpan {
                order: order as u32,
                origin_left: l as u32,
                origin_right: r as u32,
                len: ins_content@.len() as i32,
            };
            lemma_resolved_order(doc, origin_left.agent@, origin_left.seq as int);
            lemma_resolved_order(doc, origin_right.agent@, origin_right.seq as int);
            let p = place_after(doc.entries, l);
            if l != ROOT_ORDER {
                lemma_place_before(doc.entries, l as u32);
            }
            let name = doc.clients[agent].name;
            let at = doc.scan(name, item, p, p, p, false);
            doc.lemma_scan_within(name, item, p, p, p, false);
            law_insert_keeps_origins(doc.entries, at, item, x, left, right);
        },
        RemoteOp::Del { id, len } => {
            let target = doc.resolved(id.agent@, id.seq as int)->0;
            let logged = DocState {
                deletes: rle_push(
                    doc.deletes,
                    KVPair(order as u32, DeleteEntry { order: target as u32, len }),
                ),
                ..doc
            };
            law_remote_delete_keeps_origins(
                logged,
                target,
                len as int,
                order,
                x,
                left,
                right,
            );
        },
    }
}

/// Items that a step of a remote transaction inserts are on record as inserted between the
/// items that the step names: the first one behind the left one, each of the others behind the
/// one before it, and all of them before the right one.
pub proof fn law_remote_insert_origins(
    doc: DocState,
    agent: int,
    origin_left: RemoteId,
    origin_right: RemoteId,
    ins_content: String,
    order: int,
    j: int,
    left: u32,
    right: u32,
)
    requires
        doc.clients_ok(),
        doc.content_ok(order),
        0 <= order,
        doc.remote_op_ok(RemoteOp::Ins { origin_left, origin_right, ins_content }),
        ins_content@.len() <= i32::MAX,
        order + ins_content@.len() <= u32::MAX,
        0 <= j < ins_content@.len(),
    ensures
        was_inserted(
            doc.changed(
                agent,
                RemoteOp::Ins { origin_left, origin_right, ins_content },
                order,
            ).entries,
            (order + j) as u32,
            left,
            right,
        ) == {
            &&& doc.resolved(origin_right.agent@, origin_right.seq as int) == Some(right as int)
            &&& if j == 0 {
                doc.resolved(origin_left.agent@, origin_left.seq as int) == Some(left as int)
            } else {
                left == order + j - 1
            }
        },
{
    law_remote_step_origins(
        doc,
        agent,
        RemoteOp::Ins { origin_left, origin_right, ins_content },
        order,
        (order + j) as u32,
        left,
        right,
    );
}

/// A remote transaction leaves it on record what every earlier item was inserted between.
pub proof fn law_remote_txn_keeps_origins(
    doc: DocState,
    txn: RemoteTxn,
    x: u32,
    left: u32,
    right: u32,
)
    requires
        doc.ok(),
        doc.remote_txn_ok(txn),
        x < doc.next_order(),
    ensures
        was_inserted(doc.after_remote_txn(txn).entries, x, left, right) == was_inserted(
            doc.entries,
            x,
            left,
            right,
        ),
{
    let first = doc.next_order();
    let ops = txn.ops@;
    let n = ops.len() as int;
    let agent = doc.remote_agent(txn);
    let start = doc.before_remote_ops(txn);
    lemma_with_agent(doc, txn.id.agent@);
    lemma_remote_ops_len_nonneg(ops, n);
    lemma_assigned(doc.with_agent(txn.id.agent@), agent, remote_ops_len(ops, n));
    lemma_steps_keep_origins(start, agent, ops, n, first, x, left, right);
}

proof fn lemma_steps_keep_origins(
    doc: DocState,
    agent: int,
    ops: Seq<RemoteOp>,
    k: int,
    order: int,
    x: u32,
    left: u32,
    right: u32,
)
    requires
        doc.clients_ok(),
        doc.content_ok(order),
        0 <= order,
        0 <= k <= ops.len(),
        doc.remote_ops_ok(agent, ops, order),
        order + remote_ops_len(ops, k) <= u32::MAX,
        forall|j: int| 0 <= j < ops.len() ==> remote_op_inserted(#[trigger] ops[j]) <= i32::MAX,
        x < order,
    ensures
        was_inserted(doc.changed_by(agent, ops, k, order).entries, x, left, right) == was_inserted(
            doc.entries,
            x,
            left,
            right,
        ),
    decreases k,
{
    if k > 0 {
        lemma_changed_by_ok(doc, agent, ops, k - 1, order);
        lemma_steps_keep_origins(doc, agent, ops, k - 1, order, x, left, right);
        let before = doc.changed_by(agent, ops, k - 1, order);
        assert(before.remote_op_ok(ops[k - 1]));
        assert(remote_op_inserted(ops[k - 1]) <= i32::MAX);
        law_remote_step_origins(
            before,
            agent,
            ops[k - 1],
            order + remote_ops_len(ops, k - 1),
            x,
            left,
            right,
        );
    }
}

} // verus!
