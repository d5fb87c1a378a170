//! What holds of documents and the operations on them.

use crate::common::CRDTLocation;
use crate::list::{Order, ROOT_ORDER};
use crate::list::branch::{lemma_outside, outside};
use crate::list::content::{
    lemma_content_bound, lemma_content_deactivated, lemma_content_inserted, lemma_content_place,
    lemma_gathered,
};
use crate::list::delete::DeleteEntry;
use crate::list::external_txn::{RemoteOp, RemoteTxn};
use crate::list::keeps::{lemma_integrated_ok, lemma_locally_deleted_ok};
use crate::list::model::{
    agent_of, client_from, content_len, content_place, deleted_item, deletes_logged, local_op_ok,
    logs, op_len, ops_len, order_of_seq, place_after, place_before, remote_ops_len, shadow_from,
    txn_holds, txn_of, visible_after, ClientState, DocState, Edit, TxnState,
};
use crate::list::names::name_behind;
use crate::list::order_span::OrderSpan;
use crate::list::span::YjsSpan;
use crate::list::text::{
    items_before, law_delete_takes_visible, law_insert_keeps_order, lemma_text_around,
    lemma_text_len, orders, span_orders, spliced, visible, visible_before,
};
use crate::list::valid::{
    client_ok, fresh, is_named, is_operation_of, lemma_assigned, lemma_held, lemma_place_before,
    lemma_with_agent, names_known, row_ok,
};
use crate::range_tree::cursor::Place;
use crate::range_tree::deactivate::{content_after, deactivated_from, gathered};
use crate::range_tree::entry::CRDTSpan;
use crate::range_tree::homes::holds;
use crate::range_tree::mutations::lemma_items_len_update;
use crate::range_tree::query::is_place_of;
use crate::range_tree::runs::{
    content_num, entries_ok, entry_ok, falls_into, items_len, lemma_items_len_one, measure,
};
use crate::rle::{KVPair, RleKeyed};
use crate::rle::simple_rle::{
    covered, covers, index_of_key, item_of_key, key_end, lemma_rle_push, lemma_rle_push_covered,
    lemma_rle_push_lookup, rle_end, rle_push, rle_sorted,
};
use crate::splitable_span::{glues, MergableSpan};
use vstd::prelude::*;
use vstd::set_lib::{
    lemma_int_range, lemma_map_size, lemma_set_disjoint_lens, lemma_set_subset_finite,
    set_int_range,
};

verus! {

/// The items that the operations from `order` on insert.
pub open spec fn new_orders(order: int, len: int) -> Seq<u32> {
    Seq::new(len as nat, |k: int| (order + k) as u32)
}

/// The visible items after a local edit, by the operations from `order` on.
pub open spec fn text_edited(row: Seq<u32>, op: Edit, order: int) -> Seq<u32> {
    spliced(
        row.take(op.pos as int) + row.skip((op.pos + op.del_span) as int),
        op.pos as int,
        new_orders(order + op.del_span, op.ins_len as int),
    )
}

/// The visible items after the first `k` local edits.
pub open spec fn text_edited_by(row: Seq<u32>, ops: Seq<Edit>, k: int, order: int) -> Seq<u32>
    decreases k,
{
    if k <= 0 {
        row
    } else if op_len(ops[k - 1]) == 0 {
        text_edited_by(row, ops, k - 1, order)
    } else {
        text_edited(
            text_edited_by(row, ops, k - 1, order),
            ops[k - 1],
            order + ops_len(ops, k - 1),
        )
    }
}

/// A position among the visible items has its place.
proof fn lemma_place_exists(entries: Seq<YjsSpan>, pos: int, g: int) -> (p: Place)
    requires
        entries_ok(entries),
        0 <= pos < content_len(entries),
        0 <= g < entries.len(),
        forall|h: int|
            0 <= h < g ==> !#[trigger] falls_into(entries, content_num(), pos, false, h),
    ensures
        is_place_of(p, entries, content_num(), pos, false),
    decreases entries.len() - g,
{
    if falls_into(entries, content_num(), pos, false, g) {
        Place { entry: g, offset: pos - measure(entries.take(g), content_num()) }
    } else {
        if g + 1 == entries.len() {
            assert(entries.take(g + 1) =~= entries);
        }
        lemma_place_exists(entries, pos, g + 1)
    }
}

/// The place that has `pos` visible items before it.
pub proof fn lemma_content_place_of(entries: Seq<YjsSpan>, pos: int)
    requires
        entries_ok(entries),
        0 <= pos < content_len(entries),
    ensures
        ({
            let p = content_place(entries, pos);
            &&& p.within(entries)
            &&& 0 <= p.entry < entries.len()
            &&& entries[p.entry].active()
            &&& 0 <= p.offset < entries[p.entry].span_len()
            &&& content_after(entries, p) == content_len(entries) - pos
            &&& visible_before(entries, p) == pos
        }),
{
    let p = lemma_place_exists(entries, pos, 0);
    lemma_content_place(entries, p, pos);
}

/// Local insertion goes right behind the item that it names, and has `pos` visible items
/// before it.
pub proof fn law_local_insert_place(doc: DocState, agent: int, pos: int, len: int, order: int)
    requires
        entries_ok(doc.entries),
        0 <= pos <= content_len(doc.entries),
    ensures
        ({
            let item = doc.local_item(pos, len, order);
            let left = doc.insert_place(pos);
            &&& doc.scan(doc.clients[agent].name, item, left, left, left, false) == left
            &&& left.within(doc.entries)
            &&& visible_before(doc.entries, left) == pos
            &&& pos > 0 ==> holds(doc.entries, item.origin_left)
            &&& pos == 0 ==> item.origin_left == ROOT_ORDER
        }),
{
    let entries = doc.entries;
    if pos > 0 {
        lemma_content_place_of(entries, pos - 1);
        let p = content_place(entries, pos - 1);
        assert(entry_ok(entries[p.entry]));
        lemma_held(entries, p.entry, entries[p.entry].order + p.offset);
    } else {
        assert(entries.take(0) =~= Seq::empty());
        if entries.len() > 0 {
            assert(entry_ok(entries[0]));
        }
    }
}

/// What a local edit makes of the items.
pub proof fn lemma_edited(doc: DocState, agent: int, op: Edit, order: int)
    requires
        doc.content_ok(order),
        0 <= order,
        order + op_len(op) <= u32::MAX,
        op_len(op) > 0 ==> op.pos + op.del_span <= content_len(doc.entries),
        op.ins_len <= i32::MAX,
    ensures
        ({
            let after = doc.edited(agent, op, order).entries;
            &&& doc.edited(agent, op, order).content_ok(order + op_len(op))
            &&& content_len(after) == content_len(doc.entries) - if op_len(op) > 0 {
                op.del_span as int
            } else {
                0
            } + op.ins_len
            &&& visible(after) == if op_len(op) > 0 {
                text_edited(visible(doc.entries), op, order)
            } else {
                visible(doc.entries)
            }
        }),
{
    let entries = doc.entries;
    let pos = op.pos as int;
    let n = op.del_span as int;
    let shown = visible(entries);
    lemma_text_len(entries);
    let deleted = if n > 0 {
        doc.locally_deleted(pos, n, order)
    } else {
        doc
    };
    if n > 0 {
        lemma_content_place_of(entries, pos);
        let p = content_place(entries, pos);
        law_delete_takes_visible(entries, p, n);
        lemma_content_deactivated(entries, p, n);
        lemma_locally_deleted_ok(doc, pos, n, order);
    } else if op_len(op) > 0 {
        assert(shown =~= shown.take(pos) + shown.skip(pos + n));
    }
    if op.ins_len > 0 {
        let len = op.ins_len as int;
        let item = deleted.local_item(pos, len, order + n);
        let left = deleted.insert_place(pos);
        law_local_insert_place(deleted, agent, pos, len, order + n);
        law_insert_keeps_order(deleted.entries, left, item);
        lemma_integrated_ok(deleted, agent, item, left, order + n);
        lemma_content_inserted(deleted.entries, left, item);
        assert(span_orders(item) =~= new_orders(order + n, len));
    } else if op_len(op) > 0 {
        let row = shown.take(pos) + shown.skip(pos + n);
        assert(spliced(row, pos, new_orders(order + n, 0)) =~= row);
    }
}

/// A row from before an operation is from before later ones.
pub proof fn lemma_row_later(entries: Seq<YjsSpan>, order: int, later: int)
    requires
        row_ok(entries, order),
        order <= later,
    ensures
        row_ok(entries, later),
{
    assert forall|x: Order| #[trigger] holds(entries, x) implies x < later by {
        assert(x < order);
    }
}

/// What local edits make of the items.
pub proof fn lemma_edited_by(doc: DocState, agent: int, ops: Seq<Edit>, k: int, order: int)
    requires
        doc.content_ok(order),
        0 <= order,
        0 <= k <= ops.len(),
        order + ops_len(ops, k) <= u32::MAX,
        forall|j: int| 0 <= j < k ==> (#[trigger] ops[j]).ins_len <= i32::MAX,
        forall|j: int|
            0 <= j < k ==> #[trigger] local_op_ok(ops, j, content_len(doc.entries)),
    ensures
        ({
            let after = doc.edited_by(agent, ops, k, order).entries;
            &&& doc.edited_by(agent, ops, k, order).content_ok(order + ops_len(ops, k))
            &&& content_len(after) == visible_after(content_len(doc.entries), ops, k)
            &&& visible(after) == text_edited_by(visible(doc.entries), ops, k, order)
        }),
    decreases k,
{
    if k > 0 {
        lemma_edited_by(doc, agent, ops, k - 1, order);
        let before = doc.edited_by(agent, ops, k - 1, order);
        assert(local_op_ok(ops, k - 1, content_len(doc.entries)));
        lemma_ops_len_nonneg(ops, k - 1);
        lemma_edited(before, agent, ops[k - 1], order + ops_len(ops, k - 1));
    }
}

pub proof fn lemma_ops_len_nonneg(ops: Seq<Edit>, k: int)
    ensures
        0 <= ops_len(ops, k),
    decreases k,
{
    if k > 0 {
        lemma_ops_len_nonneg(ops, k - 1);
    }
}

/// After a local transaction the text is what its edits make of it, one after the other:
/// each of them takes out the visible items that it deletes and puts in new ones at its
/// position.
pub proof fn law_local_txn_edits_text(doc: DocState, agent: int, ops: Seq<Edit>)
    requires
        doc.ok(),
        0 <= agent < doc.clients.len(),
        doc.local_ops_ok(ops),
    ensures
        ({
            let after = doc.after_local_txn(agent, ops);
            let n = ops.len() as int;
            &&& visible(after.entries) == text_edited_by(
                visible(doc.entries),
                ops,
                n,
                doc.next_order(),
            )
            &&& content_len(after.entries) == visible_after(content_len(doc.entries), ops, n)
            &&& visible(after.entries).len() == content_len(after.entries)
        }),
{
    let first = doc.next_order();
    let len = ops_len(ops, ops.len() as int);
    let start = doc.assigned(agent, doc.next_seq(agent), first, len);
    lemma_edited_by(start, agent, ops, ops.len() as int, first);
    lemma_text_len(doc.after_local_txn(agent, ops).entries);
}

/// Gluing spans together keeps their items.
pub proof fn lemma_gathered_orders(spans: Seq<YjsSpan>)
    requires
        forall|i: int| 0 <= i < spans.len() ==> entry_ok(#[trigger] spans[i]) && spans[i].active(),
    ensures
        orders(gathered(spans)) == orders(spans),
    decreases spans.len(),
{
    if spans.len() > 0 {
        let head = spans.drop_last();
        let span = spans.last();
        assert(spans[spans.len() - 1] == span);
        assert forall|i: int| 0 <= i < head.len() implies entry_ok(#[trigger] head[i])
            && head[i].active() by {
            assert(head[i] == spans[i]);
        }
        lemma_gathered_orders(head);
        lemma_gathered(head);
        let was = gathered(head);
        let now = gathered(spans);
        if was.len() > 0 && glues(was.last(), span) {
            let k = was.len() - 1;
            assert(entry_ok(was[k]));
            lemma_items_len_update(was, k, was[k]);
            was.last().lemma_join(&span);
            assert(now.drop_last() =~= was.drop_last());
            assert(span_orders(now.last()) =~= span_orders(was.last()) + span_orders(span));
        } else {
            assert(now.drop_last() =~= was);
        }
        assert(orders(now) =~= orders(spans));
    }
}

/// Logged deletions are found in the log under their operations, and older ones stay.
pub proof fn lemma_logged(
    deletes: Seq<KVPair<DeleteEntry>>,
    spans: Seq<YjsSpan>,
    order: int,
)
    requires
        rle_sorted(deletes),
        0 <= rle_end(deletes) <= order,
        order + items_len(spans) <= u32::MAX,
        forall|i: int| 0 <= i < spans.len() ==> entry_ok(#[trigger] spans[i]),
    ensures
        logs(deletes, deletes_logged(deletes, spans, order), orders(spans), order),
    decreases spans.len(),
{
    lemma_text_len(spans);
    if spans.len() > 0 {
        let head = spans.drop_last();
        let span = spans.last();
        assert(spans[spans.len() - 1] == span);
        assert(entry_ok(span));
        assert forall|i: int| 0 <= i < head.len() implies entry_ok(#[trigger] head[i]) by {
            assert(head[i] == spans[i]);
        }
        lemma_logged(deletes, head, order);
        lemma_text_len(head);
        let was = deletes_logged(deletes, head, order);
        lemma_logged_next(
            deletes,
            was,
            orders(head),
            order,
            span.order as int,
            span.span_len() as int,
        );
        assert(span_orders(span) =~= new_orders(span.order as int, span.span_len() as int));
    }
}

/// Logging one more run of items.
pub proof fn lemma_logged_next(
    deletes: Seq<KVPair<DeleteEntry>>,
    was: Seq<KVPair<DeleteEntry>>,
    row: Seq<u32>,
    order: int,
    target: int,
    len: int,
)
    requires
        logs(deletes, was, row, order),
        0 <= order,
        0 <= target,
        0 <= len,
        target + len <= u32::MAX,
        order + row.len() + len <= u32::MAX,
    ensures
        logs(
            deletes,
            rle_push(
                was,
                KVPair(
                    (order + row.len()) as u32,
                    DeleteEntry { order: target as u32, len: len as u32 },
                ),
            ),
            row + new_orders(target, len),
            order,
        ),
{
    let m = row.len() as int;
    let val = KVPair((order + m) as u32, DeleteEntry { order: target as u32, len: len as u32 });
    let log = rle_push(was, val);
    let all = row + new_orders(target, len);
    if was.len() > 0 {
        assert(was[was.len() - 1].span_ok());
    }
    lemma_rle_push(was, val);
    assert forall|x: int| #[trigger] covered(log, x) == (covered(deletes, x) || order <= x < order
        + all.len()) by {
        lemma_rle_push_covered(was, val, x);
        assert(covered(was, x) == (covered(deletes, x) || order <= x < order + m));
    }
    assert forall|x: int| #[trigger] covered(deletes, x) implies deleted_item(log, x)
        == deleted_item(deletes, x) by {
        assert(covered(was, x));
        lemma_rle_push_lookup(was, val, x);
    }
    assert forall|j: int| 0 <= j < all.len() implies deleted_item(log, order + j)
        == #[trigger] all[j] by {
        lemma_rle_push_lookup(was, val, order + j);
        if j < m {
            assert(covered(was, order + j));
            assert(deleted_item(was, order + j) == row[j]);
        } else {
            assert(covers(val, order + j));
            assert(all[j] == new_orders(target, len)[j - m]);
        }
    }
}

/// A local deletion logs, for each of its operations, the visible item that it deleted,
/// and keeps what was logged before.
pub proof fn law_local_delete_logs_items(doc: DocState, pos: int, len: int, order: int)
    requires
        doc.content_ok(order),
        0 <= order,
        order + len <= u32::MAX,
        0 <= pos,
        0 < len,
        pos + len <= content_len(doc.entries),
    ensures
        ({
            let log = doc.locally_deleted(pos, len, order).deletes;
            &&& forall|j: int|
                0 <= j < len ==> #[trigger] covered(log, order + j) && deleted_item(log, order + j)
                    == visible(doc.entries)[pos + j]
            &&& forall|x: int| #[trigger]
                covered(doc.deletes, x) ==> covered(log, x) && deleted_item(log, x)
                    == deleted_item(doc.deletes, x)
        }),
{
    let entries = doc.entries;
    lemma_content_place_of(entries, pos);
    let p = content_place(entries, pos);
    let taken = deactivated_from(entries, p, len).taken;
    law_delete_takes_visible(entries, p, len);
    lemma_content_deactivated(entries, p, len);
    lemma_content_bound(entries);
    lemma_gathered(taken);
    lemma_gathered_orders(taken);
    if doc.deletes.len() > 0 {
        assert(doc.deletes[doc.deletes.len() - 1].span_ok());
    }
    lemma_logged(doc.deletes, gathered(taken), order);
    lemma_text_len(gathered(taken));
    let log = doc.locally_deleted(pos, len, order).deletes;
    assert(log == deletes_logged(doc.deletes, gathered(taken), order));
    assert forall|j: int| 0 <= j < len implies #[trigger] covered(log, order + j) && deleted_item(
        log,
        order + j,
    ) == visible(doc.entries)[pos + j] by {
        assert(orders(gathered(taken))[j] == visible(doc.entries)[pos + j]);
    }
}

/// An integrated item is right of the place that it belongs to, and all other items stay
/// in their order.
pub proof fn law_integrated_right_of_origin(
    doc: DocState,
    agent: int,
    item: YjsSpan,
    left: Place,
) -> (k: int)
    requires
        entries_ok(doc.entries),
        left.within(doc.entries),
        entry_ok(item),
        item.active(),
    ensures
        items_before(doc.entries, left) <= k <= orders(doc.entries).len(),
        orders(doc.integrated(agent, item, left).entries) == spliced(
            orders(doc.entries),
            k,
            span_orders(item),
        ),
{
    let name = doc.clients[agent].name;
    let at = doc.scan(name, item, left, left, left, false);
    doc.lemma_scan_within(name, item, left, left, left, false);
    lemma_scan_marked(doc, name, item, left, left, left, left, false);
    law_insert_keeps_order(doc.entries, at, item);
    lemma_items_before_bound(doc.entries, at);
    items_before(doc.entries, at)
}

/// No more items are left of a place than there are.
proof fn lemma_items_before_bound(entries: Seq<YjsSpan>, p: Place)
    requires
        p.within(entries),
    ensures
        0 <= items_before(entries, p) <= orders(entries).len(),
{
    lemma_text_len(entries);
    if entries.len() > 0 {
        lemma_text_around(entries, p.entry);
    } else {
        assert(entries.take(0) =~= entries);
    }
}

/// An item that a peer inserted behind another one is behind that one.
pub proof fn law_inserted_behind_origin(doc: DocState, agent: int, item: YjsSpan, order: int)
    requires
        row_ok(doc.entries, order),
        fresh(item, doc.entries, order),
        item.origin_left != ROOT_ORDER,
    ensures
        ({
            let left = place_after(doc.entries, item.origin_left as int);
            let now = orders(doc.integrated(agent, item, left).entries);
            exists|i: int, j: int|
                0 <= i < j < now.len() && #[trigger] now[i] == item.origin_left
                    && #[trigger] now[j] == item.order
        }),
{
    let x = item.origin_left;
    let p = place_before(doc.entries, x as int);
    let left = place_after(doc.entries, x as int);
    lemma_place_before(doc.entries, x);
    assert(entry_ok(doc.entries[p.entry]));
    let k = law_integrated_right_of_origin(doc, agent, item, left);
    let now = orders(doc.integrated(agent, item, left).entries);
    let i = items_before(doc.entries, p);
    lemma_text_around(doc.entries, p.entry);
    assert(orders(doc.entries)[i] == x);
    assert(now[i] == x);
    assert(span_orders(item)[0] == item.order);
    assert(now[k] == item.order);
}

/// A local transaction gets the next orders of the document and the next numbers of its
/// peer; every operation that was known before keeps its order and its author.
pub proof fn law_local_txn_numbers(doc: DocState, agent: int, ops: Seq<Edit>)
    requires
        doc.ok(),
        0 <= agent < doc.clients.len(),
        doc.local_ops_ok(ops),
    ensures
        ({
            let after = doc.after_local_txn(agent, ops);
            let len = ops_len(ops, ops.len() as int);
            numbered(doc, after, agent, len)
        }),
{
    let first = doc.next_order();
    let len = ops_len(ops, ops.len() as int);
    lemma_ops_len_nonneg(ops, ops.len() as int);
    let start = doc.assigned(agent, doc.next_seq(agent), first, len);
    lemma_assigned(doc, agent, len);
    start.lemma_edited_by(agent, ops, ops.len() as int, first);
}

/// The next `len` operations of the document are the next ones of a peer, and nothing else
/// has changed in who did what.
pub open spec fn numbered(before: DocState, after: DocState, agent: int, len: int) -> bool {
    let first = before.next_order();
    let seq = before.next_seq(agent);
    &&& after.next_order() == first + len
    &&& after.next_seq(agent) == seq + len
    &&& after.clients.len() == before.clients.len()
    &&& forall|a: int|
        0 <= a < before.clients.len() ==> (#[trigger] after.clients[a]).name
            == before.clients[a].name
    &&& forall|j: int|
        0 <= j < len ==> #[trigger] covered(after.clients[agent].item_orders, seq + j)
            && order_of_seq(after.clients[agent].item_orders, seq + j) == first + j
    &&& forall|a: int, x: int|
        0 <= a < before.clients.len() && #[trigger] covered(before.clients[a].item_orders, x)
            ==> covered(after.clients[a].item_orders, x) && order_of_seq(
            after.clients[a].item_orders,
            x,
        ) == order_of_seq(before.clients[a].item_orders, x)
    &&& forall|x: int|
        0 <= x < first ==> item_of_key(after.client_with_order, x) == #[trigger] item_of_key(
            before.client_with_order,
            x,
        )
}

/// A remote transaction gets the next orders of the document and the next numbers of its
/// peer; every operation that was known before keeps its order and its author.
pub proof fn law_remote_txn_numbers(doc: DocState, txn: RemoteTxn)
    requires
        doc.ok(),
        doc.remote_txn_ok(txn),
    ensures
        ({
            let after = doc.after_remote_txn(txn);
            let len = remote_ops_len(txn.ops@, txn.ops@.len() as int);
            numbered(doc.with_agent(txn.id.agent@), after, doc.remote_agent(txn), len)
        }),
{
    let known = doc.with_agent(txn.id.agent@);
    let agent = doc.remote_agent(txn);
    let len = remote_ops_len(txn.ops@, txn.ops@.len() as int);
    lemma_with_agent(doc, txn.id.agent@);
    lemma_remote_ops_len_nonneg(txn.ops@, txn.ops@.len() as int);
    lemma_assigned(known, agent, len);
    doc.before_remote_ops(txn).lemma_changed_by(
        agent,
        txn.ops@,
        txn.ops@.len() as int,
        doc.next_order(),
    );
}

pub proof fn lemma_remote_ops_len_nonneg(ops: Seq<RemoteOp>, k: int)
    ensures
        0 <= remote_ops_len(ops, k),
    decreases k,
{
    if k > 0 {
        lemma_remote_ops_len_nonneg(ops, k - 1);
    }
}

/// A name is known once it was asked for: asking again gives the same agent and changes
/// nothing. Agents that were known before stay the same.
pub proof fn law_agents_stay(doc: DocState, name: Seq<char>, other: Seq<char>)
    requires
        doc.clients_ok(),
        agent_of(doc.clients, name) is None ==> doc.clients.len() < 0xffff,
    ensures
        doc.with_agent(name).with_agent(name) == doc.with_agent(name),
        agent_of(doc.with_agent(name).clients, name) is Some,
        agent_of(doc.clients, other) is Some ==> agent_of(doc.with_agent(name).clients, other)
            == agent_of(doc.clients, other),
{
    lemma_with_agent(doc, name);
    if agent_of(doc.clients, name) is None && agent_of(doc.clients, other) is Some {
        lemma_client_kept(
            doc.clients,
            ClientState { name, item_orders: Seq::empty() },
            other,
            0,
        );
    }
}

/// A new client does not change who is found by another name.
proof fn lemma_client_kept(
    clients: Seq<ClientState>,
    client: ClientState,
    name: Seq<char>,
    i: int,
)
    requires
        0 <= i,
    ensures
        client_from(clients, name, i) is Some ==> client_from(clients.push(client), name, i)
            == client_from(clients, name, i),
    decreases clients.len() - i,
{
    if i < clients.len() {
        assert(clients.push(client)[i] == clients[i]);
        lemma_client_kept(clients, client, name, i + 1);
    }
}

/// A client's name is found to be that client.
proof fn lemma_client_found(clients: Seq<ClientState>, a: int, i: int)
    requires
        0 <= i <= a < clients.len(),
        forall|c: int, b: int|
            0 <= c < b < clients.len() ==> (#[trigger] clients[c]).name != (
            #[trigger] clients[b]).name,
    ensures
        client_from(clients, clients[a].name, i) == Some(a),
    decreases a - i,
{
    if i < a {
        assert(clients[i].name != clients[a].name);
        lemma_client_found(clients, a, i + 1);
    }
}

/// Different clients have different names, none of them that of the root, and each is
/// found by its name.
pub proof fn law_clients_have_names(doc: DocState, a: int, b: int)
    requires
        doc.ok(),
        0 <= a < doc.clients.len(),
        0 <= b < doc.clients.len(),
    ensures
        doc.clients[a].name != "ROOT"@,
        (doc.clients[a].name == doc.clients[b].name) == (a == b),
        agent_of(doc.clients, doc.clients[a].name) == Some(a),
{
    reveal(names_known);
    lemma_client_found(doc.clients, a, 0);
    if a < b {
        assert(doc.clients[a].name != doc.clients[b].name);
    } else if b < a {
        assert(doc.clients[b].name != doc.clients[a].name);
    }
}

/// Every operation of a client so far is known by the client's name and its number, and
/// no other operation has that name: what it stands for is an order of the document, of
/// which the client and the number are on record.
pub proof fn law_numbers_name_orders(doc: DocState, a: int, seq: int)
    requires
        doc.ok(),
        0 <= a < doc.clients.len(),
        0 <= seq < doc.next_seq(a),
    ensures
        ({
            let order = doc.resolved(doc.clients[a].name, seq);
            &&& order is Some
            &&& 0 <= order->0 < doc.next_order()
            &&& is_operation_of(doc.client_with_order, order->0, a, seq)
        }),
{
    law_clients_have_names(doc, a, a);
    reveal(names_known);
    let list = doc.clients[a].item_orders;
    assert(covered(list, seq));
    assert(client_ok(doc.clients[a], doc.next_order()));
    assert(list[index_of_key(list, seq)].1.order + list[index_of_key(list, seq)].1.len
        <= doc.next_order());
}

/// Every order of the document is that of an operation with a name, and the name stands
/// for that order.
pub proof fn law_orders_have_names(doc: DocState, x: int)
    requires
        doc.ok(),
        0 <= x < doc.next_order(),
    ensures
        ({
            let loc = item_of_key(doc.client_with_order, x);
            &&& loc.agent < doc.clients.len()
            &&& loc.seq < doc.next_seq(loc.agent as int)
            &&& doc.resolved(doc.clients[loc.agent as int].name, loc.seq as int) == Some(x)
        }),
{
    let loc = item_of_key(doc.client_with_order, x);
    assert(is_named(doc.clients, doc.client_with_order, x)) by {
        reveal(names_known);
    }
    law_clients_have_names(doc, loc.agent as int, loc.agent as int);
    let list = doc.clients[loc.agent as int].item_orders;
    assert(client_ok(doc.clients[loc.agent as int], doc.next_order()));
    let i = index_of_key(list, loc.seq as int);
    assert(covers(list[i], loc.seq as int));
    if i < list.len() - 1 {
        assert(key_end(list[i]) <= list[list.len() - 1].rle_key());
    }
}

/// The numbers of a client's operations so far are those below its next one.
pub proof fn law_known_numbers(doc: DocState, a: int, seq: int)
    requires
        doc.ok(),
        0 <= a < doc.clients.len(),
    ensures
        covered(doc.clients[a].item_orders, seq) == (0 <= seq < doc.next_seq(a)),
{
    let list = doc.clients[a].item_orders;
    assert(client_ok(doc.clients[a], doc.next_order()));
    if covered(list, seq) {
        let i = index_of_key(list, seq);
        assert(covers(list[i], seq));
        if i < list.len() - 1 {
            assert(key_end(list[i]) <= list[list.len() - 1].rle_key());
        }
    }
    if 0 <= seq < doc.next_seq(a) {
        reveal(names_known);
    }
}

/// The operations of a client have their orders in the order of their numbers.
pub proof fn law_orders_grow(doc: DocState, a: int, seq: int, later: int)
    requires
        doc.ok(),
        0 <= a < doc.clients.len(),
        0 <= seq < later < doc.next_seq(a),
    ensures
        order_of_seq(doc.clients[a].item_orders, seq) < order_of_seq(
            doc.clients[a].item_orders,
            later,
        ),
        doc.resolved(doc.clients[a].name, seq)->0 < doc.resolved(doc.clients[a].name, later)->0,
{
    law_numbers_name_orders(doc, a, seq);
    law_numbers_name_orders(doc, a, later);
    law_clients_have_names(doc, a, a);
    let list = doc.clients[a].item_orders;
    assert(client_ok(doc.clients[a], doc.next_order()));
    law_known_numbers(doc, a, seq);
    law_known_numbers(doc, a, later);
    let i = index_of_key(list, seq);
    let j = index_of_key(list, later);
    assert(covers(list[i], seq) && covers(list[j], later));
    if i < j {
        assert(list[i].1.order + list[i].1.len <= list[j].1.order);
    } else if j < i {
        assert(key_end(list[j]) <= list[i].rle_key());
    }
}

/// The orders that a document has of one client.
pub open spec fn orders_of(doc: DocState, a: int) -> Set<int> {
    Set::new(
        |x: int|
            0 <= x < doc.next_order() && item_of_key(doc.client_with_order, x).agent == a,
    )
}

/// The orders that a document has of the first `k` clients.
spec fn orders_upto(doc: DocState, k: int) -> Set<int> {
    Set::new(
        |x: int|
            0 <= x < doc.next_order() && item_of_key(doc.client_with_order, x).agent < k,
    )
}

/// How many operations the first `k` clients have made.
pub open spec fn total_seq(doc: DocState, k: int) -> int
    decreases k,
{
    if k <= 0 {
        0
    } else {
        total_seq(doc, k - 1) + doc.next_seq(k - 1)
    }
}

/// A client has as many operations as the document has orders of it: the number of its next
/// operation is how many it has made.
pub proof fn law_next_seq_counts(doc: DocState, a: int)
    requires
        doc.ok(),
        0 <= a < doc.clients.len(),
    ensures
        orders_of(doc, a).finite(),
        doc.next_seq(a) == orders_of(doc, a).len(),
        doc.next_seq(a) == 0 <==> forall|x: int|
            0 <= x < doc.next_order() ==> #[trigger] item_of_key(
                doc.client_with_order,
                x,
            ).agent != a,
{
    let list = doc.clients[a].item_orders;
    let n = doc.next_seq(a);
    assert(client_ok(doc.clients[a], doc.next_order()));
    assert(0 <= n) by {
        if list.len() > 0 {
            assert(list[list.len() - 1].span_ok());
        }
    }
    let numbers = set_int_range(0, n);
    let f = |seq: int| order_of_seq(list, seq);
    lemma_int_range(0, n);
    lemma_int_range(0, doc.next_order());
    assert(orders_of(doc, a).subset_of(set_int_range(0, doc.next_order())));
    lemma_set_subset_finite(set_int_range(0, doc.next_order()), orders_of(doc, a));
    assert forall|s: int, t: int|
        numbers.contains(s) && numbers.contains(t) && #[trigger] f(s) == #[trigger] f(
            t,
        ) implies s == t by {
        if s < t {
            law_orders_grow(doc, a, s, t);
        } else if t < s {
            law_orders_grow(doc, a, t, s);
        }
    }
    assert forall|x: int| orders_of(doc, a).contains(x) == numbers.map(f).contains(x) by {
        if orders_of(doc, a).contains(x) {
            law_orders_have_names(doc, x);
            law_clients_have_names(doc, a, a);
            let seq = item_of_key(doc.client_with_order, x).seq as int;
            assert(numbers.contains(seq) && f(seq) == x);
        }
        if numbers.map(f).contains(x) {
            let s = choose|s: int| numbers.contains(s) && #[trigger] f(s) == x;
            law_numbers_name_orders(doc, a, s);
            law_clients_have_names(doc, a, a);
        }
    }
    assert(orders_of(doc, a) =~= numbers.map(f));
    lemma_map_size(numbers, orders_of(doc, a), f);
    if n == 0 {
        assert forall|x: int| 0 <= x < doc.next_order() implies #[trigger] item_of_key(
            doc.client_with_order,
            x,
        ).agent != a by {
            if item_of_key(doc.client_with_order, x).agent == a {
                assert(orders_of(doc, a).contains(x));
                assert(orders_of(doc, a) =~= Set::empty());
            }
        }
    } else {
        law_numbers_name_orders(doc, a, 0);
        let x = doc.resolved(doc.clients[a].name, 0)->0;
        assert(item_of_key(doc.client_with_order, x).agent == a);
    }
}

/// The clients together have made as many operations as the document has orders.
pub proof fn law_next_seqs_add_up(doc: DocState)
    requires
        doc.ok(),
    ensures
        total_seq(doc, doc.clients.len() as int) == doc.next_order(),
{
    let n = doc.clients.len() as int;
    let all = set_int_range(0, doc.next_order());
    lemma_int_range(0, doc.next_order());
    lemma_total_seq(doc, n);
    assert forall|x: int| orders_upto(doc, n).contains(x) == all.contains(x) by {
        if all.contains(x) {
            law_orders_have_names(doc, x);
        }
    }
    assert(orders_upto(doc, n) =~= all);
}

proof fn lemma_total_seq(doc: DocState, k: int)
    requires
        doc.ok(),
        0 <= k <= doc.clients.len(),
    ensures
        orders_upto(doc, k).finite(),
        total_seq(doc, k) == orders_upto(doc, k).len(),
    decreases k,
{
    if k == 0 {
        assert(orders_upto(doc, 0) =~= Set::empty());
    } else {
        lemma_total_seq(doc, k - 1);
        law_next_seq_counts(doc, k - 1);
        let a = orders_upto(doc, k - 1);
        let b = orders_of(doc, k - 1);
        assert(orders_upto(doc, k) =~= a.union(b));
        assert(a.disjoint(b));
        lemma_set_disjoint_lens(a, b);
    }
}

/// All operations of the document are those of one client, stored as one run.
pub open spec fn single_author(doc: DocState, agent: int) -> bool {
    let len = doc.next_order();
    &&& doc.client_with_order == seq![
        KVPair(
            0u32,
            CRDTSpan { loc: CRDTLocation { agent: agent as u16, seq: 0 }, len: len as u32 },
        ),
    ]
    &&& doc.clients[agent].item_orders == seq![KVPair(0u32, OrderSpan { order: 0, len: len as u32 })]
}

/// Where one peer alone edits a document, its operations stay one run.
pub proof fn law_single_author_one_run(doc: DocState, agent: int, ops: Seq<Edit>)
    requires
        doc.ok(),
        0 <= agent < doc.clients.len(),
        doc.local_ops_ok(ops),
        single_author(doc, agent) || (doc.next_order() == 0 && doc.client_with_order.len() == 0
            && doc.clients[agent].item_orders.len() == 0),
    ensures
        single_author(doc.after_local_txn(agent, ops), agent),
{
    let first = doc.next_order();
    let len = ops_len(ops, ops.len() as int);
    lemma_ops_len_nonneg(ops, ops.len() as int);
    let start = doc.assigned(agent, doc.next_seq(agent), first, len);
    let after = doc.after_local_txn(agent, ops);
    lemma_assigned(doc, agent, len);
    start.lemma_edited_by(agent, ops, ops.len() as int, first);
    assert(after.client_with_order =~= seq![
        KVPair(
            0u32,
            CRDTSpan {
                loc: CRDTLocation { agent: agent as u16, seq: 0 },
                len: (first + len) as u32,
            },
        ),
    ]);
    assert(after.clients[agent].item_orders =~= seq![
        KVPair(0u32, OrderSpan { order: 0, len: (first + len) as u32 }),
    ]);
}

/// A transaction takes the place of its parents at the head of the history: after it, its
/// last operation is there, none of its parents is, and whatever else was there still is.
pub proof fn law_frontier_advances(
    doc: DocState,
    parents: Seq<u32>,
    first: int,
    len: int,
    x: u32,
)
    requires
        0 <= first,
        1 <= first + len <= u32::MAX,
    ensures
        doc.with_txn(Some(parents), first, len).frontier.contains(x) == (x == first + len - 1 || (
        doc.frontier.contains(x) && !parents.contains(x))),
{
    let last = (first + len - 1) as u32;
    let kept = outside(doc.frontier, parents);
    let now = doc.with_txn(Some(parents), first, len).frontier;
    assert(now == kept.push(last));
    if now.contains(x) {
        let i = choose|i: int| 0 <= i < now.len() && now[i] == x;
        if i < kept.len() {
            lemma_outside(doc.frontier, parents, i);
        }
    }
    if x == last {
        assert(now[kept.len() as int] == x);
    }
    if doc.frontier.contains(x) && !parents.contains(x) {
        let i = choose|i: int| 0 <= i < doc.frontier.len() && doc.frontier[i] == x;
        doc.frontier.lemma_filter_contains(|order: u32| !parents.contains(order), i);
        let j = choose|j: int| 0 <= j < kept.len() && kept[j] == x;
        assert(now[j] == x);
    }
}

/// The item at a position is the visible item that has as many visible items before it.
pub proof fn law_position_of_visible_item(entries: Seq<YjsSpan>, pos: int)
    requires
        entries_ok(entries),
        0 <= pos < content_len(entries),
    ensures
        content_place(entries, pos).item(entries) == Some(visible(entries)[pos]),
{
    lemma_content_place_of(entries, pos);
    let p = content_place(entries, pos);
    assert(entry_ok(entries[p.entry]));
    lemma_text_around(entries, p.entry);
}

/// All transactions of the document are on top of each other, stored as one run.
pub open spec fn linear_history(doc: DocState) -> bool {
    let len = doc.next_order();
    &&& len > 0
    &&& doc.frontier == seq![(len - 1) as u32]
    &&& doc.txns == seq![
        TxnState { order: 0, len: len as u32, shadow: 0, parents: seq![ROOT_ORDER] },
    ]
}

/// Where a document is edited locally only, all its transactions stay one run, which
/// nothing is missing from.
pub proof fn law_local_history_one_run(doc: DocState, agent: int, ops: Seq<Edit>)
    requires
        doc.ok(),
        0 <= agent < doc.clients.len(),
        doc.local_ops_ok(ops),
        linear_history(doc) || (doc.next_order() == 0 && doc.txns.len() == 0 && doc.frontier
            == seq![ROOT_ORDER]),
    ensures
        linear_history(doc.after_local_txn(agent, ops)),
{
    let first = doc.next_order();
    let len = ops_len(ops, ops.len() as int);
    lemma_ops_len_nonneg(ops, ops.len() as int);
    let start = doc.assigned(agent, doc.next_seq(agent), first, len);
    let after = doc.after_local_txn(agent, ops);
    lemma_assigned(doc, agent, len);
    start.lemma_edited_by(agent, ops, ops.len() as int, first);
    let on = doc.frontier;
    if first > 0 {
        assert(on[0] == (first - 1) as u32);
        assert(on.contains((first - 1) as u32));
        assert(txn_holds(doc.txns[0], first - 1));
        assert(txn_of(doc.txns, first - 1) == doc.txns[0]);
        assert(shadow_from(doc.txns, on, 0) == 0);
        assert(shadow_from(doc.txns, on, first) == 0);
    } else {
        assert(shadow_from(doc.txns, on, 0) == 0);
    }
    assert(after.txns =~= seq![
        TxnState { order: 0, len: (first + len) as u32, shadow: 0, parents: seq![ROOT_ORDER] },
    ]);
}

/// Of items that were inserted at the start of the document before the same item, and
/// that did not know of each other, those come first whose peer's name sorts first: a new
/// item goes before the others if its peer's name does not sort behind theirs, and behind
/// them otherwise.
pub proof fn law_concurrent_by_name(doc: DocState, agent: int, item: YjsSpan)
    requires
        entries_ok(doc.entries),
        doc.entries.len() > 0,
        entry_ok(item),
        item.active(),
        item.origin_left == ROOT_ORDER,
        doc.entries[0].origin_left == ROOT_ORDER,
        doc.entries[0].origin_right == item.origin_right,
        doc.entries[0].order != item.origin_right,
    ensures
        ({
            let left = place_after(doc.entries, item.origin_left as int);
            let other = doc.author(doc.entries[0].order as int);
            let now = orders(doc.integrated(agent, item, left).entries);
            if name_behind(doc.clients[agent].name, other) {
                now.take(doc.entries[0].span_len() as int) == span_orders(doc.entries[0])
            } else {
                now == span_orders(item) + orders(doc.entries)
            }
        }),
{
    let entries = doc.entries;
    let name = doc.clients[agent].name;
    let first = entries[0];
    let left = Place { entry: 0, offset: 0 };
    let all = orders(entries);
    assert(entry_ok(first));
    assert(left == place_after(entries, item.origin_left as int));
    let at = doc.scan(name, item, left, left, left, false);
    doc.lemma_scan_within(name, item, left, left, left, false);
    law_insert_keeps_order(entries, at, item);
    lemma_text_around(entries, 0);
    assert(entries.take(0) =~= Seq::empty());
    assert(orders(entries.take(0)) =~= Seq::empty());
    if name_behind(name, doc.author(first.order as int)) {
        let next = left.next_entry(entries);
        assert(at == doc.scan(name, item, left, next, left, false));
        lemma_scan_onward(doc, name, item, left, next, left);
        lemma_items_before_bound(entries, at);
        if entries.len() > 1 {
            assert(entries.take(1) =~= seq![first]);
            lemma_items_len_one(first);
        }
        assert(all.take(first.span_len() as int) =~= span_orders(first));
        let k = items_before(entries, at);
        assert(first.span_len() <= k);
        assert(spliced(all, k, span_orders(item)).take(first.span_len() as int) =~= all.take(
            first.span_len() as int,
        ));
    } else {
        assert(at == left);
        assert(spliced(all, 0, span_orders(item)) =~= span_orders(item) + all);
    }
}

/// A search that has not marked any place ends at the place that it is at, or further
/// right.
proof fn lemma_scan_onward(
    doc: DocState,
    name: Seq<char>,
    item: YjsSpan,
    left: Place,
    at: Place,
    unmarked: Place,
)
    requires
        entries_ok(doc.entries),
        at.within(doc.entries),
        unmarked.within(doc.entries),
    ensures
        items_before(doc.entries, at) <= items_before(
            doc.entries,
            doc.scan(name, item, left, at, unmarked, false),
        ),
    decreases doc.entries.len() - at.entry, doc.entries[at.entry].span_len() - at.offset,
{
    if at.item(doc.entries) is Some && 0 <= at.entry < doc.entries.len() {
        let next = at.next_entry(doc.entries);
        if at.entry + 1 < doc.entries.len() {
            let upto = doc.entries.take(at.entry + 1);
            assert(upto.drop_last() =~= doc.entries.take(at.entry));
            assert(upto.last() == doc.entries[at.entry]);
        }
        lemma_scan_onward(doc, name, item, left, next, unmarked);
        lemma_scan_marked(doc, name, item, left, next, at, at, true);
    }
}

/// A search that has marked a place ends no further left than a place left of the mark.
proof fn lemma_scan_marked(
    doc: DocState,
    name: Seq<char>,
    item: YjsSpan,
    left: Place,
    at: Place,
    mark: Place,
    bound: Place,
    marked: bool,
)
    requires
        entries_ok(doc.entries),
        at.within(doc.entries),
        mark.within(doc.entries),
        items_before(doc.entries, bound) <= items_before(doc.entries, at),
        items_before(doc.entries, bound) <= items_before(doc.entries, mark),
    ensures
        items_before(doc.entries, bound) <= items_before(
            doc.entries,
            doc.scan(name, item, left, at, mark, marked),
        ),
    decreases doc.entries.len() - at.entry, doc.entries[at.entry].span_len() - at.offset,
{
    if at.item(doc.entries) is Some && 0 <= at.entry < doc.entries.len() {
        let next = at.next_entry(doc.entries);
        if at.entry + 1 < doc.entries.len() {
            let upto = doc.entries.take(at.entry + 1);
            assert(upto.drop_last() =~= doc.entries.take(at.entry));
            assert(upto.last() == doc.entries[at.entry]);
        }
        lemma_scan_marked(doc, name, item, left, next, mark, bound, marked);
        lemma_scan_marked(doc, name, item, left, next, mark, bound, false);
        lemma_scan_marked(doc, name, item, left, next, at, bound, true);
    }
}

} // verus!
