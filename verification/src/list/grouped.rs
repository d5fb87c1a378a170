//! Edits in one transaction and in several.

use crate::list::content::lemma_content_deactivated;
use crate::list::keeps::{law_local_txn_keeps_sound, lemma_locally_deleted_ok};
use crate::list::laws::{
    law_local_insert_place, law_local_txn_edits_text, law_local_txn_numbers, lemma_content_place_of,
    lemma_edited_by, lemma_ops_len_nonneg,
};
use crate::list::model::{
    content_len, content_place, local_op_ok, op_len, ops_len, shadow_from, txn_holds, txn_known,
    txn_of, txn_pushed, visible_after, DocState, Edit, TxnState,
};
use crate::list::valid::{client_ok, lemma_shadow_bound, lemma_txn_pushed, txns_ok};
use crate::splitable_span::MergableSpan;
use vstd::prelude::*;

verus! {

/// The first edits do not depend on those that follow.
proof fn lemma_edits_prefix(
    doc: DocState,
    agent: int,
    x: Seq<Edit>,
    y: Seq<Edit>,
    k: int,
    order: int,
    len: int,
)
    requires
        0 <= k <= x.len(),
    ensures
        doc.edited_by(agent, x + y, k, order) == doc.edited_by(agent, x, k, order),
        ops_len(x + y, k) == ops_len(x, k),
        visible_after(len, x + y, k) == visible_after(len, x, k),
    decreases k,
{
    if k > 0 {
        lemma_edits_prefix(doc, agent, x, y, k - 1, order, len);
        assert((x + y)[k - 1] == x[k - 1]);
    }
}

/// Edits can be made in two parts.
proof fn lemma_edits_concat(
    doc: DocState,
    agent: int,
    x: Seq<Edit>,
    y: Seq<Edit>,
    k: int,
    order: int,
    len: int,
)
    requires
        0 <= k <= y.len(),
    ensures
        doc.edited_by(agent, x + y, x.len() + k, order) == doc.edited_by(
            agent,
            x,
            x.len() as int,
            order,
        ).edited_by(agent, y, k, order + ops_len(x, x.len() as int)),
        ops_len(x + y, x.len() + k) == ops_len(x, x.len() as int) + ops_len(y, k),
        visible_after(len, x + y, x.len() + k) == visible_after(
            visible_after(len, x, x.len() as int),
            y,
            k,
        ),
    decreases k,
{
    lemma_edits_prefix(doc, agent, x, y, x.len() as int, order, len);
    if k > 0 {
        lemma_edits_concat(doc, agent, x, y, k - 1, order, len);
        assert((x + y)[x.len() + k - 1] == y[k - 1]);
    }
}

/// What a local edit makes of the items depends on the items alone.
proof fn lemma_edited_same(a: DocState, b: DocState, agent: int, op: Edit, order: int)
    requires
        a.content_ok(order),
        a.entries == b.entries,
        a.deletes == b.deletes,
        0 <= order,
        order + op_len(op) <= u32::MAX,
        op_len(op) > 0 ==> op.pos + op.del_span <= content_len(a.entries),
        op.ins_len <= i32::MAX,
    ensures
        a.edited(agent, op, order).entries == b.edited(agent, op, order).entries,
        a.edited(agent, op, order).deletes == b.edited(agent, op, order).deletes,
{
    let pos = op.pos as int;
    let n = op.del_span as int;
    if op.ins_len > 0 {
        if n > 0 {
            lemma_content_place_of(a.entries, pos);
            lemma_content_deactivated(a.entries, content_place(a.entries, pos), n);
            lemma_locally_deleted_ok(a, pos, n, order);
            law_local_insert_place(
                a.locally_deleted(pos, n, order),
                agent,
                pos,
                op.ins_len as int,
                order + n,
            );
            law_local_insert_place(
                b.locally_deleted(pos, n, order),
                agent,
                pos,
                op.ins_len as int,
                order + n,
            );
        } else {
            law_local_insert_place(a, agent, pos, op.ins_len as int, order);
            law_local_insert_place(b, agent, pos, op.ins_len as int, order);
        }
    }
}

/// What local edits make of the items depends on the items alone.
proof fn lemma_edited_by_same(
    a: DocState,
    b: DocState,
    agent: int,
    ops: Seq<Edit>,
    k: int,
    order: int,
)
    requires
        a.content_ok(order),
        a.entries == b.entries,
        a.deletes == b.deletes,
        0 <= order,
        0 <= k <= ops.len(),
        order + ops_len(ops, k) <= u32::MAX,
        forall|j: int| 0 <= j < k ==> (#[trigger] ops[j]).ins_len <= i32::MAX,
        forall|j: int| 0 <= j < k ==> #[trigger] local_op_ok(ops, j, content_len(a.entries)),
    ensures
        a.edited_by(agent, ops, k, order).entries == b.edited_by(agent, ops, k, order).entries,
        a.edited_by(agent, ops, k, order).deletes == b.edited_by(agent, ops, k, order).deletes,
    decreases k,
{
    if k > 0 {
        lemma_ops_len_nonneg(ops, k - 1);
        lemma_edited_by_same(a, b, agent, ops, k - 1, order);
        lemma_edited_by(a, agent, ops, k - 1, order);
        assert(local_op_ok(ops, k - 1, content_len(a.entries)));
        lemma_edited_same(
            a.edited_by(agent, ops, k - 1, order),
            b.edited_by(agent, ops, k - 1, order),
            agent,
            ops[k - 1],
            order + ops_len(ops, k - 1),
        );
    }
}

/// The next operations of the document can be given to a client in two parts.
proof fn lemma_assigned_grouped(doc: DocState, agent: int, m: int, n: int)
    requires
        doc.clients_ok(),
        0 <= agent < doc.clients.len(),
        0 <= m,
        0 <= n,
        doc.next_order() + m + n <= u32::MAX,
    ensures
        ({
            let first = doc.next_order();
            let seq = doc.next_seq(agent);
            doc.assigned(agent, seq, first, m).assigned(agent, seq + m, first + m, n)
                == doc.assigned(agent, seq, first, m + n)
        }),
{
    let first = doc.next_order();
    let seq = doc.next_seq(agent);
    let cwo = doc.client_with_order;
    let list = doc.clients[agent].item_orders;
    assert(client_ok(doc.clients[agent], first));
    if cwo.len() > 0 {
        assert(cwo[cwo.len() - 1].span_ok());
    }
    if list.len() > 0 {
        assert(list[list.len() - 1].span_ok());
    }
    let half = doc.assigned(agent, seq, first, m);
    let twice = half.assigned(agent, seq + m, first + m, n);
    let once = doc.assigned(agent, seq, first, m + n);
    assert(twice.client_with_order =~= once.client_with_order);
    assert(twice.clients[agent].item_orders =~= once.clients[agent].item_orders);
    assert(twice.clients =~= once.clients);
}

/// An operation is in one run of transactions only.
proof fn lemma_txn_of(txns: Seq<TxnState>, next: int, i: int, x: int)
    requires
        txns_ok(txns, next),
        0 <= i < txns.len(),
        txn_holds(txns[i], x),
    ensures
        txn_of(txns, x) == txns[i],
{
    let j = choose|j: int| 0 <= j < txns.len() && #[trigger] txn_holds(txns[j], x);
    if i < j {
        assert(txns[i].order + txns[i].len <= txns[j].order);
    } else if j < i {
        assert(txns[j].order + txns[j].len <= txns[i].order);
    }
}

/// What came before an operation on top of the last one alone.
proof fn lemma_shadow_of_last(txns: Seq<TxnState>, next: int)
    requires
        txns_ok(txns, next),
        1 <= next <= u32::MAX,
    ensures
        shadow_from(txns, seq![(next - 1) as u32], next) == txn_of(txns, next - 1).shadow,
{
    let on = seq![(next - 1) as u32];
    assert(on[0] == (next - 1) as u32);
    assert(on.contains((next - 1) as u32));
    assert(txn_known(txns, next - 1));
    let i = choose|i: int| 0 <= i < txns.len() && #[trigger] txn_holds(txns[i], next - 1);
    lemma_txn_of(txns, next, i, next - 1);
    let shadow = txns[i].shadow as int;
    assert(shadow <= txns[i].order);
    assert(!on.contains((shadow - 1) as u32) || shadow < 1);
    assert(shadow_from(txns, on, shadow) == shadow);
}

/// A transaction right behind another one, on top of it alone, makes one run with it.
proof fn lemma_txns_grouped(txns: Seq<TxnState>, on: Seq<u32>, first: int, m: int, n: int)
    requires
        txns_ok(txns, first),
        0 <= first,
        0 <= m,
        0 <= n,
        1 <= first + m,
        first + m + n <= u32::MAX,
        m > 0 || shadow_from(txns, on, first) == shadow_from(
            txns,
            seq![(first - 1) as u32],
            first,
        ),
    ensures
        ({
            let shadow = shadow_from(txns, on, first) as u32;
            let half = txn_pushed(
                txns,
                TxnState { order: first as u32, len: m as u32, shadow, parents: on },
            );
            let last = seq![(first + m - 1) as u32];
            txn_pushed(
                half,
                TxnState {
                    order: (first + m) as u32,
                    len: n as u32,
                    shadow: shadow_from(half, last, first + m) as u32,
                    parents: last,
                },
            ) == txn_pushed(
                txns,
                TxnState { order: first as u32, len: (m + n) as u32, shadow, parents: on },
            )
        }),
{
    let shadow = shadow_from(txns, on, first) as u32;
    let txn = TxnState { order: first as u32, len: m as u32, shadow, parents: on };
    let whole = TxnState { order: first as u32, len: (m + n) as u32, shadow, parents: on };
    let half = txn_pushed(txns, txn);
    let last = seq![(first + m - 1) as u32];
    let next = TxnState {
        order: (first + m) as u32,
        len: n as u32,
        shadow: shadow_from(half, last, first + m) as u32,
        parents: last,
    };
    lemma_shadow_bound(txns, on, first, first);
    lemma_txn_pushed(txns, txn, first);
    lemma_shadow_of_last(half, first + m);
    if m > 0 {
        assert(txn_holds(half[half.len() - 1], first + m - 1));
        lemma_txn_of(half, first + m, half.len() - 1, first + m - 1);
    } else {
        lemma_shadow_of_last(txns, first);
        assert(txn_known(txns, first - 1));
        let i = choose|i: int| 0 <= i < txns.len() && #[trigger] txn_holds(txns[i], first - 1);
        lemma_txn_of(txns, first, i, first - 1);
        assert(txn_holds(half[i], first - 1));
        lemma_txn_of(half, first, i, first - 1);
    }
    assert(txn_pushed(half, next) =~= txn_pushed(txns, whole));
}

/// Edits that are within the text one after the other are so in two parts.
proof fn lemma_ops_ok_grouped(doc: DocState, agent: int, x: Seq<Edit>, y: Seq<Edit>)
    requires
        doc.ok(),
        0 <= agent < doc.clients.len(),
        doc.local_ops_ok(x + y),
        1 <= doc.next_order() + ops_len(x, x.len() as int),
    ensures
        doc.local_ops_ok(x),
        doc.after_local_txn(agent, x).local_ops_ok(y),
        ops_len(x + y, (x + y).len() as int) == ops_len(x, x.len() as int) + ops_len(
            y,
            y.len() as int,
        ),
{
    let len = content_len(doc.entries);
    lemma_edits_concat(doc, agent, x, y, y.len() as int, 0, len);
    lemma_ops_len_nonneg(y, y.len() as int);
    lemma_ops_len_nonneg(x, x.len() as int);
    assert forall|k: int| 0 <= k < x.len() implies #[trigger] local_op_ok(x, k, len) by {
        lemma_edits_prefix(doc, agent, x, y, k, 0, len);
        assert(local_op_ok(x + y, k, len));
        assert((x + y)[k] == x[k]);
    }
    assert forall|k: int| 0 <= k < x.len() implies (#[trigger] x[k]).ins_len <= i32::MAX by {
        assert((x + y)[k] == x[k]);
    }
    law_local_txn_edits_text(doc, agent, x);
    law_local_txn_numbers(doc, agent, x);
    let after = doc.after_local_txn(agent, x);
    assert forall|k: int| 0 <= k < y.len() implies #[trigger] local_op_ok(
        y,
        k,
        content_len(after.entries),
    ) by {
        lemma_edits_concat(doc, agent, x, y, k, 0, len);
        assert(local_op_ok(x + y, x.len() + k, len));
        assert((x + y)[x.len() + k] == y[k]);
    }
    assert forall|k: int| 0 <= k < y.len() implies (#[trigger] y[k]).ins_len <= i32::MAX by {
        assert((x + y)[x.len() + k] == y[k]);
    }
}

/// The edits do something, or else what came before an operation on top of the last one alone
/// is what came before one on top of the whole document.
pub open spec fn groups_with_next(doc: DocState, x: Seq<Edit>) -> bool {
    let first = doc.next_order();
    ops_len(x, x.len() as int) > 0 || (first >= 1 && shadow_from(doc.txns, doc.frontier, first)
        == shadow_from(doc.txns, seq![(first - 1) as u32], first))
}

/// How local edits are grouped into transactions does not matter: to make some edits and
/// then others, each as a transaction of one peer, gives the same document as to make all of
/// them as one transaction. This is so where the first transaction does something; one
/// without an operation still goes to the head of the history, which may show in what is on
/// record as having come before the next one.
pub proof fn law_edits_group(doc: DocState, agent: int, x: Seq<Edit>, y: Seq<Edit>)
    requires
        doc.ok(),
        0 <= agent < doc.clients.len(),
        doc.local_ops_ok(x + y),
        groups_with_next(doc, x),
    ensures
        doc.local_ops_ok(x),
        doc.after_local_txn(agent, x).local_ops_ok(y),
        doc.after_local_txn(agent, x).after_local_txn(agent, y) == doc.after_local_txn(
            agent,
            x + y,
        ),
{
    let first = doc.next_order();
    let seq = doc.next_seq(agent);
    let m = ops_len(x, x.len() as int);
    let n = ops_len(y, y.len() as int);
    lemma_ops_len_nonneg(x, x.len() as int);
    lemma_ops_len_nonneg(y, y.len() as int);
    lemma_ops_ok_grouped(doc, agent, x, y);
    law_local_txn_numbers(doc, agent, x);
    law_local_txn_keeps_sound(doc, agent, x);
    let half = doc.after_local_txn(agent, x);
    let start = doc.assigned(agent, seq, first, m);
    let edited = start.edited_by(agent, x, x.len() as int, first);
    let next = half.assigned(agent, seq + m, first + m, n);
    let twice = half.after_local_txn(agent, y);
    let all = doc.assigned(agent, seq, first, m + n);
    let once = doc.after_local_txn(agent, x + y);
    lemma_assigned_grouped(doc, agent, m, n);
    lemma_txns_grouped(doc.txns, doc.frontier, first, m, n);
    // The items.
    let mid = all.edited_by(agent, x, x.len() as int, first);
    lemma_edited_by_same(start, all, agent, x, x.len() as int, first);
    lemma_edited_by(start, agent, x, x.len() as int, first);
    lemma_edits_concat(all, agent, x, y, y.len() as int, first, content_len(doc.entries));
    lemma_edited_by_same(next, mid, agent, y, y.len() as int, first + m);
    // Everything else.
    start.lemma_edited_by(agent, x, x.len() as int, first);
    next.lemma_edited_by(agent, y, y.len() as int, first + m);
    all.lemma_edited_by(agent, x + y, (x + y).len() as int, first);
    assert(twice.frontier == once.frontier);
    assert(twice.clients == once.clients);
    assert(twice.client_with_order == once.client_with_order);
    assert(twice.txns == once.txns);
}

} // verus!
