//! What a peer makes of the transactions that another one made.

use crate::list::branch::{lemma_outside, outside};
use crate::list::content::lemma_content_deactivated;
use crate::list::deleted_runs::{are_deletions, are_runs, lemma_deletions_repeat, runs_of};
use crate::list::external_txn::{RemoteOp, RemoteTxn};
use crate::list::keeps::{
    law_local_txn_keeps_sound, law_remote_txn_keeps_sound, lemma_locally_deleted_ok,
};
use crate::list::laws::{
    law_agents_stay, law_local_insert_place, law_local_txn_numbers, lemma_content_place_of,
    lemma_edited_by, lemma_ops_len_nonneg,
};
use crate::list::model::{
    agent_of, content_len, content_place, is_before_item, local_op_ok, op_len, ops_len, place_after,
    remote_op_inserted, remote_op_len, remote_ops_len, DocState, Edit,
};
use crate::list::text::{orders, visible};
use crate::list::valid::{lemma_held, lemma_place_unique, lemma_with_agent};
use crate::range_tree::runs::{chain, entry_ok};
use vstd::prelude::*;

verus! {

/// A row without what is in it is empty.
proof fn lemma_outside_itself(orders: Seq<u32>, other: Seq<u32>)
    requires
        forall|i: int| 0 <= i < orders.len() ==> other.contains(#[trigger] orders[i]),
    ensures
        outside(orders, other) == Seq::<u32>::empty(),
{
    if outside(orders, other).len() > 0 {
        lemma_outside(orders, other, 0);
        let x = outside(orders, other)[0];
        let i = choose|i: int| 0 <= i < orders.len() && orders[i] == x;
        assert(other.contains(orders[i]));
    }
    assert(outside(orders, other) =~= Seq::empty());
}

/// A transaction on top of all that the document has is on top of the document.
proof fn lemma_txn_on_frontier(doc: DocState, parents: Seq<u32>, first: int, len: int)
    requires
        parents == doc.frontier,
    ensures
        doc.with_txn(Some(parents), first, len) == doc.with_txn(None, first, len),
{
    lemma_outside_itself(doc.frontier, parents);
    let last = (first + len - 1) as u32;
    assert(Seq::<u32>::empty().push(last) =~= seq![last]);
}

/// The transaction is by a known client, is its next one, and is on top of all that the
/// document has.
pub open spec fn is_next_txn(doc: DocState, agent: int, txn: RemoteTxn) -> bool {
    let start = doc.before_remote_ops(txn);
    &&& agent_of(doc.clients, txn.id.agent@) == Some(agent)
    &&& 0 <= agent < doc.clients.len()
    &&& txn.id.seq == doc.next_seq(agent)
    &&& start.all_resolved(txn.parents@) == doc.frontier
    &&& forall|i: int|
        0 <= i < txn.parents@.len() ==> start.resolved(
            (#[trigger] txn.parents@[i]).agent@,
            txn.parents@[i].seq as int,
        ) is Some
}

/// Steps of a remote transaction say what a local edit does: first one step for each run of
/// the visible items that it deletes, then, where it inserts, one that names the items that
/// the new ones are put between.
pub open spec fn says_edit(doc: DocState, ops: Seq<RemoteOp>, edit: Edit, order: int) -> bool {
    let pos = edit.pos as int;
    let del = edit.del_span as int;
    let m = if edit.ins_len > 0 {
        ops.len() - 1
    } else {
        ops.len() as int
    };
    let deleted = if del > 0 {
        doc.locally_deleted(pos, del, order)
    } else {
        doc
    };
    &&& are_deletions(doc, ops, m)
    &&& if del > 0 {
        are_runs(runs_of(doc, ops, m), visible(doc.entries).subrange(pos, pos + del))
    } else {
        m == 0
    }
    &&& edit.ins_len > 0 ==> says_insertion(deleted, ops[m], edit, order + del)
}

/// A step of a remote transaction says what items a local edit puts between which others.
pub open spec fn says_insertion(doc: DocState, op: RemoteOp, edit: Edit, order: int) -> bool {
    let item = doc.local_item(edit.pos as int, edit.ins_len as int, order);
    match op {
        RemoteOp::Ins { origin_left, origin_right, ins_content } => {
            &&& ins_content@.len() == edit.ins_len
            &&& doc.resolved(origin_left.agent@, origin_left.seq as int) == Some(
                item.origin_left as int,
            )
            &&& doc.resolved(origin_right.agent@, origin_right.seq as int) == Some(
                item.origin_right as int,
            )
        },
        RemoteOp::Del { id, len } => false,
    }
}

/// A remote step that says what a local insertion does, does that.
proof fn lemma_insertion_repeats(doc: DocState, agent: int, op: RemoteOp, edit: Edit, order: int)
    requires
        doc.content_ok(order),
        0 <= order,
        edit.ins_len > 0,
        edit.pos <= content_len(doc.entries),
        says_insertion(doc, op, edit, order),
    ensures
        doc.changed(agent, op, order) == doc.locally_inserted(
            agent,
            edit.pos as int,
            edit.ins_len as int,
            order,
        ),
        doc.remote_op_ok(op),
        remote_op_len(op) == edit.ins_len,
        remote_op_inserted(op) == edit.ins_len,
{
    let pos = edit.pos as int;
    let item = doc.local_item(pos, edit.ins_len as int, order);
    law_local_insert_place(doc, agent, pos, edit.ins_len as int, order);
    if pos > 0 {
        lemma_content_place_of(doc.entries, pos - 1);
        let p = content_place(doc.entries, pos - 1);
        assert(entry_ok(doc.entries[p.entry]));
        let x = doc.entries[p.entry].order + p.offset;
        lemma_held(doc.entries, p.entry, x);
        assert(is_before_item(doc.entries, p, x));
        lemma_place_unique(doc.entries, p, x);
        assert(item.origin_left == x);
    }
    assert(place_after(doc.entries, item.origin_left as int) == doc.insert_place(pos));
}

/// Remote steps that say what a local edit does, do what that edit does.
proof fn lemma_part_repeats(
    doc: DocState,
    agent: int,
    ops: Seq<RemoteOp>,
    edit: Edit,
    order: int,
)
    requires
        doc.content_ok(order),
        0 <= order,
        order + op_len(edit) <= u32::MAX,
        op_len(edit) > 0 ==> edit.pos + edit.del_span <= content_len(doc.entries),
        edit.ins_len <= i32::MAX,
        says_edit(doc, ops, edit, order),
    ensures
        doc.changed_by(agent, ops, ops.len() as int, order) == doc.edited(agent, edit, order),
        remote_ops_len(ops, ops.len() as int) == op_len(edit),
        forall|j: int|
            0 <= j < ops.len() ==> (#[trigger] doc.changed_by(agent, ops, j, order)).remote_op_ok(
                ops[j],
            ),
        forall|j: int| 0 <= j < ops.len() ==> remote_op_inserted(#[trigger] ops[j]) <= i32::MAX,
{
    let n = ops.len() as int;
    let pos = edit.pos as int;
    let del = edit.del_span as int;
    let m = if edit.ins_len > 0 {
        n - 1
    } else {
        n
    };
    if del > 0 {
        lemma_deletions_repeat(doc, agent, ops, m, pos, del, order);
        lemma_locally_deleted_ok(doc, pos, del, order);
        lemma_content_place_of(doc.entries, pos);
        lemma_content_deactivated(doc.entries, content_place(doc.entries, pos), del);
    } else {
        assert(doc.changed_by(agent, ops, 0, order) == doc);
        assert(remote_ops_len(ops, 0) == 0);
    }
    if edit.ins_len > 0 {
        let deleted = doc.changed_by(agent, ops, m, order);
        lemma_insertion_repeats(deleted, agent, ops[m], edit, order + del);
    }
    assert forall|j: int| 0 <= j < n implies (#[trigger] doc.changed_by(
        agent,
        ops,
        j,
        order,
    )).remote_op_ok(ops[j]) by {
        if j < m {
            assert(doc.changed_by(agent, ops, j, order).remote_op_ok(ops[j]));
        }
    }
    assert forall|j: int| 0 <= j < n implies remote_op_inserted(#[trigger] ops[j]) <= i32::MAX by {
        if j < m {
            assert(ops[j] is Del);
        }
    }
}

/// The first steps do not depend on those that follow.
proof fn lemma_changed_prefix(
    doc: DocState,
    agent: int,
    a: Seq<RemoteOp>,
    b: Seq<RemoteOp>,
    k: int,
    order: int,
)
    requires
        0 <= k <= a.len(),
    ensures
        doc.changed_by(agent, a + b, k, order) == doc.changed_by(agent, a, k, order),
        remote_ops_len(a + b, k) == remote_ops_len(a, k),
    decreases k,
{
    if k > 0 {
        lemma_changed_prefix(doc, agent, a, b, k - 1, order);
        assert((a + b)[k - 1] == a[k - 1]);
    }
}

/// Steps can be taken in two parts.
proof fn lemma_changed_concat(
    doc: DocState,
    agent: int,
    a: Seq<RemoteOp>,
    b: Seq<RemoteOp>,
    k: int,
    order: int,
)
    requires
        0 <= k <= b.len(),
    ensures
        doc.changed_by(agent, a + b, a.len() + k, order) == doc.changed_by(
            agent,
            a,
            a.len() as int,
            order,
        ).changed_by(agent, b, k, order + remote_ops_len(a, a.len() as int)),
        remote_ops_len(a + b, a.len() + k) == remote_ops_len(a, a.len() as int) + remote_ops_len(
            b,
            k,
        ),
    decreases k,
{
    lemma_changed_prefix(doc, agent, a, b, a.len() as int, order);
    if k > 0 {
        lemma_changed_concat(doc, agent, a, b, k - 1, order);
        assert((a + b)[a.len() + k - 1] == b[k - 1]);
    }
}

/// Parts of a transaction that say what local edits do, do what these edits do.
proof fn lemma_parts_repeat(
    doc: DocState,
    agent: int,
    parts: Seq<Seq<RemoteOp>>,
    edits: Seq<Edit>,
    k: int,
    order: int,
)
    requires
        doc.content_ok(order),
        0 <= order,
        0 <= k <= edits.len(),
        parts.len() == edits.len(),
        order + ops_len(edits, k) <= u32::MAX,
        forall|j: int| 0 <= j < k ==> (#[trigger] edits[j]).ins_len <= i32::MAX,
        forall|j: int| 0 <= j < k ==> #[trigger] local_op_ok(edits, j, content_len(doc.entries)),
        forall|j: int|
            0 <= j < k ==> says_edit(
                #[trigger] doc.edited_by(agent, edits, j, order),
                parts[j],
                edits[j],
                order + ops_len(edits, j),
            ),
    ensures
        ({
            let ops = chain(parts.take(k));
            let n = ops.len() as int;
            &&& doc.changed_by(agent, ops, n, order) == doc.edited_by(agent, edits, k, order)
            &&& remote_ops_len(ops, n) == ops_len(edits, k)
            &&& doc.remote_ops_ok(agent, ops, order)
            &&& forall|j: int| 0 <= j < n ==> remote_op_inserted(#[trigger] ops[j]) <= i32::MAX
        }),
    decreases k,
{
    let ops = chain(parts.take(k));
    if k == 0 {
        assert(parts.take(0) =~= Seq::empty());
        assert(ops =~= Seq::empty());
    } else {
        lemma_ops_len_nonneg(edits, k - 1);
        lemma_parts_repeat(doc, agent, parts, edits, k - 1, order);
        lemma_edited_by(doc, agent, edits, k - 1, order);
        let a = chain(parts.take(k - 1));
        let b = parts[k - 1];
        let before = doc.edited_by(agent, edits, k - 1, order);
        let at = order + ops_len(edits, k - 1);
        assert(parts.take(k).drop_last() =~= parts.take(k - 1));
        assert(parts.take(k).last() == b);
        assert(ops == a + b);
        assert(local_op_ok(edits, k - 1, content_len(doc.entries)));
        assert(edits[k - 1].ins_len <= i32::MAX);
        assert(says_edit(before, b, edits[k - 1], at));
        lemma_part_repeats(before, agent, b, edits[k - 1], at);
        lemma_changed_concat(doc, agent, a, b, b.len() as int, order);
        assert forall|j: int| 0 <= j < ops.len() implies (#[trigger] doc.changed_by(
            agent,
            ops,
            j,
            order,
        )).remote_op_ok(ops[j]) by {
            if j < a.len() {
                lemma_changed_prefix(doc, agent, a, b, j, order);
                assert(doc.changed_by(agent, a, j, order).remote_op_ok(a[j]));
            } else {
                let i = j - a.len();
                lemma_changed_concat(doc, agent, a, b, i, order);
                assert(before.changed_by(agent, b, i, at).remote_op_ok(b[i]));
            }
        }
        assert forall|j: int| 0 <= j < ops.len() implies remote_op_inserted(#[trigger] ops[j])
            <= i32::MAX by {
            if j < a.len() {
                assert(ops[j] == a[j]);
            } else {
                assert(ops[j] == b[j - a.len()]);
            }
        }
    }
}

/// A remote transaction says what a local one does: it is the next one of the same peer, is
/// on top of all that the document has, and says, edit by edit, what the local one does.
pub open spec fn says_txn(
    doc: DocState,
    agent: int,
    edits: Seq<Edit>,
    parts: Seq<Seq<RemoteOp>>,
    txn: RemoteTxn,
) -> bool {
    let first = doc.next_order();
    let len = ops_len(edits, edits.len() as int);
    let start = doc.assigned(agent, doc.next_seq(agent), first, len);
    &&& is_next_txn(doc, agent, txn)
    &&& parts.len() == edits.len()
    &&& txn.ops@ == chain(parts)
    &&& forall|k: int|
        0 <= k < edits.len() ==> says_edit(
            #[trigger] start.edited_by(agent, edits, k, first),
            parts[k],
            edits[k],
            first + ops_len(edits, k),
        )
}

/// A peer that receives a transaction that another peer made in the same document gets to
/// the document that the other peer has.
pub proof fn law_remote_repeats_local(
    doc: DocState,
    agent: int,
    edits: Seq<Edit>,
    parts: Seq<Seq<RemoteOp>>,
    txn: RemoteTxn,
)
    requires
        doc.ok(),
        doc.local_ops_ok(edits),
        says_txn(doc, agent, edits, parts, txn),
        !doc.frontier.contains(doc.next_order() as u32),
    ensures
        doc.remote_txn_ok(txn),
        doc.after_remote_txn(txn) == doc.after_local_txn(agent, edits),
{
    let ops = txn.ops@;
    let n = edits.len() as int;
    let first = doc.next_order();
    let len = ops_len(edits, n);
    let start = doc.assigned(agent, doc.next_seq(agent), first, len);
    assert(parts.take(n) =~= parts);
    lemma_parts_repeat(start, agent, parts, edits, n, first);
    assert(start == doc.before_remote_ops(txn));
    let changed = start.changed_by(agent, ops, ops.len() as int, first);
    start.lemma_changed_by(agent, ops, ops.len() as int, first);
    assert(changed.all_resolved(txn.parents@) =~= start.all_resolved(txn.parents@));
    lemma_txn_on_frontier(changed, changed.all_resolved(txn.parents@), first, len);
}

/// The document after the first `k` of some local transactions of one peer.
pub open spec fn local_history(
    doc: DocState,
    agent: int,
    locals: Seq<Seq<Edit>>,
    k: int,
) -> DocState
    decreases k,
{
    if k <= 0 {
        doc
    } else {
        local_history(doc, agent, locals, k - 1).after_local_txn(agent, locals[k - 1])
    }
}

/// The document after the first `k` of some remote transactions.
pub open spec fn remote_history(doc: DocState, txns: Seq<RemoteTxn>, k: int) -> DocState
    decreases k,
{
    if k <= 0 {
        doc
    } else {
        remote_history(doc, txns, k - 1).after_remote_txn(txns[k - 1])
    }
}

/// The local transactions can be made one after the other.
pub open spec fn local_history_ok(doc: DocState, agent: int, locals: Seq<Seq<Edit>>) -> bool {
    forall|k: int|
        0 <= k < locals.len() ==> {
            let before = #[trigger] local_history(doc, agent, locals, k);
            &&& before.local_ops_ok(locals[k])
            &&& !before.frontier.contains(before.next_order() as u32)
        }
}

/// A peer that receives, one after the other, the transactions that another peer made in a
/// document has the document of that peer after each of them: the same text, the same
/// deletions, the same history. The peer that made them was known in its document from the
/// start; the one that receives them may not have known it.
pub proof fn law_replica_follows(
    doc: DocState,
    name: Seq<char>,
    locals: Seq<Seq<Edit>>,
    parts: Seq<Seq<Seq<RemoteOp>>>,
    txns: Seq<RemoteTxn>,
    k: int,
)
    requires
        doc.ok(),
        name != "ROOT"@,
        agent_of(doc.clients, name) is None ==> doc.clients.len() < 0xffff,
        ({
            let known = doc.with_agent(name);
            let agent = agent_of(known.clients, name)->0;
            &&& local_history_ok(known, agent, locals)
            &&& parts.len() == locals.len()
            &&& txns.len() == locals.len()
            &&& forall|j: int|
                0 <= j < locals.len() ==> (#[trigger] txns[j]).id.agent@ == name && says_txn(
                    local_history(known, agent, locals, j),
                    agent,
                    locals[j],
                    parts[j],
                    txns[j],
                )
        }),
        0 <= k <= locals.len(),
    ensures
        ({
            let known = doc.with_agent(name);
            let agent = agent_of(known.clients, name)->0;
            &&& k > 0 ==> remote_history(doc, txns, k) == local_history(known, agent, locals, k)
            &&& remote_history(doc, txns, k).ok()
            &&& k < locals.len() ==> remote_history(doc, txns, k).remote_txn_ok(txns[k])
        }),
    decreases k,
{
    let known = doc.with_agent(name);
    let agent = agent_of(known.clients, name)->0;
    lemma_with_agent(doc, name);
    if k > 0 {
        law_replica_follows(doc, name, locals, parts, txns, k - 1);
        let was = local_history(known, agent, locals, k - 1);
        lemma_local_history_ok(known, agent, locals, k - 1);
        assert(was.local_ops_ok(locals[k - 1]));
        assert(txns[k - 1].id.agent@ == name);
        assert(says_txn(was, agent, locals[k - 1], parts[k - 1], txns[k - 1]));
        law_remote_repeats_local(was, agent, locals[k - 1], parts[k - 1], txns[k - 1]);
        law_remote_txn_keeps_sound(remote_history(doc, txns, k - 1), txns[k - 1]);
        if k == 1 {
            lemma_made_known(doc, txns[0]);
        }
    }
    if k < locals.len() {
        let now = local_history(known, agent, locals, k);
        lemma_local_history_ok(known, agent, locals, k);
        assert(now.local_ops_ok(locals[k]));
        assert(txns[k].id.agent@ == name);
        assert(says_txn(now, agent, locals[k], parts[k], txns[k]));
        law_remote_repeats_local(now, agent, locals[k], parts[k], txns[k]);
        if k == 0 {
            lemma_made_known(doc, txns[0]);
        }
    }
}

/// A transaction of a peer makes the peer known.
proof fn lemma_made_known(doc: DocState, txn: RemoteTxn)
    requires
        doc.ok(),
        agent_of(doc.clients, txn.id.agent@) is None ==> doc.clients.len() < 0xffff,
    ensures
        doc.with_agent(txn.id.agent@).after_remote_txn(txn) == doc.after_remote_txn(txn),
        doc.with_agent(txn.id.agent@).remote_txn_ok(txn) ==> doc.remote_txn_ok(txn),
{
    law_agents_stay(doc, txn.id.agent@, txn.id.agent@);
}

/// Local transactions keep a document sound.
proof fn lemma_local_history_ok(doc: DocState, agent: int, locals: Seq<Seq<Edit>>, k: int)
    requires
        doc.clients_ok(),
        doc.ok(),
        0 <= agent < doc.clients.len(),
        local_history_ok(doc, agent, locals),
        0 <= k <= locals.len(),
    ensures
        local_history(doc, agent, locals, k).ok(),
        local_history(doc, agent, locals, k).clients.len() == doc.clients.len(),
    decreases k,
{
    if k > 0 {
        lemma_local_history_ok(doc, agent, locals, k - 1);
        let was = local_history(doc, agent, locals, k - 1);
        assert(was.local_ops_ok(locals[k - 1]));
        law_local_txn_keeps_sound(was, agent, locals[k - 1]);
        law_local_txn_numbers(was, agent, locals[k - 1]);
    }
}

} // verus!
