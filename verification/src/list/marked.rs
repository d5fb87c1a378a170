//! How the index goes on with a transaction.

use crate::list::doc::ListCRDT;
use crate::list::external_txn::{RemoteOp, RemoteTxn};
use crate::list::model::{ops_len, remote_op_len, remote_ops_len, DocState, Edit};
use vstd::prelude::*;

verus! {

/// A local edit was marked in the index, by way of a document in which what it deletes was
/// deleted and nothing was inserted yet.
pub open spec fn edit_marked_via(
    before: ListCRDT,
    mid: ListCRDT,
    after: ListCRDT,
    op: Edit,
    order: int,
) -> bool {
    &&& mid.tree_ok(order + op.del_span)
    &&& if op.del_span > 0 {
        &&& mid@.entries == before@.locally_deleted(
            op.pos as int,
            op.del_span as int,
            order,
        ).entries
        &&& mid.has_deletion_marked(before, op.del_span as int)
    } else {
        &&& mid.range_tree == before.range_tree
        &&& mid.index == before.index
    }
    &&& if op.ins_len > 0 {
        after.has_insertion_marked(mid, op.ins_len as int)
    } else {
        &&& after.range_tree == mid.range_tree
        &&& after.index == mid.index
    }
}

/// A local edit, by the operations from `order` on, was marked in the index.
pub open spec fn edit_marked(before: ListCRDT, after: ListCRDT, op: Edit, order: int) -> bool {
    exists|mid: ListCRDT| edit_marked_via(before, mid, after, op, order)
}

/// A step of a remote transaction was marked in the index.
pub open spec fn step_marked(before: ListCRDT, after: ListCRDT, op: RemoteOp) -> bool {
    match op {
        RemoteOp::Ins { .. } => after.has_insertion_marked(before, remote_op_len(op)),
        RemoteOp::Del { .. } => after.has_deletion_marked(before, remote_op_len(op)),
    }
}

/// The documents before and after each of the first local edits: each of these edits was
/// marked in the index.
#[verifier::opaque]
pub open spec fn edit_stages(
    stages: Seq<ListCRDT>,
    start: DocState,
    agent: int,
    ops: Seq<Edit>,
    order: int,
) -> bool {
    &&& 1 <= stages.len() <= ops.len() + 1
    &&& forall|k: int|
        0 <= k < stages.len() ==> (#[trigger] stages[k]).tree_ok(order + ops_len(ops, k))
            && stages[k]@.entries == start.edited_by(agent, ops, k, order).entries
    &&& forall|k: int|
        0 <= k < stages.len() - 1 ==> edit_marked(
            stages[k],
            stages[k + 1],
            #[trigger] ops[k],
            order + ops_len(ops, k),
        )
}

/// The documents before and after each of the first steps of a remote transaction: each of
/// these steps was marked in the index.
#[verifier::opaque]
pub open spec fn step_stages(
    stages: Seq<ListCRDT>,
    start: DocState,
    agent: int,
    ops: Seq<RemoteOp>,
    order: int,
) -> bool {
    &&& 1 <= stages.len() <= ops.len() + 1
    &&& forall|k: int|
        0 <= k < stages.len() ==> (#[trigger] stages[k]).tree_ok(order + remote_ops_len(ops, k))
            && stages[k]@.entries == start.changed_by(agent, ops, k, order).entries
    &&& forall|k: int|
        0 <= k < stages.len() - 1 ==> step_marked(stages[k], stages[k + 1], #[trigger] ops[k])
}

/// The index and the items go from those of one document to those of another.
pub open spec fn leads(stages: Seq<ListCRDT>, before: ListCRDT, after: ListCRDT) -> bool {
    &&& stages[0].index == before.index
    &&& stages[0].range_tree == before.range_tree
    &&& stages.last().index == after.index
    &&& stages.last().range_tree == after.range_tree
}

/// The index went on with a local transaction, edit by edit: operations that delete items are
/// marked with the leaf that the operation before them is marked with then, those that insert
/// items with the leaf of their item, and whatever is no item keeps its mark.
pub open spec fn local_txn_marked(
    before: ListCRDT,
    after: ListCRDT,
    agent: int,
    ops: Seq<Edit>,
) -> bool {
    let first = before@.next_order();
    let len = ops_len(ops, ops.len() as int);
    let start = before@.assigned(agent, before@.next_seq(agent), first, len);
    exists|stages: Seq<ListCRDT>|
        {
            &&& #[trigger] edit_stages(stages, start, agent, ops, first)
            &&& stages.len() == ops.len() + 1
            &&& leads(stages, before, after)
        }
}

/// The index went on with a remote transaction, step by step, as it does with a local one.
pub open spec fn remote_txn_marked(before: ListCRDT, after: ListCRDT, txn: RemoteTxn) -> bool {
    exists|stages: Seq<ListCRDT>|
        {
            &&& #[trigger] step_stages(
                stages,
                before@.before_remote_ops(txn),
                before@.remote_agent(txn),
                txn.ops@,
                before@.next_order(),
            )
            &&& stages.len() == txn.ops@.len() + 1
            &&& leads(stages, before, after)
        }
}

/// Before the first edit nothing was marked.
pub proof fn lemma_no_edit_stage(doc: ListCRDT, agent: int, ops: Seq<Edit>, order: int)
    requires
        doc.tree_ok(order),
    ensures
        edit_stages(seq![doc], doc@, agent, ops, order),
{
    reveal(edit_stages);
    assert(doc@.edited_by(agent, ops, 0, order) == doc@);
}

/// Before the first step nothing was marked.
pub proof fn lemma_no_step_stage(doc: ListCRDT, agent: int, ops: Seq<RemoteOp>, order: int)
    requires
        doc.tree_ok(order),
    ensures
        step_stages(seq![doc], doc@, agent, ops, order),
{
    reveal(step_stages);
    assert(doc@.changed_by(agent, ops, 0, order) == doc@);
}

/// One more edit was marked.
pub proof fn lemma_edit_stage(
    stages: Seq<ListCRDT>,
    mid: ListCRDT,
    next: ListCRDT,
    start: DocState,
    agent: int,
    ops: Seq<Edit>,
    order: int,
)
    requires
        edit_stages(stages, start, agent, ops, order),
        stages.len() <= ops.len(),
        ({
            let k = stages.len() - 1;
            &&& edit_marked_via(stages[k], mid, next, ops[k], order + ops_len(ops, k))
            &&& next.tree_ok(order + ops_len(ops, k + 1))
            &&& next@.entries == start.edited_by(agent, ops, k + 1, order).entries
        }),
    ensures
        edit_stages(stages.push(next), start, agent, ops, order),
{
    reveal(edit_stages);
    let now = stages.push(next);
    assert forall|k: int| 0 <= k < now.len() implies (#[trigger] now[k]).tree_ok(
        order + ops_len(ops, k),
    ) && now[k]@.entries == start.edited_by(agent, ops, k, order).entries by {
        if k < stages.len() {
            assert(now[k] == stages[k]);
        }
    }
    assert forall|k: int| 0 <= k < now.len() - 1 implies edit_marked(
        now[k],
        now[k + 1],
        #[trigger] ops[k],
        order + ops_len(ops, k),
    ) by {
        assert(now[k] == stages[k]);
        if k + 1 < stages.len() {
            assert(now[k + 1] == stages[k + 1]);
        }
    }
}

/// One more step was marked.
pub proof fn lemma_step_stage(
    stages: Seq<ListCRDT>,
    next: ListCRDT,
    start: DocState,
    agent: int,
    ops: Seq<RemoteOp>,
    order: int,
)
    requires
        step_stages(stages, start, agent, ops, order),
        stages.len() <= ops.len(),
        ({
            let k = stages.len() - 1;
            &&& step_marked(stages[k], next, ops[k])
            &&& next.tree_ok(order + remote_ops_len(ops, k + 1))
            &&& next@.entries == start.changed_by(agent, ops, k + 1, order).entries
        }),
    ensures
        step_stages(stages.push(next), start, agent, ops, order),
{
    reveal(step_stages);
    let now = stages.push(next);
    assert forall|k: int| 0 <= k < now.len() implies (#[trigger] now[k]).tree_ok(
        order + remote_ops_len(ops, k),
    ) && now[k]@.entries == start.changed_by(agent, ops, k, order).entries by {
        if k < stages.len() {
            assert(now[k] == stages[k]);
        }
    }
    assert forall|k: int| 0 <= k < now.len() - 1 implies step_marked(
        now[k],
        now[k + 1],
        #[trigger] ops[k],
    ) by {
        assert(now[k] == stages[k]);
        if k + 1 < stages.len() {
            assert(now[k + 1] == stages[k + 1]);
        }
    }
}

/// Where all edits of a local transaction were marked, the transaction was.
pub proof fn lemma_local_txn_marked(
    stages: Seq<ListCRDT>,
    before: ListCRDT,
    after: ListCRDT,
    start: DocState,
    agent: int,
    ops: Seq<Edit>,
)
    requires
        start == before@.assigned(
            agent,
            before@.next_seq(agent),
            before@.next_order(),
            ops_len(ops, ops.len() as int),
        ),
        edit_stages(stages, start, agent, ops, before@.next_order()),
        stages.len() == ops.len() + 1,
        leads(stages, before, after),
    ensures
        local_txn_marked(before, after, agent, ops),
{
}

/// Where all steps of a remote transaction were marked, the transaction was.
pub proof fn lemma_remote_txn_marked(
    stages: Seq<ListCRDT>,
    before: ListCRDT,
    after: ListCRDT,
    txn: RemoteTxn,
)
    requires
        step_stages(
            stages,
            before@.before_remote_ops(txn),
            before@.remote_agent(txn),
            txn.ops@,
            before@.next_order(),
        ),
        stages.len() == txn.ops@.len() + 1,
        leads(stages, before, after),
    ensures
        remote_txn_marked(before, after, txn),
{
}

/// The index after a transaction of one edit that only deletes or only inserts.
pub proof fn lemma_one_edit_marked(before: ListCRDT, after: ListCRDT, agent: int, op: Edit)
    requires
        local_txn_marked(before, after, agent, seq![op]),
    ensures
        op.ins_len == 0 && op.del_span > 0 ==> after.has_deletion_marked(
            before,
            op.del_span as int,
        ),
        op.del_span == 0 && op.ins_len > 0 ==> after.has_insertion_marked(
            before,
            op.ins_len as int,
        ),
        op.del_span == 0 && op.ins_len == 0 ==> after.index == before.index,
{
    reveal(edit_stages);
    let ops = seq![op];
    let first = before@.next_order();
    let len = ops_len(ops, ops.len() as int);
    let start = before@.assigned(agent, before@.next_seq(agent), first, len);
    let stages = choose|stages: Seq<ListCRDT>|
        {
            &&& #[trigger] edit_stages(stages, start, agent, ops, first)
            &&& stages.len() == ops.len() + 1
            &&& leads(stages, before, after)
        };
    assert(ops[0] == op);
    assert(edit_marked(stages[0], stages[1], op, first + ops_len(ops, 0)));
}

} // verus!
