//! What a document is, and what each operation makes of it.

use crate::common::{AgentId, CRDTLocation, LocalOp};
use crate::list::ROOT_ORDER;
use crate::list::branch::outside;
use crate::list::delete::DeleteEntry;
use crate::list::external_txn::{RemoteId, RemoteOp, RemoteTxn};
use crate::list::names::name_behind;
use crate::list::order_span::OrderSpan;
use crate::list::span::YjsSpan;
use crate::range_tree::cursor::Place;
use crate::range_tree::deactivate::{deactivated_from, gathered, run_deactivated, run_taken};
use crate::range_tree::entry::{CRDTSpan, EntryTraits};
use crate::range_tree::homes::holds;
use crate::range_tree::mutations::inserted;
use crate::range_tree::query::is_place_of;
use crate::range_tree::runs::{content_num, items_len, measure};
use crate::rle::KVPair;
use crate::rle::simple_rle::{covered, index_of_key, item_of_key, rle_end, rle_push, rle_sorted};
use crate::splitable_span::MergableSpan;
use vstd::prelude::*;

verus! {

/// A peer: its name, and the document's order of each of its operations.
pub struct ClientState {
    pub name: Seq<char>,
    pub item_orders: Seq<KVPair<OrderSpan>>,
}

/// A local edit: deletes `del_span` visible items at `pos`, then inserts `ins_len` items
/// there.
pub struct Edit {
    pub pos: nat,
    pub ins_len: nat,
    pub del_span: nat,
}

/// A run of transactions.
pub struct TxnState {
    pub order: u32,
    pub len: u32,
    pub shadow: u32,
    pub parents: Seq<u32>,
}

/// A document.
pub struct DocState {
    pub clients: Seq<ClientState>,
    /// Whose operation each order is.
    pub client_with_order: Seq<KVPair<CRDTSpan>>,
    /// The items of the document, visible and deleted ones, in their order in the text.
    pub entries: Seq<YjsSpan>,
    pub frontier: Seq<u32>,
    /// Which item each deleting operation deleted.
    pub deletes: Seq<KVPair<DeleteEntry>>,
    /// How often each item was deleted after it had been deleted once.
    pub double_deletes: spec_fn(int) -> int,
    pub txns: Seq<TxnState>,
    pub text: Seq<char>,
}

/// The first client of a name, from the client `i` on.
pub open spec fn client_from(clients: Seq<ClientState>, name: Seq<char>, i: int) -> Option<int>
    decreases clients.len() - i,
{
    if i >= clients.len() {
        None
    } else if clients[i].name == name {
        Some(i)
    } else {
        client_from(clients, name, i + 1)
    }
}

/// The agent of a name.
pub open spec fn agent_of(clients: Seq<ClientState>, name: Seq<char>) -> Option<int> {
    if name == "ROOT"@ {
        Some(AgentId::MAX as int)
    } else {
        client_from(clients, name, 0)
    }
}

/// The order of a client's operation.
pub open spec fn order_of_seq(item_orders: Seq<KVPair<OrderSpan>>, seq: int) -> int {
    let entry = item_orders[index_of_key(item_orders, seq)];
    entry.1.order + (seq - entry.0)
}

impl View for LocalOp {
    type V = Edit;

    open spec fn view(&self) -> Edit {
        Edit {
            pos: self.pos as nat,
            ins_len: self.ins_content@.len(),
            del_span: self.del_span as nat,
        }
    }
}

/// The edit that only inserts.
pub open spec fn insertion(pos: nat, ins_len: nat) -> Seq<Edit> {
    seq![Edit { pos, ins_len, del_span: 0 }]
}

/// The edit that only deletes.
pub open spec fn deletion(pos: nat, del_span: nat) -> Seq<Edit> {
    seq![Edit { pos, ins_len: 0, del_span }]
}

/// Local edits, one after the other.
pub open spec fn edits(ops: Seq<LocalOp>) -> Seq<Edit> {
    Seq::new(ops.len(), |i: int| ops[i]@)
}

/// What one local edit adds to the history.
pub open spec fn op_len(op: Edit) -> int {
    (op.del_span + op.ins_len) as int
}

/// What the first `k` local edits add to the history.
pub open spec fn ops_len(ops: Seq<Edit>, k: int) -> int
    decreases k,
{
    if k <= 0 {
        0
    } else {
        ops_len(ops, k - 1) + op_len(ops[k - 1])
    }
}

/// How many items are visible after the first `k` local edits, of `len` before them.
pub open spec fn visible_after(len: int, ops: Seq<Edit>, k: int) -> int
    decreases k,
{
    if k <= 0 {
        len
    } else {
        visible_after(len, ops, k - 1) - ops[k - 1].del_span + ops[k - 1].ins_len
    }
}

/// The local edit `k` is within the text, of which `len` items were visible before the
/// first edit.
pub open spec fn local_op_ok(ops: Seq<Edit>, k: int, len: int) -> bool {
    op_len(ops[k]) > 0 ==> ops[k].pos + ops[k].del_span <= visible_after(len, ops, k)
}

/// What one step of a remote transaction adds to the history.
pub open spec fn remote_op_len(op: RemoteOp) -> int {
    match op {
        RemoteOp::Ins { origin_left, origin_right, ins_content } => ins_content@.len() as int,
        RemoteOp::Del { id, len } => len as int,
    }
}

/// What the first `k` steps of a remote transaction add to the history.
pub open spec fn remote_ops_len(ops: Seq<RemoteOp>, k: int) -> int
    decreases k,
{
    if k <= 0 {
        0
    } else {
        remote_ops_len(ops, k - 1) + remote_op_len(ops[k - 1])
    }
}

/// How many items one step of a remote transaction inserts.
pub open spec fn remote_op_inserted(op: RemoteOp) -> int {
    match op {
        RemoteOp::Ins { origin_left, origin_right, ins_content } => ins_content@.len() as int,
        RemoteOp::Del { id, len } => 0,
    }
}

/// The place right before an item.
pub open spec fn is_before_item(entries: Seq<YjsSpan>, p: Place, order: int) -> bool {
    &&& 0 <= p.entry < entries.len()
    &&& 0 <= p.offset < entries[p.entry].span_len()
    &&& entries[p.entry].order + p.offset == order
}

/// The place right before an item.
pub open spec fn place_before(entries: Seq<YjsSpan>, order: int) -> Place {
    choose|p: Place| is_before_item(entries, p, order)
}

/// The place right behind an item; for the root, the start of the document.
pub open spec fn place_after(entries: Seq<YjsSpan>, order: int) -> Place {
    if order == ROOT_ORDER {
        Place { entry: 0, offset: 0 }
    } else {
        let p = place_before(entries, order);
        Place { entry: p.entry, offset: p.offset + 1 }
    }
}

/// The place that has `pos` visible items before it, and a visible item behind it.
pub open spec fn content_place(entries: Seq<YjsSpan>, pos: int) -> Place {
    choose|p: Place| is_place_of(p, entries, content_num(), pos, false)
}

/// How many items are visible.
pub open spec fn content_len(entries: Seq<YjsSpan>) -> int {
    measure(entries, content_num())
}

/// The document holds an item.
pub open spec fn item_held(entries: Seq<YjsSpan>, x: int) -> bool {
    0 <= x < ROOT_ORDER && holds(entries, x as u32)
}

/// The document holds consecutive items.
pub open spec fn items_held(entries: Seq<YjsSpan>, target: int, len: int) -> bool {
    forall|x: int| target <= x < target + len ==> #[trigger] item_held(entries, x)
}

/// The deleted spans, logged one after the other from the operation `order` on.
pub open spec fn deletes_logged(
    deletes: Seq<KVPair<DeleteEntry>>,
    spans: Seq<YjsSpan>,
    order: int,
) -> Seq<KVPair<DeleteEntry>>
    decreases spans.len(),
{
    if spans.len() == 0 {
        deletes
    } else {
        let before = spans.drop_last();
        rle_push(
            deletes_logged(deletes, before, order),
            KVPair(
                (order + items_len(before)) as u32,
                DeleteEntry { order: spans.last().order, len: spans.last().span_len() as u32 },
            ),
        )
    }
}

/// The item that an operation deleted.
pub open spec fn deleted_item(deletes: Seq<KVPair<DeleteEntry>>, op: int) -> int {
    let entry = deletes[index_of_key(deletes, op)];
    entry.1.order + (op - entry.0)
}

/// Some operation deleted the item.
pub open spec fn is_deleted(deletes: Seq<KVPair<DeleteEntry>>, x: int) -> bool {
    exists|op: int| #[trigger] covered(deletes, op) && deleted_item(deletes, op) == x
}

/// The log says in addition that the operations from `order` on deleted the items of a row,
/// one each.
pub open spec fn logs(
    deletes: Seq<KVPair<DeleteEntry>>,
    log: Seq<KVPair<DeleteEntry>>,
    row: Seq<u32>,
    order: int,
) -> bool {
    &&& rle_sorted(log)
    &&& rle_end(log) <= order + row.len()
    &&& forall|x: int| #[trigger]
        covered(log, x) == (covered(deletes, x) || order <= x < order + row.len())
    &&& forall|x: int| #[trigger]
        covered(deletes, x) ==> deleted_item(log, x) == deleted_item(deletes, x)
    &&& forall|j: int| 0 <= j < row.len() ==> deleted_item(log, order + j) == #[trigger] row[j]
}

/// The run of transactions with another one added, as part of the last one where it is on
/// top of that one alone.
pub open spec fn txn_appends(last: TxnState, txn: TxnState) -> bool {
    &&& txn.order == last.order + last.len
    &&& txn.parents.len() == 1
    &&& txn.parents[0] == last.order + last.len - 1
    &&& txn.shadow == last.shadow
}

pub open spec fn txn_pushed(txns: Seq<TxnState>, txn: TxnState) -> Seq<TxnState> {
    if txns.len() > 0 && txn_appends(txns.last(), txn) {
        txns.update(
            txns.len() - 1,
            TxnState { len: (txns.last().len + txn.len) as u32, ..txns.last() },
        )
    } else {
        txns.push(txn)
    }
}

/// An operation is in a run of transactions.
pub open spec fn txn_holds(txn: TxnState, order: int) -> bool {
    txn.order <= order < txn.order + txn.len
}

/// An operation is in some run of transactions.
pub open spec fn txn_known(txns: Seq<TxnState>, order: int) -> bool {
    exists|i: int| 0 <= i < txns.len() && #[trigger] txn_holds(txns[i], order)
}

/// The run of transactions that an operation is in.
pub open spec fn txn_of(txns: Seq<TxnState>, order: int) -> TxnState {
    txns[choose|i: int| 0 <= i < txns.len() && #[trigger] txn_holds(txns[i], order)]
}

/// The first of the operations that all came before an operation with these parents,
/// without a gap up to `shadow`.
pub open spec fn shadow_from(txns: Seq<TxnState>, parents: Seq<u32>, shadow: int) -> int
    decreases shadow,
{
    if shadow >= 1 && parents.contains((shadow - 1) as u32) {
        let next = txn_of(txns, shadow - 1).shadow as int;
        if 0 <= next < shadow {
            shadow_from(txns, parents, next)
        } else {
            next
        }
    } else {
        shadow
    }
}

impl DocState {
    /// The order of the next operation.
    pub open spec fn next_order(self) -> int {
        rle_end(self.client_with_order)
    }

    /// The number of a client's next operation.
    pub open spec fn next_seq(self, agent: int) -> int {
        rle_end(self.clients[agent].item_orders)
    }

    /// The agent of a name is known, or is added.
    pub open spec fn with_agent(self, name: Seq<char>) -> DocState {
        if agent_of(self.clients, name) is Some {
            self
        } else {
            DocState {
                clients: self.clients.push(ClientState { name, item_orders: Seq::empty() }),
                ..self
            }
        }
    }

    /// The order of an operation that a peer names, if it is known.
    pub open spec fn resolved(self, agent: Seq<char>, seq: int) -> Option<int> {
        if agent == "ROOT"@ {
            Some(ROOT_ORDER as int)
        } else {
            match client_from(self.clients, agent, 0) {
                Some(i) => if covered(self.clients[i].item_orders, seq) {
                    Some(order_of_seq(self.clients[i].item_orders, seq))
                } else {
                    None
                },
                None => None,
            }
        }
    }

    /// The next operations of the document are the next ones of a client.
    pub open spec fn assigned(self, agent: int, seq: int, order: int, len: int) -> DocState {
        let client = self.clients[agent];
        DocState {
            client_with_order: rle_push(
                self.client_with_order,
                KVPair(
                    order as u32,
                    CRDTSpan {
                        loc: CRDTLocation { agent: agent as u16, seq: seq as u32 },
                        len: len as u32,
                    },
                ),
            ),
            clients: self.clients.update(
                agent,
                ClientState {
                    name: client.name,
                    item_orders: rle_push(
                        client.item_orders,
                        KVPair(seq as u32, OrderSpan { order: order as u32, len: len as u32 }),
                    ),
                },
            ),
            ..self
        }
    }

    /// The name of the peer that an item is from.
    pub open spec fn author(self, order: int) -> Seq<char> {
        self.clients[item_of_key(self.client_with_order, order).agent as int].name
    }

    /// Where an item goes that was inserted at `left`: behind the concurrent items that
    /// come first. The search is at `at`; if it is `scanning`, the place may have been
    /// `scan_start`.
    pub open spec fn scan(
        self,
        name: Seq<char>,
        item: YjsSpan,
        left: Place,
        at: Place,
        scan_start: Place,
        scanning: bool,
    ) -> Place
        decreases self.entries.len() - at.entry, self.entries[at.entry].span_len() - at.offset,
    {
        let found = if scanning {
            scan_start
        } else {
            at
        };
        match at.item(self.entries) {
            None => found,
            Some(other) => {
                let entry = self.entries[at.entry];
                let next = at.next_entry(self.entries);
                let other_left = place_after(self.entries, entry.spec_origin_left_at(at.offset));
                if other == item.origin_right || !(0 <= at.entry < self.entries.len()) {
                    found
                } else if other_left.before(left) {
                    found
                } else if left.before(other_left) {
                    self.scan(name, item, left, next, scan_start, scanning)
                } else if name_behind(name, self.author(entry.order as int)) {
                    self.scan(name, item, left, next, scan_start, false)
                } else if item.origin_right == entry.origin_right {
                    found
                } else {
                    self.scan(name, item, left, next, at, true)
                }
            },
        }
    }

    /// The document with an item inserted that belongs at `left`, behind the concurrent
    /// items that come first.
    pub open spec fn integrated(self, agent: int, item: YjsSpan, left: Place) -> DocState {
        let at = self.scan(self.clients[agent].name, item, left, left, left, false);
        DocState { entries: inserted(self.entries, at, item), ..self }
    }

    /// The document with `len` visible items deleted at `pos`, by the operations from
    /// `order` on.
    pub open spec fn locally_deleted(self, pos: int, len: int, order: int) -> DocState {
        let d = deactivated_from(self.entries, content_place(self.entries, pos), len);
        DocState {
            entries: d.entries,
            deletes: deletes_logged(self.deletes, gathered(d.taken), order),
            ..self
        }
    }

    /// Where items go that are inserted behind `pos` visible items.
    pub open spec fn insert_place(self, pos: int) -> Place {
        if pos == 0 {
            Place { entry: 0, offset: 0 }
        } else {
            content_place(self.entries, pos - 1).next(self.entries)
        }
    }

    /// The items that are inserted behind `pos` visible items.
    pub open spec fn local_item(self, pos: int, len: int, order: int) -> YjsSpan {
        YjsSpan {
            order: order as u32,
            origin_left: if pos == 0 {
                ROOT_ORDER
            } else {
                content_place(self.entries, pos - 1).item(self.entries)->0
            },
            origin_right: match self.insert_place(pos).item(self.entries) {
                Some(right) => right,
                None => ROOT_ORDER,
            },
            len: len as i32,
        }
    }

    /// The document with `len` items inserted behind `pos` visible items, by the
    /// operations from `order` on.
    pub open spec fn locally_inserted(self, agent: int, pos: int, len: int, order: int) -> DocState {
        self.integrated(agent, self.local_item(pos, len, order), self.insert_place(pos))
    }

    /// The document after a local edit, by the operations from `order` on.
    pub open spec fn edited(self, agent: int, op: Edit, order: int) -> DocState {
        let deleted = if op.del_span > 0 {
            self.locally_deleted(op.pos as int, op.del_span as int, order)
        } else {
            self
        };
        if op.ins_len > 0 {
            deleted.locally_inserted(
                agent,
                op.pos as int,
                op.ins_len as int,
                order + op.del_span,
            )
        } else {
            deleted
        }
    }

    /// The document after the first `k` local edits, by the operations from `order` on.
    pub open spec fn edited_by(self, agent: int, ops: Seq<Edit>, k: int, order: int) -> DocState
        decreases k,
    {
        if k <= 0 {
            self
        } else {
            self.edited_by(agent, ops, k - 1, order).edited(
                agent,
                ops[k - 1],
                order + ops_len(ops, k - 1),
            )
        }
    }

    /// The history with a transaction on top of `parents`, or else of the whole document.
    pub open spec fn with_txn(self, parents: Option<Seq<u32>>, first: int, len: int) -> DocState {
        let last = (first + len - 1) as u32;
        let on = match parents {
            Some(orders) => orders,
            None => self.frontier,
        };
        DocState {
            frontier: match parents {
                Some(orders) => outside(self.frontier, orders).push(last),
                None => seq![last],
            },
            txns: txn_pushed(
                self.txns,
                TxnState {
                    order: first as u32,
                    len: len as u32,
                    shadow: shadow_from(self.txns, on, first) as u32,
                    parents: on,
                },
            ),
            ..self
        }
    }

    /// The document after a local transaction.
    pub open spec fn after_local_txn(self, agent: int, ops: Seq<Edit>) -> DocState {
        let first = self.next_order();
        let len = ops_len(ops, ops.len() as int);
        self.assigned(agent, self.next_seq(agent), first, len).edited_by(
            agent,
            ops,
            ops.len() as int,
            first,
        ).with_txn(None, first, len)
    }

    /// The local edits are within the text, the document stays within what the types can
    /// hold, and the history does not stay empty.
    pub open spec fn local_ops_ok(self, ops: Seq<Edit>) -> bool {
        let n = ops.len() as int;
        &&& forall|k: int|
            0 <= k < n ==> #[trigger] local_op_ok(ops, k, content_len(self.entries))
        &&& 1 <= self.next_order() + ops_len(ops, n) <= u32::MAX
        &&& forall|k: int| 0 <= k < n ==> (#[trigger] ops[k]).ins_len <= i32::MAX
    }

    /// The entries and the number of excess deletions after items were deleted from
    /// `target` on, whether they were visible or not.
    pub open spec fn run_deleted(self, target: int, len: int) -> DocState
        decreases len,
    {
        if len <= 0 {
            self
        } else {
            let p = place_before(self.entries, target);
            let n = run_taken(self.entries[p.entry], p.offset, len);
            if !(0 < n <= len) {
                self
            } else if self.entries[p.entry].active() {
                DocState { entries: run_deactivated(self.entries, p, n), ..self }.run_deleted(
                    target + n,
                    len - n,
                )
            } else {
                let excess = self.double_deletes;
                DocState {
                    double_deletes: |key: int|
                        excess(key) + if target <= key < target + n {
                            1int
                        } else {
                            0
                        },
                    ..self
                }.run_deleted(target + n, len - n)
            }
        }
    }

    /// The document after a step of a remote transaction, by the operations from `order`
    /// on.
    pub open spec fn changed(self, agent: int, op: RemoteOp, order: int) -> DocState {
        match op {
            RemoteOp::Ins { origin_left, origin_right, ins_content } => {
                let left = self.resolved(origin_left.agent@, origin_left.seq as int)->0;
                let right = self.resolved(origin_right.agent@, origin_right.seq as int)->0;
                let item = YjsSpan {
                    order: order as u32,
                    origin_left: left as u32,
                    origin_right: right as u32,
                    len: ins_content@.len() as i32,
                };
                self.integrated(agent, item, place_after(self.entries, left))
            },
            RemoteOp::Del { id, len } => {
                let target = self.resolved(id.agent@, id.seq as int)->0;
                DocState {
                    deletes: rle_push(
                        self.deletes,
                        KVPair(order as u32, DeleteEntry { order: target as u32, len }),
                    ),
                    ..self
                }.run_deleted(target, len as int)
            },
        }
    }

    /// The document after the first `k` steps of a remote transaction.
    pub open spec fn changed_by(self, agent: int, ops: Seq<RemoteOp>, k: int, order: int) -> DocState
        decreases k,
    {
        if k <= 0 {
            self
        } else {
            self.changed_by(agent, ops, k - 1, order).changed(
                agent,
                ops[k - 1],
                order + remote_ops_len(ops, k - 1),
            )
        }
    }

    /// What the document is before the first step of a remote transaction.
    pub open spec fn before_remote_ops(self, txn: RemoteTxn) -> DocState {
        let known = self.with_agent(txn.id.agent@);
        known.assigned(
            agent_of(known.clients, txn.id.agent@)->0,
            txn.id.seq as int,
            self.next_order(),
            remote_ops_len(txn.ops@, txn.ops@.len() as int),
        )
    }

    /// The agent of a remote transaction.
    pub open spec fn remote_agent(self, txn: RemoteTxn) -> int {
        agent_of(self.with_agent(txn.id.agent@).clients, txn.id.agent@)->0
    }

    /// The orders of operations that a peer names.
    pub open spec fn all_resolved(self, ids: Seq<RemoteId>) -> Seq<u32> {
        Seq::new(
            ids.len(),
            |i: int| self.resolved(ids[i].agent@, ids[i].seq as int)->0 as u32,
        )
    }

    /// The document after a remote transaction.
    pub open spec fn after_remote_txn(self, txn: RemoteTxn) -> DocState {
        let first = self.next_order();
        let len = remote_ops_len(txn.ops@, txn.ops@.len() as int);
        let changed = self.before_remote_ops(txn).changed_by(
            self.remote_agent(txn),
            txn.ops@,
            txn.ops@.len() as int,
            first,
        );
        changed.with_txn(Some(changed.all_resolved(txn.parents@)), first, len)
    }

    /// A step of a remote transaction names known operations, inserts something behind an
    /// item of the document, or deletes items of it.
    pub open spec fn remote_op_ok(self, op: RemoteOp) -> bool {
        match op {
            RemoteOp::Ins { origin_left, origin_right, ins_content } => {
                &&& ins_content@.len() > 0
                &&& match self.resolved(origin_left.agent@, origin_left.seq as int) {
                    Some(left) => left == ROOT_ORDER || holds(self.entries, left as u32),
                    None => false,
                }
                &&& self.resolved(origin_right.agent@, origin_right.seq as int) is Some
            },
            RemoteOp::Del { id, len } => match self.resolved(id.agent@, id.seq as int) {
                Some(target) => items_held(self.entries, target, len as int),
                None => false,
            },
        }
    }

    /// The steps of a remote transaction can be taken one after the other.
    pub open spec fn remote_ops_ok(self, agent: int, ops: Seq<RemoteOp>, order: int) -> bool {
        forall|k: int|
            0 <= k < ops.len() ==> (#[trigger] self.changed_by(agent, ops, k, order)).remote_op_ok(
                ops[k],
            )
    }

    /// A remote transaction is the next one of its peer, its steps can be taken and its
    /// parents are known, and the document stays within what the types can hold.
    pub open spec fn remote_txn_ok(self, txn: RemoteTxn) -> bool {
        let agent = self.remote_agent(txn);
        let n = txn.ops@.len() as int;
        let len = remote_ops_len(txn.ops@, n);
        let start = self.before_remote_ops(txn);
        &&& txn.id.agent@ != "ROOT"@
        &&& agent_of(self.clients, txn.id.agent@) is None ==> self.clients.len() < 0xffff
        &&& txn.id.seq == self.with_agent(txn.id.agent@).next_seq(agent)
        &&& !self.frontier.contains(self.next_order() as u32)
        &&& 1 <= self.next_order() + len <= u32::MAX
        &&& forall|k: int| 0 <= k < n ==> remote_op_inserted(#[trigger] txn.ops@[k]) <= i32::MAX
        &&& start.remote_ops_ok(agent, txn.ops@, self.next_order())
        &&& forall|i: int|
            0 <= i < txn.parents@.len() ==> start.resolved(
                (#[trigger] txn.parents@[i]).agent@,
                txn.parents@[i].seq as int,
            ) is Some
    }

    /// Deleting items changes nothing but the entries and the excess deletions.
    pub proof fn lemma_run_deleted(self, target: int, len: int)
        ensures
            ({
                let now = self.run_deleted(target, len);
                &&& now.clients == self.clients
                &&& now.client_with_order == self.client_with_order
                &&& now.frontier == self.frontier
                &&& now.deletes == self.deletes
                &&& now.txns == self.txns
                &&& now.text == self.text
            }),
        decreases len,
    {
        if len > 0 {
            let p = place_before(self.entries, target);
            let n = run_taken(self.entries[p.entry], p.offset, len);
            if 0 < n <= len {
                let excess = self.double_deletes;
                DocState { entries: run_deactivated(self.entries, p, n), ..self }.lemma_run_deleted(
                    target + n,
                    len - n,
                );
                DocState {
                    double_deletes: |key: int|
                        excess(key) + if target <= key < target + n {
                            1int
                        } else {
                            0
                        },
                    ..self
                }.lemma_run_deleted(target + n, len - n);
            }
        }
    }

    /// Remote steps leave the clients and the history as they are.
    pub proof fn lemma_changed_by(self, agent: int, ops: Seq<RemoteOp>, k: int, order: int)
        ensures
            ({
                let now = self.changed_by(agent, ops, k, order);
                &&& now.clients == self.clients
                &&& now.client_with_order == self.client_with_order
                &&& now.frontier == self.frontier
                &&& now.txns == self.txns
                &&& now.text == self.text
            }),
        decreases k,
    {
        if k > 0 {
            self.lemma_changed_by(agent, ops, k - 1, order);
            let before = self.changed_by(agent, ops, k - 1, order);
            let at = order + remote_ops_len(ops, k - 1);
            match ops[k - 1] {
                RemoteOp::Ins { origin_left, origin_right, ins_content } => {},
                RemoteOp::Del { id, len } => {
                    let target = before.resolved(id.agent@, id.seq as int)->0;
                    DocState {
                        deletes: rle_push(
                            before.deletes,
                            KVPair(at as u32, DeleteEntry { order: target as u32, len }),
                        ),
                        ..before
                    }.lemma_run_deleted(target, len as int);
                },
            }
        }
    }

    /// The place that a search ends at is inside the document.
    pub proof fn lemma_scan_within(
        self,
        name: Seq<char>,
        item: YjsSpan,
        left: Place,
        at: Place,
        scan_start: Place,
        scanning: bool,
    )
        requires
            at.within(self.entries),
            scan_start.within(self.entries),
        ensures
            self.scan(name, item, left, at, scan_start, scanning).within(self.entries),
        decreases self.entries.len() - at.entry, self.entries[at.entry].span_len() - at.offset,
    {
        if at.item(self.entries) is Some && 0 <= at.entry < self.entries.len() {
            let next = at.next_entry(self.entries);
            self.lemma_scan_within(name, item, left, next, scan_start, scanning);
            self.lemma_scan_within(name, item, left, next, scan_start, false);
            self.lemma_scan_within(name, item, left, next, at, true);
        }
    }

    /// Local edits leave the clients and the history as they are.
    pub proof fn lemma_edited_by(self, agent: int, ops: Seq<Edit>, k: int, order: int)
        ensures
            ({
                let now = self.edited_by(agent, ops, k, order);
                &&& now.clients == self.clients
                &&& now.client_with_order == self.client_with_order
                &&& now.frontier == self.frontier
                &&& now.double_deletes == self.double_deletes
                &&& now.txns == self.txns
                &&& now.text == self.text
            }),
        decreases k,
    {
        if k > 0 {
            self.lemma_edited_by(agent, ops, k - 1, order);
        }
    }
}

} // verus!
