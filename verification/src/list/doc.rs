//! The document.

use crate::common::{AgentId, CRDTLocation, LocalOp, ROOT_AGENT};
use crate::list::{Order, ROOT_ORDER};
use crate::list::branch::{lemma_outside, outside, Branch};
use crate::list::content::{
    lemma_content_bound, lemma_content_deactivated, lemma_content_inserted, lemma_content_place,
    lemma_content_within, lemma_gathered,
};
use crate::list::delete::DeleteEntry;
use crate::list::deletions::lemma_none_counted;
use crate::list::double_delete::{excess, DoubleDelete};
use crate::list::external_txn::{RemoteId, RemoteOp, RemoteTxn};
use crate::list::history::{lemma_shadows_sound, shadows_sound};
use crate::list::keeps::{lemma_changed_ok, lemma_integrated_ok, lemma_locally_deleted_ok};
use crate::list::marked::{
    edit_stages, lemma_edit_stage, lemma_local_txn_marked, lemma_no_edit_stage, lemma_no_step_stage,
    lemma_one_edit_marked, lemma_remote_txn_marked, lemma_step_stage, local_txn_marked,
    remote_txn_marked, step_marked, step_stages,
};
use crate::list::markers::MarkerEntry;
use crate::list::model::{
    agent_of, client_from, content_len, deletes_logged, deletion, edits, insertion, is_before_item,
    item_held, items_held, local_op_ok, ops_len, order_of_seq, place_after, place_before,
    remote_op_inserted, remote_op_len, remote_ops_len, shadow_from, txn_holds, txn_known,
    txn_pushed, visible_after, ClientState, DocState, Edit, TxnState,
};
use crate::list::names::{is_behind, is_same};
use crate::list::noted::{
    all_noted_down, home_record, keeps_marks, lemma_insert_keeps_marks, lemma_insert_notes,
    lemma_keeps_marks, lemma_noted_homes, lemma_noted_keeps_marks, lemma_noted_len, marks_deletion,
    marks_insertion, noted_down,
};
use crate::list::order_span::OrderSpan;
use crate::list::span::YjsSpan;
use crate::list::text::visible;
use crate::list::txn::TxnSpan;
use crate::list::valid::{
    accounted, client_ok, fresh, lemma_assigned, lemma_client_from, lemma_client_pushed, lemma_held,
    lemma_place_before, lemma_place_unique, lemma_row_deactivated, lemma_row_inserted,
    lemma_row_run, lemma_txn_pushed, lemma_with_agent, names_known, row_ok,
};
use crate::range_tree::cursor::{Cursor, Place};
use crate::range_tree::deactivate::{deactivated_from, lemma_has_order, run_deactivated, run_taken};
use crate::range_tree::entry::{CRDTSpan, EntryTraits};
use crate::range_tree::homes::{has_item, holds, noted};
use crate::range_tree::index::ContentIndex;
use crate::range_tree::mutations::{inserted, notes_ok};
use crate::range_tree::node::LeafPtr;
use crate::range_tree::query::lemma_total_content;
use crate::range_tree::runs::{
    entry_ok, items_len, lemma_chain_find, lemma_chain_index, lemma_items_len_add,
};
use crate::range_tree::tree::RangeTree;
use crate::rle::KVPair;
use crate::rle::simple_rle::{
    covered, covers, index_of_key, lemma_covers_unique, lemma_rle_push, rle_end, rle_sorted, Rle,
};
use crate::split_list::SplitList;
use crate::splitable_span::MergableSpan;
use vstd::prelude::*;
use vstd::string::*;

verus! {

/// Whether a document keeps its text up to date.
pub const USE_INNER_ROPE: bool = false;

/// What a document knows of a peer.
#[derive(Debug)]
pub struct ClientData {
    /// The peer's name.
    pub name: String,
    /// The order of each operation of the peer.
    pub item_orders: Rle<KVPair<OrderSpan>>,
}

impl View for ClientData {
    type V = ClientState;

    open spec fn view(&self) -> ClientState {
        ClientState { name: self.name@, item_orders: self.item_orders@ }
    }
}

impl View for TxnSpan {
    type V = TxnState;

    open spec fn view(&self) -> TxnState {
        TxnState {
            order: self.order,
            len: self.len,
            shadow: self.shadow,
            parents: self.parents@,
        }
    }
}

/// Which leaf of the tree holds each item.
pub type SpaceIndex = SplitList<MarkerEntry>;

/// A list document that several peers edit.
pub struct ListCRDT {
    /// Whose operation each order is.
    pub client_with_order: Rle<KVPair<CRDTSpan>>,
    /// The operations that no other operation is on top of.
    pub frontier: Branch,
    /// The peers.
    pub client_data: Vec<ClientData>,
    /// All items, visible and deleted ones, in their order in the text.
    pub range_tree: RangeTree<YjsSpan, ContentIndex>,
    /// Which leaf of the tree holds each item.
    pub index: SpaceIndex,
    /// The text, where documents keep it up to date.
    pub text_content: String,
    /// Which item each deleting operation deleted.
    pub deletes: Rle<KVPair<DeleteEntry>>,
    /// The items that were deleted more than once.
    pub double_deletes: Rle<KVPair<DoubleDelete>>,
    /// All transactions.
    pub txns: Rle<TxnSpan>,
}

impl View for ListCRDT {
    type V = DocState;

    open spec fn view(&self) -> DocState {
        DocState {
            clients: Seq::new(self.client_data@.len(), |i: int| self.client_data@[i]@),
            client_with_order: self.client_with_order@,
            entries: self.range_tree@,
            frontier: self.frontier@,
            deletes: self.deletes@,
            double_deletes: |key: int| excess(self.double_deletes@, key),
            txns: Seq::new(self.txns@.len(), |i: int| self.txns@[i]@),
            text: self.text_content@,
        }
    }
}

impl ClientData {
    /// The number of the peer's next operation.
    pub fn get_next_seq(&self) -> (seq: u32)
        requires
            rle_sorted(self.item_orders@),
        ensures
            seq == rle_end(self.item_orders@),
    {
        match self.item_orders.last() {
            Some(last) => {
                assert(self.item_orders@[self.item_orders@.len() - 1].span_ok());
                last.end()
            },
            None => 0,
        }
    }

    /// The order of an operation of the peer.
    pub fn seq_to_order(&self, seq: u32) -> (order: Order)
        requires
            rle_sorted(self.item_orders@),
            covered(self.item_orders@, seq as int),
        ensures
            order == order_of_seq(self.item_orders@, seq as int),
    {
        let (x, offset) = self.item_orders.find(seq).unwrap();
        assert(self.item_orders@[index_of_key(self.item_orders@, seq as int)].span_ok());
        x.1.order + offset
    }
}

/// Moves a branch on by a transaction: its last operation takes the place of the parents.
fn advance_branch_by(branch: &mut Branch, txn_parents: &Branch, first_order: Order, len: u32)
    requires
        !old(branch)@.contains(first_order),
        1 <= first_order + len <= u32::MAX,
    ensures
        final(branch)@ == outside(old(branch)@, txn_parents@).push((first_order + len - 1) as u32),
{
    branch.retain_outside(txn_parents);
    branch.push(first_order + len - 1);
}

impl ListCRDT {
    /// The tree holds each item of the document in the leaf that the index names, and
    /// `order` is the next operation.
    pub open spec fn tree_ok(&self, order: int) -> bool {
        &&& self.range_tree.wf()
        &&& self.index.wf()
        &&& self.index@.len() == order
        &&& forall|k: int| 0 <= k < self.index@.len() ==> (#[trigger] self.index@[k]) is Some
        &&& self.range_tree.homes(home_record(self.index@))
    }

    /// The list of excess deletions and that of transactions are sorted.
    pub open spec fn lists_ok(&self) -> bool {
        &&& rle_sorted(self.double_deletes@)
        &&& rle_sorted(self.txns@)
    }

    /// The lists of the history are as they were.
    pub open spec fn same_lists(&self, before: Self) -> bool {
        &&& self.client_with_order == before.client_with_order
        &&& self.client_data == before.client_data
        &&& self.frontier == before.frontier
        &&& self.deletes == before.deletes
        &&& self.double_deletes == before.double_deletes
        &&& self.txns == before.txns
        &&& self.text_content == before.text_content
    }

    /// The index is that of another document, with the next `len` operations marked as ones
    /// that deleted items.
    pub open spec fn has_deletion_marked(&self, before: Self, len: int) -> bool {
        marks_deletion(before.index@, self.index@, before.range_tree@, len)
    }

    /// The index is that of another document, with the next `len` operations marked as ones
    /// that inserted items.
    pub open spec fn has_insertion_marked(&self, before: Self, len: int) -> bool {
        marks_insertion(before.index@, self.index@, before.range_tree@, len)
    }

    /// The document is sound.
    pub open spec fn wf(&self) -> bool {
        &&& self@.ok()
        &&& self.lists_ok()
        &&& self.tree_ok(self@.next_order())
    }

    /// A document with the same lists differs in its items only.
    proof fn lemma_same_lists(&self, before: Self)
        requires
            self.same_lists(before),
        ensures
            self@ == (DocState { entries: self.range_tree@, ..before@ }),
    {
        let after = DocState { entries: self.range_tree@, ..before@ };
        assert(self@.clients =~= after.clients);
        assert(self@.txns =~= after.txns);
        assert(self@.double_deletes =~= after.double_deletes);
    }

    /// Where a record that agrees with the index names the leaf of every item, the index
    /// does.
    proof fn lemma_homes_known(&self, record: spec_fn(Order) -> LeafPtr, order: int)
        requires
            self.range_tree.wf(),
            self.range_tree.homes(record),
            row_ok(self.range_tree@, order),
            self.index@.len() == order,
            forall|x: Order|
                x < order ==> #[trigger] home_record(self.index@)(x) == record(x),
        ensures
            self.range_tree.homes(home_record(self.index@)),
    {
        let tree = self.range_tree;
        assert forall|l: int, x: Order|
            0 <= l < tree.leaves@.len() && #[trigger] holds(
                tree.leaves@[l].entries(),
                x,
            ) implies home_record(self.index@)(x) == LeafPtr(l as usize) by {
            tree.lemma_leaf_holds(l, x);
        }
    }

    /// A document without text and without history.
    pub fn new() -> (doc: Self)
        ensures
            doc.wf(),
            doc@.clients == Seq::<ClientState>::empty(),
            doc@.client_with_order == Seq::<KVPair<CRDTSpan>>::empty(),
            doc@.entries == Seq::<YjsSpan>::empty(),
            doc@.frontier == seq![ROOT_ORDER],
            doc@.deletes == Seq::<KVPair<DeleteEntry>>::empty(),
            forall|x: int| #[trigger] (doc@.double_deletes)(x) == 0,
            doc@.txns == Seq::<TxnState>::empty(),
            doc@.text == Seq::<char>::empty(),
    {
        let doc = ListCRDT {
            client_with_order: Rle::new(),
            frontier: Branch::one(ROOT_ORDER),
            client_data: Vec::new(),
            index: SplitList::new(),
            range_tree: RangeTree::new(),
            text_content: String::new(),
            deletes: Rle::new(),
            double_deletes: Rle::new(),
            txns: Rle::new(),
        };
        proof {
            assert(doc@.clients =~= Seq::<ClientState>::empty());
            assert(doc@.txns =~= Seq::<TxnState>::empty());
            assert(doc@.text =~= Seq::<char>::empty());
            assert(items_len(doc@.entries) == 0);
            reveal(names_known);
            reveal(accounted);
            reveal(shadows_sound);
            lemma_none_counted(doc@.deletes, doc@.double_deletes);
            assert(visible(doc@.entries) =~= Seq::empty());
            let tree = doc.range_tree;
            assert forall|l: int, x: Order|
                0 <= l < tree.leaves@.len() && #[trigger] holds(
                    tree.leaves@[l].entries(),
                    x,
                ) implies home_record(doc.index@)(x) == LeafPtr(l as usize) by {
                tree.lemma_leaf_holds(l, x);
            }
        }
        doc
    }

    /// The agent of a name, which is added to the document where it is not known yet.
    pub fn get_or_create_agent_id(&mut self, name: &str) -> (id: AgentId)
        requires
            old(self).wf(),
            agent_of(old(self)@.clients, name@) is None ==> old(self)@.clients.len() < ROOT_AGENT,
        ensures
            final(self)@ == old(self)@.with_agent(name@),
            Some(id as int) == agent_of(final(self)@.clients, name@),
            final(self).wf(),
            final(self).range_tree == old(self).range_tree,
            final(self).index == old(self).index,
    {
        if is_same(name, "ROOT") {
            return ROOT_AGENT;
        }
        match self.get_agent_id(name) {
            Some(id) => id,
            None => {
                let id = self.client_data.len() as AgentId;
                self.client_data.push(
                    ClientData { name: name.to_owned(), item_orders: Rle::new() },
                );
                proof {
                    let before = old(self)@;
                    let client = ClientState { name: name@, item_orders: Seq::empty() };
                    assert(self@.clients =~= before.clients.push(client));
                    self.lemma_clients_only(*old(self));
                    lemma_client_pushed(before.clients, client, 0);
                    lemma_with_agent(before, name@);
                }
                id
            },
        }
    }

    /// A document that differs from another one in its clients only.
    proof fn lemma_clients_only(&self, before: Self)
        requires
            self.client_with_order == before.client_with_order,
            self.frontier == before.frontier,
            self.range_tree == before.range_tree,
            self.deletes == before.deletes,
            self.double_deletes == before.double_deletes,
            self.txns == before.txns,
            self.text_content == before.text_content,
        ensures
            self@ == (DocState { clients: self@.clients, ..before@ }),
    {
        assert(self@.txns =~= before@.txns);
        assert(self@.double_deletes =~= before@.double_deletes);
    }

    /// The agent of a name, if it is known.
    pub(crate) fn get_agent_id(&self, name: &str) -> (id: Option<AgentId>)
        requires
            self.client_data@.len() <= ROOT_AGENT,
        ensures
            match id {
                Some(id) => agent_of(self@.clients, name@) == Some(id as int),
                None => agent_of(self@.clients, name@) is None,
            },
    {
        if is_same(name, "ROOT") {
            return Some(ROOT_AGENT);
        }
        let mut i: usize = 0;
        while i < self.client_data.len()
            invariant
                i <= self.client_data@.len(),
                self.client_data@.len() <= ROOT_AGENT,
                client_from(self@.clients, name@, 0) == client_from(
                    self@.clients,
                    name@,
                    i as int,
                ),
                name@ != "ROOT"@,
            decreases self.client_data@.len() - i,
        {
            assert(self@.clients[i as int].name == self.client_data@[i as int].name@);
            if is_same(self.client_data[i].name.as_str(), name) {
                return Some(i as AgentId);
            }
            i = i + 1;
        }
        None
    }

    /// The order of the next operation.
    pub(crate) fn get_next_order(&self) -> (order: Order)
        requires
            rle_sorted(self.client_with_order@),
        ensures
            order == self@.next_order(),
    {
        match self.client_with_order.last() {
            Some(last) => {
                assert(self.client_with_order@[self.client_with_order@.len() - 1].span_ok());
                last.end()
            },
            None => 0,
        }
    }

    /// The order of an operation that a peer names.
    pub(crate) fn remote_id_to_order(&self, id: &RemoteId) -> (order: Order)
        requires
            self@.clients_ok(),
            self@.resolved(id.agent@, id.seq as int) is Some,
        ensures
            self@.resolved(id.agent@, id.seq as int) == Some(order as int),
    {
        let agent = self.get_agent_id(id.agent.as_str()).unwrap();
        proof {
            lemma_client_from(self@.clients, id.agent@, 0);
        }
        if agent == ROOT_AGENT {
            ROOT_ORDER
        } else {
            assert(client_ok(self@.clients[agent as int], self@.next_order()));
            self.client_data[agent as usize].seq_to_order(id.seq)
        }
    }

    /// The leaf of an item.
    pub(crate) fn marker_at(&self, order: Order) -> (leaf: LeafPtr)
        requires
            self.index.wf(),
            order < self.index@.len(),
            self.index@[order as int] is Some,
        ensures
            Some(leaf) == self.index@[order as int],
    {
        self.index.entry_at(order as usize).unwrap_ptr()
    }

    /// A cursor right before an item; for the root, at the end of the document.
    pub(crate) fn get_cursor_before(&self, order: Order) -> (cursor: Cursor)
        requires
            self.tree_ok(self.index@.len() as int),
            row_ok(self.range_tree@, self.index@.len() as int),
            order == ROOT_ORDER ==> self.range_tree@.len() > 0,
            order != ROOT_ORDER ==> holds(self.range_tree@, order),
        ensures
            self.range_tree.cursor_ok(cursor),
            self.range_tree.place(cursor) == if order == ROOT_ORDER {
                Place {
                    entry: self.range_tree@.len() - 1,
                    offset: self.range_tree@.last().span_len() as int,
                }
            } else {
                place_before(self.range_tree@, order as int)
            },
    {
        if order == ROOT_ORDER {
            self.range_tree.cursor_at_end()
        } else {
            proof {
                self.lemma_home(order);
            }
            let marker = self.marker_at(order);
            let cursor = self.range_tree.cursor_before_item(order, marker);
            proof {
                self.range_tree.lemma_place(cursor);
                let p = self.range_tree.place(cursor);
                assert(entry_ok(self.range_tree@[p.entry]));
                assert(is_before_item(self.range_tree@, p, order as int));
                lemma_place_unique(self.range_tree@, p, order as int);
            }
            cursor
        }
    }

    /// An item of the document is in the leaf that the index names.
    proof fn lemma_home(&self, order: Order)
        requires
            self.tree_ok(self.index@.len() as int),
            row_ok(self.range_tree@, self.index@.len() as int),
            holds(self.range_tree@, order),
        ensures
            order < self.index@.len(),
            self.index@[order as int] is Some,
            (self.index@[order as int]->0).0 < self.range_tree.leaves@.len(),
            holds(
                self.range_tree.leaves@[(self.index@[order as int]->0).0 as int].entries(),
                order,
            ),
    {
        let tree = self.range_tree;
        let g = choose|g: int| 0 <= g < tree@.len() && #[trigger] has_item(tree@[g], order);
        let (r, i) = lemma_chain_find(tree.parts(), g);
        lemma_chain_index(tree.parts(), r, i);
        let l = tree.shape@.order[r];
        assert(tree.parts()[r] == tree.leaves@[l].entries());
        assert(has_item(tree.leaves@[l].entries()[i], order));
        assert(holds(tree.leaves@[l].entries(), order));
        assert(home_record(self.index@)(order) == LeafPtr(l as usize));
    }

    /// A cursor right behind an item; for the root, at the start of the document.
    pub(crate) fn get_cursor_after(&self, order: Order) -> (cursor: Cursor)
        requires
            self.tree_ok(self.index@.len() as int),
            row_ok(self.range_tree@, self.index@.len() as int),
            order != ROOT_ORDER ==> holds(self.range_tree@, order),
        ensures
            self.range_tree.cursor_ok(cursor),
            self.range_tree.place(cursor) == place_after(self.range_tree@, order as int),
    {
        if order == ROOT_ORDER {
            self.range_tree.cursor_at_start()
        } else {
            let mut cursor = self.get_cursor_before(order);
            proof {
                lemma_place_before(self.range_tree@, order);
                self.range_tree.lemma_place(cursor);
                let p = self.range_tree.place(cursor);
                assert(entry_ok(self.range_tree@[p.entry]));
                self.range_tree@[p.entry].lemma_len_bound();
            }
            cursor.offset = cursor.offset + 1;
            cursor
        }
    }

    /// Makes the next operations of the document the next ones of a peer.
    pub(crate) fn assign_order_to_client(&mut self, loc: CRDTLocation, order: Order, len: usize)
        requires
            old(self)@.clients_ok(),
            loc.agent < old(self)@.clients.len(),
            loc.seq == old(self)@.next_seq(loc.agent as int),
            order == old(self)@.next_order(),
            order + len <= u32::MAX,
        ensures
            final(self)@ == old(self)@.assigned(
                loc.agent as int,
                loc.seq as int,
                order as int,
                len as int,
            ),
            final(self)@.clients_ok(),
            final(self)@.next_order() == order + len,
            final(self).frontier == old(self).frontier,
            final(self).range_tree == old(self).range_tree,
            final(self).index == old(self).index,
            final(self).deletes == old(self).deletes,
            final(self).double_deletes == old(self).double_deletes,
            final(self).txns == old(self).txns,
    {
        let ghost a = loc.agent as int;
        let ghost before = self@;
        let ghost client = before.clients[a];
        let span = KVPair(order, CRDTSpan { loc, len: len as u32 });
        let ops = KVPair(loc.seq, OrderSpan { order, len: len as u32 });
        proof {
            assert(client_ok(client, before.next_order()));
            let list = self.client_with_order@;
            if list.len() > 0 {
                assert(list[list.len() - 1].span_ok());
            }
            lemma_rle_push(list, span);
            if client.item_orders.len() > 0 {
                assert(client.item_orders[client.item_orders.len() - 1].span_ok());
                assert(client.item_orders.last().1.order + client.item_orders.last().1.len
                    <= order);
            }
            lemma_rle_push(client.item_orders, ops);
        }
        self.client_with_order.append(span);
        self.client_data[loc.agent as usize].item_orders.append(ops);
        proof {
            let after = before.assigned(a, loc.seq as int, order as int, len as int);
            assert(self@.clients =~= after.clients);
            assert(self@.txns =~= after.txns);
            assert(self@.double_deletes =~= after.double_deletes);
            lemma_assigned(before, a, len as int);
        }
    }

    /// Adds a transaction to the history: on top of the parents, or else of the whole
    /// document.
    pub(crate) fn insert_txn(
        &mut self,
        txn_parents: Option<Branch>,
        first_order: Order,
        len: u32,
    )
        requires
            old(self)@.history_ok(first_order as int),
            rle_sorted(old(self).txns@),
            txn_parents is Some ==> !old(self).frontier@.contains(first_order),
            1 <= first_order + len <= u32::MAX,
        ensures
            final(self)@ == old(self)@.with_txn(
                match txn_parents {
                    Some(parents) => Some(parents@),
                    None => None,
                },
                first_order as int,
                len as int,
            ),
            final(self)@.history_ok(first_order + len),
            rle_sorted(final(self).txns@),
            final(self).client_with_order == old(self).client_with_order,
            final(self).client_data == old(self).client_data,
            final(self).range_tree == old(self).range_tree,
            final(self).index == old(self).index,
            final(self).deletes == old(self).deletes,
            final(self).double_deletes == old(self).double_deletes,
    {
        let ghost before = self@;
        let ghost on = if txn_parents is Some {
            txn_parents->0@
        } else {
            self.frontier@
        };
        let last_order = first_order + len - 1;
        let txn_parents = match txn_parents {
            Some(parents) => {
                advance_branch_by(&mut self.frontier, &parents, first_order, len);
                proof {
                    let now = self.frontier@;
                    assert forall|i: int| 0 <= i < now.len() implies (#[trigger] now[i])
                        == ROOT_ORDER || now[i] < first_order + len by {
                        if i < now.len() - 1 {
                            lemma_outside(before.frontier, parents@, i);
                            let j = choose|j: int|
                                0 <= j < before.frontier.len() && before.frontier[j] == now[i];
                            assert(before.frontier[j] == ROOT_ORDER || before.frontier[j]
                                < first_order);
                        }
                    }
                }
                parents
            },
            None => {
                let mut parents = Branch::one(last_order);
                core::mem::swap(&mut self.frontier, &mut parents);
                parents
            },
        };
        let mut shadow = first_order;
        while shadow >= 1 && txn_parents.contains(shadow - 1)
            invariant
                shadow <= first_order,
                txn_parents@ == on,
                rle_sorted(self.txns@),
                self.txns == old(self).txns,
                before == old(self)@,
                before.history_ok(first_order as int),
                shadow_from(before.txns, on, first_order as int) == shadow_from(
                    before.txns,
                    on,
                    shadow as int,
                ),
            decreases shadow,
        {
            let ghost x = shadow - 1;
            proof {
                assert(txn_known(before.txns, x));
                let i = choose|i: int|
                    0 <= i < before.txns.len() && #[trigger] txn_holds(before.txns[i], x);
                assert(before.txns[i] == self.txns@[i]@);
                assert(covers(self.txns@[i], x));
                lemma_covers_unique(self.txns@, i, index_of_key(self.txns@, x), x);
                assert(before.txns[i].shadow <= before.txns[i].order);
            }
            let (txn, _) = self.txns.find(shadow - 1).unwrap();
            shadow = txn.shadow;
        }
        let txn = TxnSpan { order: first_order, len, shadow, parents: txn_parents };
        let ghost state = txn@;
        proof {
            let list = self.txns@;
            if list.len() > 0 {
                assert(list[list.len() - 1].span_ok());
                assert(before.txns[list.len() - 1].order + before.txns[list.len() - 1].len
                    <= first_order);
            }
            lemma_txn_pushed(before.txns, state, first_order as int);
            lemma_shadows_sound(before.txns, state, first_order as int);
        }
        self.txns.append(txn);
        proof {
            let after = txn_pushed(before.txns, state);
            assert(self@.txns =~= after);
            assert(self@.clients =~= before.clients);
            assert(self@.double_deletes =~= before.double_deletes);
        }
    }

    /// The name of a peer.
    pub(crate) fn get_agent_name(&self, agent: AgentId) -> (name: &str)
        requires
            agent < self.client_data@.len(),
        ensures
            name@ == self@.clients[agent as int].name,
    {
        self.client_data[agent as usize].name.as_str()
    }

    /// Notes down which leaf holds an entry.
    pub(crate) fn notify(markers: &mut SpaceIndex, entry: YjsSpan, ptr: LeafPtr)
        requires
            old(markers).wf(),
            entry.span_ok(),
            entry.order <= old(markers)@.len(),
        ensures
            final(markers).wf(),
            final(markers)@ == noted_down(old(markers)@, entry, ptr),
    {
        let marker = MarkerEntry { ptr: Some(ptr), len: entry.len() as u32 };
        markers.replace_range(entry.order as usize, marker);
        assert(markers@ =~= noted_down(old(markers)@, entry, ptr));
    }

    /// Notes down which leaf holds each of some entries.
    fn notify_all(markers: &mut SpaceIndex, notes: &Vec<(YjsSpan, LeafPtr)>)
        requires
            old(markers).wf(),
            forall|j: int|
                0 <= j < notes@.len() ==> entry_ok((#[trigger] notes@[j]).0) && notes@[j].0.order
                    <= old(markers)@.len(),
        ensures
            final(markers).wf(),
            final(markers)@ == all_noted_down(old(markers)@, notes@),
    {
        let mut j: usize = 0;
        assert(notes@.take(0) =~= Seq::empty());
        while j < notes.len()
            invariant
                j <= notes@.len(),
                markers.wf(),
                forall|j: int|
                    0 <= j < notes@.len() ==> entry_ok((#[trigger] notes@[j]).0)
                        && notes@[j].0.order <= old(markers)@.len(),
                markers@ == all_noted_down(old(markers)@, notes@.take(j as int)),
                markers@.len() >= old(markers)@.len(),
            decreases notes@.len() - j,
        {
            let (entry, ptr) = notes[j];
            assert(entry_ok(notes@[j as int].0));
            Self::notify(markers, entry, ptr);
            proof {
                let upto = notes@.take(j + 1);
                assert(upto.drop_last() =~= notes@.take(j as int));
                assert(upto.last() == notes@[j as int]);
            }
            j = j + 1;
        }
        assert(notes@.take(j as int) =~= notes@);
    }

    /// Where an item goes that was inserted at a cursor: behind the concurrent items that
    /// come first.
    fn find_insert_place(&self, agent: AgentId, item: YjsSpan, left_cursor: Cursor) -> (cursor:
        Cursor)
        requires
            self@.clients_ok(),
            self.tree_ok(self.index@.len() as int),
            row_ok(self.range_tree@, self.index@.len() as int),
            self.index@.len() <= self@.next_order(),
            agent < self.client_data@.len(),
            self.range_tree.cursor_ok(left_cursor),
        ensures
            self.range_tree.cursor_ok(cursor),
            ({
                let left = self.range_tree.place(left_cursor);
                self.range_tree.place(cursor) == self@.scan(
                    self@.clients[agent as int].name,
                    item,
                    left,
                    left,
                    left,
                    false,
                )
            }),
    {
        let ghost name = self@.clients[agent as int].name;
        let ghost left = self.range_tree.place(left_cursor);
        let ghost found = self@.scan(name, item, left, left, left, false);
        let mut cursor = left_cursor;
        let mut scan_start = cursor;
        let mut scanning = false;
        loop
            invariant
                self@.clients_ok(),
                self.tree_ok(self.index@.len() as int),
                row_ok(self.range_tree@, self.index@.len() as int),
                self.index@.len() <= self@.next_order(),
                agent < self.client_data@.len(),
                self.range_tree.cursor_ok(left_cursor),
                self.range_tree.cursor_ok(cursor),
                self.range_tree.cursor_ok(scan_start),
                name == self@.clients[agent as int].name,
                left == self.range_tree.place(left_cursor),
                found == self@.scan(name, item, left, left, left, false),
                found == self@.scan(
                    name,
                    item,
                    left,
                    self.range_tree.place(cursor),
                    self.range_tree.place(scan_start),
                    scanning,
                ),
            decreases
                self.range_tree@.len() - self.range_tree.place(cursor).entry,
                self.range_tree@[self.range_tree.place(cursor).entry].span_len()
                    - self.range_tree.place(cursor).offset,
        {
            let ghost at = self.range_tree.place(cursor);
            proof {
                self.range_tree.lemma_place(cursor);
            }
            let stop = if scanning {
                scan_start
            } else {
                cursor
            };
            let other_order = match cursor.get_item(&self.range_tree) {
                None => {
                    return stop;
                },
                Some(order) => order,
            };
            // Almost always true.
            if other_order == item.origin_right {
                return stop;
            }
            let other_entry = cursor.get_entry(&self.range_tree);
            proof {
                assert(entry_ok(self.range_tree@[at.entry]));
                other_entry.lemma_len_bound();
                if at.offset > 0 {
                    lemma_held(self.range_tree@, at.entry, other_entry.order + at.offset - 1);
                }
                lemma_held(self.range_tree@, at.entry, other_entry.order as int);
            }
            let other_left_order = other_entry.origin_left_at_offset(cursor.offset as u32);
            let other_left_cursor = self.get_cursor_after(other_left_order);
            if other_left_cursor.is_before(&left_cursor, &self.range_tree) {
                // Top row.
                return stop;
            } else if left_cursor.is_before(&other_left_cursor, &self.range_tree) {
                // Bottom row.
            } else {
                // These items might be concurrent.
                proof {
                    let x = other_entry.order as int;
                    assert(covered(self@.client_with_order, x));
                    let i = index_of_key(self@.client_with_order, x);
                    assert(covers(self@.client_with_order[i], x));
                    assert(self@.client_with_order[i].1.loc.agent < self@.clients.len());
                }
                let my_name = self.get_agent_name(agent);
                let other_loc = self.client_with_order.get(other_entry.order);
                let other_name = self.get_agent_name(other_loc.agent);
                if is_behind(my_name, other_name) {
                    scanning = false;
                } else if item.origin_right == other_entry.origin_right {
                    return stop;
                } else {
                    scanning = true;
                    scan_start = cursor;
                }
            }
            let _ = cursor.next_entry(&self.range_tree);
        }
    }

    /// Inserts an item at a cursor.
    fn insert_at(&mut self, cursor: Cursor, item: YjsSpan)
        requires
            row_ok(old(self).range_tree@, item.order as int),
            old(self).tree_ok(item.order as int),
            fresh(item, old(self).range_tree@, item.order as int),
            old(self).range_tree.cursor_ok(cursor),
        ensures
            final(self).range_tree@ == inserted(
                old(self).range_tree@,
                old(self).range_tree.place(cursor),
                item,
            ),
            final(self).tree_ok(item.order + item.span_len()),
            final(self).same_lists(*old(self)),
            final(self).has_insertion_marked(*old(self), item.span_len() as int),
    {
        let ghost before = *self;
        proof {
            self.range_tree.lemma_place(cursor);
            lemma_row_inserted(
                self.range_tree@,
                self.range_tree.place(cursor),
                item,
                item.order as int,
            );
        }
        let notes = self.range_tree.insert(cursor, item);
        proof {
            lemma_insert_notes(before.range_tree@, before.index@, notes@, item);
            lemma_insert_keeps_marks(before.index@, notes@, item, before.range_tree@);
        }
        Self::notify_all(&mut self.index, &notes);
        proof {
            assert(before.range_tree.homes(home_record(before.index@)));
            assert(self.range_tree.homes(noted(home_record(before.index@), notes@)));
            self.lemma_homes_known(
                noted(home_record(before.index@), notes@),
                item.order + item.span_len(),
            );
        }
    }

    /// Where an item was inserted: at the cursor, or else right behind the item that it
    /// names.
    pub open spec fn start_place(&self, item: YjsSpan, cursor_hint: Option<Cursor>) -> Place {
        match cursor_hint {
            Some(cursor) => self.range_tree.place(cursor),
            None => place_after(self.range_tree@, item.origin_left as int),
        }
    }

    /// Inserts an item, behind the concurrent items that come first. It was inserted at
    /// the cursor, or else right behind the item that it names.
    #[verifier::rlimit(30)]
    pub(crate) fn integrate(
        &mut self,
        agent: AgentId,
        item: YjsSpan,
        _ins_content: &str,
        cursor_hint: Option<Cursor>,
    )
        requires
            old(self)@.clients_ok(),
            old(self)@.content_ok(item.order as int),
            old(self).tree_ok(item.order as int),
            item.order <= old(self)@.next_order(),
            agent < old(self).client_data@.len(),
            fresh(item, old(self).range_tree@, item.order as int),
            cursor_hint is Some ==> old(self).range_tree.cursor_ok(cursor_hint->0),
        ensures
            final(self)@ == old(self)@.integrated(
                agent as int,
                item,
                old(self).start_place(item, cursor_hint),
            ),
            final(self)@.content_ok(item.order + item.span_len()),
            final(self).tree_ok(item.order + item.span_len()),
            final(self).same_lists(*old(self)),
            final(self).has_insertion_marked(*old(self), item.span_len() as int),
            items_len(final(self).range_tree@) == items_len(old(self).range_tree@)
                + item.span_len(),
            forall|x: Order| #[trigger]
                holds(final(self).range_tree@, x) == (holds(old(self).range_tree@, x)
                    || has_item(item, x)),
    {
        let left_cursor = match cursor_hint {
            Some(cursor) => cursor,
            None => self.get_cursor_after(item.origin_left),
        };
        proof {
            self.range_tree.lemma_place(left_cursor);
            lemma_integrated_ok(
                self@,
                agent as int,
                item,
                self.range_tree.place(left_cursor),
                item.order as int,
            );
        }
        let cursor = self.find_insert_place(agent, item, left_cursor);
        // Now insert here.
        self.insert_at(cursor, item);
        proof {
            self.lemma_same_lists(*old(self));
        }
    }

    /// Notes down which entries came to another leaf.
    fn record_moves(&mut self, notes: &Vec<(YjsSpan, LeafPtr)>)
        requires
            old(self).range_tree.wf(),
            old(self).index.wf(),
            forall|k: int|
                0 <= k < old(self).index@.len() ==> (#[trigger] old(self).index@[k]) is Some,
            row_ok(old(self).range_tree@, old(self).index@.len() as int),
            notes_ok(notes@, old(self).range_tree@),
            old(self).range_tree.homes(noted(home_record(old(self).index@), notes@)),
        ensures
            final(self).tree_ok(old(self).index@.len() as int),
            final(self).range_tree == old(self).range_tree,
            final(self).same_lists(*old(self)),
            keeps_marks(old(self).index@, final(self).index@, old(self).range_tree@),
    {
        let ghost was = self.index@;
        proof {
            lemma_noted_keeps_marks(was, notes@, self.range_tree@);
            assert forall|j: int| 0 <= j < notes@.len() implies entry_ok((#[trigger] notes@[j]).0)
                && notes@[j].0.order + notes@[j].0.span_len() <= was.len() by {
                let e = notes@[j].0;
                lemma_has_order(e, (e.order + e.span_len() - 1) as u32);
                assert(has_item(notes@[j].0, (e.order + e.span_len() - 1) as u32));
            }
            lemma_noted_homes(was, notes@);
            lemma_noted_len(was, notes@);
        }
        Self::notify_all(&mut self.index, notes);
        proof {
            self.lemma_homes_known(noted(home_record(was), notes@), was.len() as int);
        }
    }

    /// Makes the index longer by operations that insert nothing. They are given the leaf
    /// of the operation before them.
    fn extend_index(&mut self, len: u32)
        requires
            old(self).tree_ok(old(self).index@.len() as int),
            row_ok(old(self).range_tree@, old(self).index@.len() as int),
            old(self).index@.len() + len <= u32::MAX,
            len > 0 ==> old(self).index@.len() > 0,
        ensures
            final(self).tree_ok(old(self).index@.len() + len),
            final(self).range_tree == old(self).range_tree,
            final(self).same_lists(*old(self)),
            final(self).index@ == old(self).index@ + Seq::new(
                len as nat,
                |k: int| old(self).index@.last(),
            ),
    {
        let ghost was = self.index@;
        let marker = match self.index.last() {
            Some(last) => {
                proof {
                    lemma_last_marker(self.index);
                    let k = last.span_len() - 1;
                    assert(was[was.len() - last.span_len() + k] == last.item_at(k));
                }
                MarkerEntry { len, ptr: last.ptr }
            },
            None => MarkerEntry::default(),
        };
        self.index.append_entry(marker);
        proof {
            assert(self.index@ =~= was + Seq::new(len as nat, |k: int| was.last()));
            assert forall|k: int| 0 <= k < self.index@.len() implies (
            #[trigger] self.index@[k]) is Some by {
                if k < was.len() {
                    assert(was[k] is Some);
                }
            }
            assert forall|x: Order| x < was.len() implies #[trigger] home_record(self.index@)(x)
                == home_record(was)(x) by {}
            let tree = self.range_tree;
            assert forall|l: int, x: Order|
                0 <= l < tree.leaves@.len() && #[trigger] holds(
                    tree.leaves@[l].entries(),
                    x,
                ) implies home_record(self.index@)(x) == LeafPtr(l as usize) by {
                tree.lemma_leaf_holds(l, x);
                assert(home_record(was)(x) == LeafPtr(l as usize));
            }
        }
    }

    /// Deletes visible items, by the operations from `order` on.
    fn delete_locally(&mut self, pos: usize, del_span: usize, order: Order)
        requires
            old(self)@.content_ok(order as int),
            old(self).tree_ok(order as int),
            0 < del_span,
            pos + del_span <= content_len(old(self)@.entries),
            order + del_span <= u32::MAX,
        ensures
            final(self)@ == old(self)@.locally_deleted(pos as int, del_span as int, order as int),
            final(self)@.content_ok(order + del_span),
            final(self).tree_ok(order + del_span),
            final(self).has_deletion_marked(*old(self), del_span as int),
            final(self).client_with_order == old(self).client_with_order,
            final(self).client_data == old(self).client_data,
            final(self).double_deletes == old(self).double_deletes,
            final(self).txns == old(self).txns,
            content_len(final(self)@.entries) == content_len(old(self)@.entries) - del_span,
            items_len(final(self)@.entries) == items_len(old(self)@.entries),
    {
        let ghost before = *self;
        let ghost entries = self.range_tree@;
        proof {
            lemma_content_within(entries, pos as int);
        }
        let cursor = self.range_tree.cursor_at_content_pos(pos, false);
        let ghost p = self.range_tree.place(cursor);
        let ghost d = deactivated_from(entries, p, del_span as int);
        proof {
            lemma_content_place(entries, p, pos as int);
            lemma_content_deactivated(entries, p, del_span as int);
            lemma_row_deactivated(entries, p, del_span as int, order as int);
            lemma_held(entries, p.entry, entries[p.entry].order as int);
            lemma_content_bound(entries);
            lemma_gathered(d.taken);
        }
        let (deleted_items, notes) = self.range_tree.local_deactivate(cursor, del_span);
        proof {
            assert(before.range_tree.homes(home_record(before.index@)));
        }
        self.record_moves(&notes);
        proof {
            lemma_keeps_marks(before.index@, self.index@, d.entries, entries);
        }
        self.extend_index(del_span as u32);
        let ghost mid = *self;
        let ghost spans = deleted_items@;
        let mut next_order = order;
        let mut i: usize = 0;
        let n = deleted_items.num_spans();
        assert(spans.take(0) =~= Seq::empty());
        while i < n
            invariant
                i <= n,
                n == spans.len(),
                spans == deleted_items@,
                forall|j: int|
                    0 <= j < spans.len() ==> entry_ok(#[trigger] spans[j]) && spans[j].active(),
                items_len(spans) == del_span,
                order + del_span <= u32::MAX,
                next_order == order + items_len(spans.take(i as int)),
                rle_sorted(self.deletes@),
                rle_end(self.deletes@) <= next_order,
                self.deletes@ == deletes_logged(
                    before.deletes@,
                    spans.take(i as int),
                    order as int,
                ),
                self.range_tree == mid.range_tree,
                self.index == mid.index,
                self.client_with_order == mid.client_with_order,
                self.client_data == mid.client_data,
                self.frontier == mid.frontier,
                self.double_deletes == mid.double_deletes,
                self.txns == mid.txns,
                self.text_content == mid.text_content,
            decreases n - i,
        {
            let item = deleted_items.get(i);
            let ghost upto = spans.take(i + 1);
            let entry = KVPair(next_order, DeleteEntry { order: item.order, len: item.len as u32 });
            proof {
                assert(entry_ok(spans[i as int]));
                assert(upto.drop_last() =~= spans.take(i as int));
                assert(upto.last() == item);
                assert(spans =~= upto + spans.skip(i + 1));
                lemma_items_len_add(upto, spans.skip(i + 1));
                if self.deletes@.len() > 0 {
                    assert(self.deletes@[self.deletes@.len() - 1].span_ok());
                }
                lemma_rle_push(self.deletes@, entry);
            }
            self.deletes.append(entry);
            next_order = next_order + item.len as u32;
            i = i + 1;
        }
        proof {
            assert(spans.take(i as int) =~= spans);
            let after = before@.locally_deleted(pos as int, del_span as int, order as int);
            assert(self@.clients =~= after.clients);
            assert(self@.txns =~= after.txns);
            assert(self@.double_deletes =~= after.double_deletes);
            assert(self@.entries == after.entries);
            lemma_locally_deleted_ok(before@, pos as int, del_span as int, order as int);
        }
    }

    /// Inserts items behind `pos` visible ones, by the operations from `order` on.
    fn insert_locally(&mut self, agent: AgentId, pos: usize, ins_content: &str, order: Order)
        requires
            old(self)@.clients_ok(),
            old(self)@.content_ok(order as int),
            old(self).tree_ok(order as int),
            agent < old(self).client_data@.len(),
            pos <= content_len(old(self)@.entries),
            0 < ins_content@.len(),
            ins_content@.len() <= i32::MAX,
            order + ins_content@.len() <= old(self)@.next_order(),
        ensures
            final(self)@ == old(self)@.locally_inserted(
                agent as int,
                pos as int,
                ins_content@.len() as int,
                order as int,
            ),
            final(self)@.content_ok(order + ins_content@.len()),
            final(self).tree_ok(order + ins_content@.len()),
            final(self).same_lists(*old(self)),
            final(self).has_insertion_marked(*old(self), ins_content@.len() as int),
            content_len(final(self)@.entries) == content_len(old(self)@.entries)
                + ins_content@.len(),
            items_len(final(self)@.entries) == items_len(old(self)@.entries) + ins_content@.len(),
    {
        let ghost entries = self.range_tree@;
        let ins_len = ins_content.unicode_len();
        // Find the preceding item and the successor.
        let (origin_left, cursor) = if pos == 0 {
            (ROOT_ORDER, self.range_tree.cursor_at_start())
        } else {
            proof {
                lemma_content_within(entries, pos - 1);
            }
            let mut cursor = self.range_tree.cursor_at_content_pos(pos - 1, false);
            let ghost p = self.range_tree.place(cursor);
            proof {
                lemma_content_place(entries, p, pos - 1);
                assert(entry_ok(entries[p.entry]));
                lemma_held(entries, p.entry, entries[p.entry].order + p.offset);
            }
            let origin_left = cursor.get_item(&self.range_tree).unwrap();
            let _ = cursor.next(&self.range_tree);
            (origin_left, cursor)
        };
        let origin_right = match cursor.get_item(&self.range_tree) {
            Some(right) => right,
            None => ROOT_ORDER,
        };
        let item = YjsSpan { order, origin_left, origin_right, len: ins_len as i32 };
        proof {
            assert(item == self@.local_item(pos as int, ins_len as int, order as int));
            let left = self.range_tree.place(cursor);
            let at = self@.scan(self@.clients[agent as int].name, item, left, left, left, false);
            self.range_tree.lemma_place(cursor);
            self@.lemma_scan_within(
                self@.clients[agent as int].name,
                item,
                left,
                left,
                left,
                false,
            );
            lemma_content_inserted(entries, at, item);
        }
        self.integrate(agent, item, ins_content, Some(cursor));
    }

    /// Applies edits of the local document as one transaction of a peer: each of them
    /// deletes visible items at its position, then inserts there.
    #[verifier::rlimit(30)]
    pub fn apply_local_txn(&mut self, agent: AgentId, local_ops: &[LocalOp])
        requires
            old(self).wf(),
            agent < old(self)@.clients.len(),
            old(self)@.local_ops_ok(edits(local_ops@)),
        ensures
            final(self)@ == old(self)@.after_local_txn(agent as int, edits(local_ops@)),
            final(self).wf(),
            local_txn_marked(*old(self), *final(self), agent as int, edits(local_ops@)),
    {
        let ghost before = *self;
        let ghost ops = edits(local_ops@);
        let ghost n = ops.len() as int;
        let first_order = self.get_next_order();
        let mut next_order = first_order;
        let mut txn_span: usize = 0;
        let mut i: usize = 0;
        while i < local_ops.len()
            invariant
                i <= ops.len(),
                ops == edits(local_ops@),
                n == ops.len(),
                txn_span == ops_len(ops, i as int),
                ops_len(ops, n) <= u32::MAX,
            decreases ops.len() - i,
        {
            let op = &local_ops[i];
            assert(ops[i as int] == op@);
            proof {
                lemma_ops_len_mono(ops, i + 1, n);
                lemma_ops_len_mono(ops, 0, i as int);
            }
            txn_span = txn_span + op.del_span;
            txn_span = txn_span + op.ins_content.as_str().unicode_len();
            i = i + 1;
        }
        proof {
            assert(client_ok(self@.clients[agent as int], self@.next_order()));
        }
        let seq = self.client_data[agent as usize].get_next_seq();
        self.assign_order_to_client(CRDTLocation { agent, seq }, first_order, txn_span);
        let ghost start = *self;
        let ghost mut stages = seq![*self];
        proof {
            lemma_no_edit_stage(*self, agent as int, ops, first_order as int);
        }
        let mut i: usize = 0;
        while i < local_ops.len()
            invariant
                edit_stages(stages, start@, agent as int, ops, first_order as int),
                stages.len() == i + 1,
                stages[i as int] == *self,
                stages[0] == start,
                i <= ops.len(),
                ops == edits(local_ops@),
                n == ops.len(),
                before@.local_ops_ok(ops),
                before@.next_order() == first_order,
                start@.next_order() == first_order + ops_len(ops, n),
                start@.entries == before@.entries,
                agent < start@.clients.len(),
                next_order == first_order + ops_len(ops, i as int),
                self@ == start@.edited_by(agent as int, ops, i as int, first_order as int),
                self.client_with_order == start.client_with_order,
                self.client_data == start.client_data,
                self.double_deletes == start.double_deletes,
                self.txns == start.txns,
                self@.clients_ok(),
                self@.content_ok(next_order as int),
                self.tree_ok(next_order as int),
                content_len(self@.entries) == visible_after(
                    content_len(before@.entries),
                    ops,
                    i as int,
                ),
            decreases ops.len() - i,
        {
            let op = &local_ops[i];
            assert(ops[i as int] == op@);
            let ins_content = op.ins_content.as_str();
            proof {
                lemma_ops_len_mono(ops, i + 1, n);
                lemma_ops_len_mono(ops, 0, i as int);
                assert(local_op_ok(ops, i as int, content_len(before@.entries)));
            }
            if op.del_span > 0 {
                self.delete_locally(op.pos, op.del_span, next_order);
                next_order = next_order + op.del_span as u32;
                proof {
                    assert(self@.clients =~= start@.clients);
                }
            }
            let ghost mid = *self;
            if !ins_content.is_empty() {
                self.insert_locally(agent, op.pos, ins_content, next_order);
                next_order = next_order + ins_content.unicode_len() as u32;
                proof {
                    assert(self@.clients =~= start@.clients);
                }
            }
            proof {
                lemma_edit_stage(
                    stages,
                    mid,
                    *self,
                    start@,
                    agent as int,
                    ops,
                    first_order as int,
                );
                stages = stages.push(*self);
            }
            i = i + 1;
        }
        proof {
            start@.lemma_edited_by(agent as int, ops, n, first_order as int);
            assert(self@.txns =~= before@.txns);
        }
        let ghost edited = *self;
        self.insert_txn(None, first_order, next_order - first_order);
        proof {
            assert(self@.clients =~= edited@.clients);
            assert(self@.double_deletes =~= edited@.double_deletes);
            assert(self@.clients_ok());
            assert(self@.content_ok(self@.next_order()));
            lemma_local_txn_marked(stages, before, *self, start@, agent as int, ops);
        }
    }

    /// Deletes items, whether they are visible or not, by the operations from `order` on.
    fn delete_remotely(&mut self, target_order: Order, len: u32, order: Order)
        requires
            row_ok(old(self)@.entries, order as int),
            rle_sorted(old(self).deletes@),
            rle_end(old(self).deletes@) <= order + len,
            old(self).tree_ok(order as int),
            rle_sorted(old(self).double_deletes@),
            forall|x: int| 0 <= #[trigger] excess(old(self).double_deletes@, x) <= order,
            order + len <= u32::MAX,
            items_held(old(self)@.entries, target_order as int, len as int),
        ensures
            final(self)@ == old(self)@.run_deleted(target_order as int, len as int),
            final(self).tree_ok(order + len),
            final(self).has_deletion_marked(*old(self), len as int),
            rle_sorted(final(self).double_deletes@),
            final(self).client_with_order == old(self).client_with_order,
            final(self).client_data == old(self).client_data,
            final(self).frontier == old(self).frontier,
            final(self).deletes == old(self).deletes,
            final(self).txns == old(self).txns,
            items_len(final(self)@.entries) == items_len(old(self)@.entries),
            forall|x: Order| #[trigger]
                holds(final(self)@.entries, x) == holds(old(self)@.entries, x),
    {
        let ghost before = *self;
        let ghost whole = self@.run_deleted(target_order as int, len as int);
        proof {
            if len > 0 {
                assert(item_held(before@.entries, target_order + len - 1));
            }
        }
        let mut target = target_order;
        let mut remaining_len = len;
        while remaining_len > 0
            invariant
                target + remaining_len == target_order + len,
                remaining_len <= len,
                order + len <= u32::MAX,
                len > 0 ==> target_order + len <= u32::MAX,
                before == *old(self),
                whole == self@.run_deleted(target as int, remaining_len as int),
                row_ok(self@.entries, order as int),
                self.tree_ok(order as int),
                rle_sorted(self.deletes@),
                rle_end(self.deletes@) <= order + len,
                rle_sorted(self.double_deletes@),
                forall|x: int|
                    0 <= #[trigger] excess(self.double_deletes@, x) <= order + if target_order <= x
                        < target {
                        1int
                    } else {
                        0
                    },
                items_held(before@.entries, target_order as int, len as int),
                items_len(self@.entries) == items_len(before@.entries),
                forall|x: Order| #[trigger]
                    holds(self@.entries, x) == holds(before@.entries, x),
                before.index@.len() == order,
                keeps_marks(before.index@, self.index@, before.range_tree@),
                self.client_with_order == before.client_with_order,
                self.client_data == before.client_data,
                self.frontier == before.frontier,
                self.deletes == before.deletes,
                self.txns == before.txns,
                self.text_content == before.text_content,
            decreases remaining_len,
        {
            // The deleted items may not be in a run in the tree. They usually will be.
            let ghost step = *self;
            let ghost entries = self.range_tree@;
            let ghost p = place_before(entries, target as int);
            proof {
                assert(item_held(before@.entries, target as int));
                assert(holds(self@.entries, target));
                lemma_place_before(entries, target);
                assert(entry_ok(entries[p.entry]));
            }
            let cursor = self.get_cursor_before(target);
            let ghost n = run_taken(entries[p.entry], p.offset, remaining_len as int);
            proof {
                lemma_row_run(entries, p, n, order as int);
            }
            let (amt_deactivated, notes) = self.range_tree.remote_deactivate(
                cursor,
                remaining_len as usize,
            );
            proof {
                assert(step.range_tree.homes(home_record(step.index@)));
            }
            self.record_moves(&notes);
            let deleted_here = if amt_deactivated < 0 {
                (-amt_deactivated) as u32
            } else {
                amt_deactivated as u32
            };
            if amt_deactivated < 0 {
                // These items were already deleted by a different peer.
                self.double_deletes.increment_delete_range(target, deleted_here);
            }
            remaining_len = remaining_len - deleted_here;
            target = target + deleted_here;
            proof {
                let excess_before = step@.double_deletes;
                let stepped = if entries[p.entry].active() {
                    DocState { entries: run_deactivated(entries, p, n), ..step@ }
                } else {
                    let from = target - deleted_here;
                    DocState {
                        double_deletes: |key: int|
                            excess_before(key) + if from <= key < from + n {
                                1int
                            } else {
                                0
                            },
                        ..step@
                    }
                };
                assert(self@.clients =~= stepped.clients);
                assert(self@.txns =~= stepped.txns);
                assert(self@.double_deletes =~= stepped.double_deletes);
                assert(self@ == stepped);
                assert forall|x: Order| #[trigger]
                    holds(self@.entries, x) == holds(before@.entries, x) by {
                    assert(holds(self@.entries, x) == holds(entries, x));
                }
                lemma_keeps_marks(
                    step.index@,
                    self.index@,
                    self.range_tree@,
                    before.range_tree@,
                );
            }
        }
        proof {
            if len > 0 {
                assert(item_held(before@.entries, target_order as int));
            }
        }
        let ghost deleted = *self;
        self.extend_index(len);
        proof {
            assert(self@.clients =~= deleted@.clients);
            assert(self@.txns =~= deleted@.txns);
            assert(self@.double_deletes =~= deleted@.double_deletes);
            assert(self@ == whole);
        }
    }

    /// Takes one step of a remote transaction, by the operations from `order` on.
    fn apply_remote_op(&mut self, agent: AgentId, op: &RemoteOp, order: Order)
        requires
            old(self)@.clients_ok(),
            old(self)@.content_ok(order as int),
            old(self).tree_ok(order as int),
            rle_sorted(old(self).double_deletes@),
            agent < old(self).client_data@.len(),
            old(self)@.remote_op_ok(*op),
            order + remote_op_len(*op) <= old(self)@.next_order(),
            remote_op_inserted(*op) <= i32::MAX,
        ensures
            final(self)@ == old(self)@.changed(agent as int, *op, order as int),
            final(self)@.content_ok(order + remote_op_len(*op)),
            final(self).tree_ok(order + remote_op_len(*op)),
            step_marked(*old(self), *final(self), *op),
            rle_sorted(final(self).double_deletes@),
            final(self).client_with_order == old(self).client_with_order,
            final(self).client_data == old(self).client_data,
            final(self).txns == old(self).txns,
            items_len(final(self)@.entries) == items_len(old(self)@.entries)
                + remote_op_inserted(*op),
    {
        proof {
            lemma_changed_ok(self@, agent as int, *op, order as int);
        }
        match op {
            RemoteOp::Ins { origin_left, origin_right, ins_content } => {
                let ins_len = ins_content.as_str().unicode_len();
                // Convert the origins to orders.
                let origin_left = self.remote_id_to_order(origin_left);
                let origin_right = self.remote_id_to_order(origin_right);
                let item = YjsSpan { order, origin_left, origin_right, len: ins_len as i32 };
                self.integrate(agent, item, ins_content.as_str(), None);
            },
            RemoteOp::Del { id, len } => {
                let target_order = self.remote_id_to_order(id);
                let ghost before = *self;
                let entry = KVPair(order, DeleteEntry { order: target_order, len: *len });
                proof {
                    if *len > 0 {
                        assert(item_held(self@.entries, target_order + *len - 1));
                    }
                    if self.deletes@.len() > 0 {
                        assert(self.deletes@[self.deletes@.len() - 1].span_ok());
                    }
                    lemma_rle_push(self.deletes@, entry);
                }
                self.deletes.append(entry);
                proof {
                    assert(self@.clients =~= before@.clients);
                    assert(self@.txns =~= before@.txns);
                    assert(self@.double_deletes =~= before@.double_deletes);
                    assert forall|x: int| 0 <= #[trigger] excess(
                        self.double_deletes@,
                        x,
                    ) <= order by {
                        assert(0 <= (before@.double_deletes)(x) <= order);
                    }
                }
                self.delete_remotely(target_order, *len, order);
            },
        }
    }

    /// Applies a transaction of a peer, which has to be the next one of that peer.
    #[verifier::rlimit(30)]
    pub fn apply_remote_txn(&mut self, txn: &RemoteTxn)
        requires
            old(self).wf(),
            old(self)@.remote_txn_ok(*txn),
        ensures
            final(self)@ == old(self)@.after_remote_txn(*txn),
            final(self).wf(),
            remote_txn_marked(*old(self), *final(self), *txn),
    {
        let ghost before = *self;
        let ghost ops = txn.ops@;
        let ghost n = ops.len() as int;
        let agent = self.get_or_create_agent_id(txn.id.agent.as_str());
        proof {
            lemma_client_from(self@.clients, txn.id.agent@, 0);
        }
        let first_order = self.get_next_order();
        let mut next_order = first_order;
        // Figure out the order range for this transaction and assign it.
        let mut txn_len: usize = 0;
        let mut i: usize = 0;
        while i < txn.ops.len()
            invariant
                i <= ops.len(),
                ops == txn.ops@,
                n == ops.len(),
                txn_len == remote_ops_len(ops, i as int),
                remote_ops_len(ops, n) <= u32::MAX,
            decreases ops.len() - i,
        {
            proof {
                lemma_remote_ops_len_mono(ops, i + 1, n);
                lemma_remote_ops_len_mono(ops, 0, i as int);
            }
            match &txn.ops[i] {
                RemoteOp::Ins { ins_content, .. } => {
                    txn_len = txn_len + ins_content.as_str().unicode_len();
                },
                RemoteOp::Del { len, .. } => {
                    txn_len = txn_len + *len as usize;
                },
            }
            i = i + 1;
        }
        self.assign_order_to_client(
            CRDTLocation { agent, seq: txn.id.seq },
            first_order,
            txn_len,
        );
        let ghost start = *self;
        let ghost mut stages = seq![*self];
        proof {
            lemma_no_step_stage(*self, agent as int, ops, first_order as int);
        }
        // Apply the changes.
        let mut i: usize = 0;
        while i < txn.ops.len()
            invariant
                step_stages(stages, start@, agent as int, ops, first_order as int),
                stages.len() == i + 1,
                stages[i as int] == *self,
                stages[0] == start,
                i <= ops.len(),
                ops == txn.ops@,
                n == ops.len(),
                before@.remote_txn_ok(*txn),
                start@ == before@.before_remote_ops(*txn),
                agent == before@.remote_agent(*txn),
                before@.next_order() == first_order,
                start@.next_order() == first_order + remote_ops_len(ops, n),
                start@.entries == before@.entries,
                agent < start@.clients.len(),
                next_order == first_order + remote_ops_len(ops, i as int),
                self@ == start@.changed_by(agent as int, ops, i as int, first_order as int),
                self.client_with_order == start.client_with_order,
                self.client_data == start.client_data,
                self.txns == start.txns,
                self@.clients_ok(),
                self@.content_ok(next_order as int),
                self.tree_ok(next_order as int),
                rle_sorted(self.double_deletes@),
            decreases ops.len() - i,
        {
            proof {
                lemma_remote_ops_len_mono(ops, i + 1, n);
                lemma_remote_ops_len_mono(ops, 0, i as int);
                assert(start@.changed_by(
                    agent as int,
                    ops,
                    i as int,
                    first_order as int,
                ).remote_op_ok(ops[i as int]));
            }
            let op = &txn.ops[i];
            self.apply_remote_op(agent, op, next_order);
            match op {
                RemoteOp::Ins { ins_content, .. } => {
                    next_order = next_order + ins_content.as_str().unicode_len() as u32;
                },
                RemoteOp::Del { len, .. } => {
                    next_order = next_order + *len;
                },
            }
            proof {
                assert(self@.clients =~= start@.clients);
                lemma_step_stage(stages, *self, start@, agent as int, ops, first_order as int);
                stages = stages.push(*self);
            }
            i = i + 1;
        }
        let ghost changed = *self;
        proof {
            start@.lemma_changed_by(agent as int, ops, n, first_order as int);
            assert(self@.txns =~= before@.txns);
        }
        let mut parents = Branch::new();
        let mut i: usize = 0;
        while i < txn.parents.len()
            invariant
                i <= txn.parents@.len(),
                self@.clients_ok(),
                self@.clients == start@.clients,
                before@.remote_txn_ok(*txn),
                start@ == before@.before_remote_ops(*txn),
                parents@ == self@.all_resolved(txn.parents@).take(i as int),
            decreases txn.parents@.len() - i,
        {
            let id = &txn.parents[i];
            assert(start@.resolved(txn.parents@[i as int].agent@, txn.parents@[i as int].seq as int)
                is Some);
            parents.push(self.remote_id_to_order(id));
            assert(parents@ =~= self@.all_resolved(txn.parents@).take(i + 1));
            i = i + 1;
        }
        assert(parents@ =~= self@.all_resolved(txn.parents@));
        self.insert_txn(Some(parents), first_order, txn_len as u32);
        proof {
            assert(self@.clients =~= changed@.clients);
            assert(self@.double_deletes =~= changed@.double_deletes);
            assert(self@.clients_ok());
            assert(self@.content_ok(self@.next_order()));
            lemma_remote_txn_marked(stages, before, *self, *txn);
        }
    }

    /// Inserts text behind `pos` visible items, as a transaction of a peer.
    pub fn local_insert(&mut self, agent: AgentId, pos: usize, ins_content: String)
        requires
            old(self).wf(),
            agent < old(self)@.clients.len(),
            old(self)@.local_ops_ok(insertion(pos as nat, ins_content@.len())),
        ensures
            final(self)@ == old(self)@.after_local_txn(
                agent as int,
                insertion(pos as nat, ins_content@.len()),
            ),
            final(self).wf(),
            final(self).has_insertion_marked(*old(self), ins_content@.len() as int),
    {
        let ghost edit = insertion(pos as nat, ins_content@.len());
        let ops = [LocalOp { pos, ins_content, del_span: 0 }];
        assert(edits(ops@) =~= edit);
        self.apply_local_txn(agent, &ops);
        proof {
            lemma_one_edit_marked(*old(self), *self, agent as int, edit[0]);
        }
    }

    /// Deletes visible items at `pos`, as a transaction of a peer.
    pub fn local_delete(&mut self, agent: AgentId, pos: usize, del_span: usize)
        requires
            old(self).wf(),
            agent < old(self)@.clients.len(),
            old(self)@.local_ops_ok(deletion(pos as nat, del_span as nat)),
        ensures
            final(self)@ == old(self)@.after_local_txn(
                agent as int,
                deletion(pos as nat, del_span as nat),
            ),
            final(self).wf(),
            final(self).has_deletion_marked(*old(self), del_span as int),
    {
        let ghost edit = deletion(pos as nat, del_span as nat);
        let ops = [LocalOp { pos, ins_content: String::new(), del_span }];
        assert(edits(ops@) =~= edit);
        self.apply_local_txn(agent, &ops);
        proof {
            lemma_one_edit_marked(*old(self), *self, agent as int, edit[0]);
        }
    }

    /// The number of visible items.
    pub fn len(&self) -> (len: usize)
        requires
            self.wf(),
        ensures
            len == content_len(self@.entries),
    {
        self.range_tree.content_len()
    }

    /// Whether the tree counts any visible items.
    pub fn is_empty(&self) -> (empty: bool)
        requires
            self.wf(),
        ensures
            empty == (content_len(self@.entries) != 0),
    {
        proof {
            lemma_total_content(self.range_tree@);
        }
        self.range_tree.len() != 0
    }

    /// The text.
    pub fn to_string(&self) -> (text: String)
        ensures
            text@ == self@.text,
    {
        self.text_content.clone()
    }
}

impl Default for ListCRDT {
    fn default() -> (doc: Self)
        ensures
            doc.wf(),
            doc@.clients == Seq::<ClientState>::empty(),
            doc@.client_with_order == Seq::<KVPair<CRDTSpan>>::empty(),
            doc@.entries == Seq::<YjsSpan>::empty(),
            doc@.frontier == seq![ROOT_ORDER],
            doc@.deletes == Seq::<KVPair<DeleteEntry>>::empty(),
            forall|x: int| #[trigger] (doc@.double_deletes)(x) == 0,
            doc@.txns == Seq::<TxnState>::empty(),
            doc@.text == Seq::<char>::empty(),
    {
        Self::new()
    }
}

/// The last marker of an index holds items.
proof fn lemma_last_marker(index: SpaceIndex)
    requires
        index.wf(),
        index.0@.len() > 0,
    ensures
        index.0@.last().1.span_len() > 0,
{
    reveal(crate::split_list::gapless);
    assert(index.0@[index.0@.len() - 1].span_len() > 0);
}

/// More edits add more to the history.
proof fn lemma_ops_len_mono(ops: Seq<Edit>, a: int, b: int)
    requires
        0 <= a <= b,
    ensures
        0 <= ops_len(ops, a) <= ops_len(ops, b),
    decreases b,
{
    if a < b {
        lemma_ops_len_mono(ops, a, b - 1);
    } else if a > 0 {
        lemma_ops_len_mono(ops, a - 1, a - 1);
    }
}

/// More steps add more to the history.
proof fn lemma_remote_ops_len_mono(ops: Seq<RemoteOp>, a: int, b: int)
    requires
        0 <= a <= b,
    ensures
        0 <= remote_ops_len(ops, a) <= remote_ops_len(ops, b),
    decreases b,
{
    if a < b {
        lemma_remote_ops_len_mono(ops, a, b - 1);
    } else if a > 0 {
        lemma_remote_ops_len_mono(ops, a - 1, a - 1);
    }
}

} // verus!
