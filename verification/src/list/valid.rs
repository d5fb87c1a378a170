//! What holds of every document.

use crate::common::CRDTLocation;
use crate::list::{Order, ROOT_ORDER};
use crate::list::branch::lemma_outside;
use crate::list::delete::DeleteEntry;
use crate::list::deletions::deletions_counted;
use crate::list::history::{lemma_shadows_sound, shadows_sound};
use crate::list::model::{
    agent_of, client_from, deleted_item, is_before_item, is_deleted, item_held, order_of_seq,
    place_before, shadow_from, txn_holds, txn_known, txn_of, txn_pushed, ClientState, DocState,
    TxnState,
};
use crate::list::order_span::OrderSpan;
use crate::list::span::YjsSpan;
use crate::list::text::visible;
use crate::range_tree::cursor::Place;
use crate::range_tree::deactivate::{
    deactivated_from, front_deactivated, lemma_cut_items, lemma_front_items, lemma_has_order,
    run_deactivated,
};
use crate::range_tree::entry::CRDTSpan;
use crate::range_tree::homes::{distinct, has_item, holds};
use crate::range_tree::mutations::{
    cut_entry, inserted, inserted_behind, lemma_items_len_insert, lemma_items_len_update,
};
use crate::range_tree::runs::{entries_ok, entry_ok, items_len};
use crate::rle::KVPair;
use crate::rle::simple_rle::{
    covered, covers, index_of_key, item_of_key, lemma_rle_push, lemma_rle_push_covered,
    lemma_rle_push_lookup, rle_end, rle_sorted,
};
use crate::splitable_span::{glues, MergableSpan};
use vstd::prelude::*;

verus! {

/// Every run was inserted at the start of the document or behind an item of it.
pub open spec fn origins_ok(entries: Seq<YjsSpan>) -> bool {
    forall|g: int|
        0 <= g < entries.len() ==> (#[trigger] entries[g]).origin_left == ROOT_ORDER || holds(
            entries,
            entries[g].origin_left,
        )
}

/// A row of runs of different items, all of them from before the operation `order`.
pub open spec fn row_ok(entries: Seq<YjsSpan>, order: int) -> bool {
    &&& entries_ok(entries)
    &&& distinct(entries)
    &&& items_len(entries) <= order
    &&& forall|x: Order| #[trigger] holds(entries, x) ==> x < order
    &&& origins_ok(entries)
}

/// An item of an entry is held by the row.
pub proof fn lemma_held(entries: Seq<YjsSpan>, g: int, x: int)
    requires
        entries_ok(entries),
        0 <= g < entries.len(),
        entries[g].order <= x < entries[g].order + entries[g].span_len(),
    ensures
        0 <= x < ROOT_ORDER,
        has_item(entries[g], x as u32),
        holds(entries, x as u32),
{
    assert(entry_ok(entries[g]));
    lemma_has_order(entries[g], x as u32);
}

/// A held item has its place.
pub proof fn lemma_place_before(entries: Seq<YjsSpan>, x: Order)
    requires
        entries_ok(entries),
        distinct(entries),
        holds(entries, x),
    ensures
        is_before_item(entries, place_before(entries, x as int), x as int),
{
    let g = choose|g: int| 0 <= g < entries.len() && #[trigger] has_item(entries[g], x);
    assert(entry_ok(entries[g]));
    lemma_has_order(entries[g], x);
    assert(is_before_item(entries, Place { entry: g, offset: x - entries[g].order }, x as int));
}

/// An item has one place only.
pub proof fn lemma_place_unique(entries: Seq<YjsSpan>, p: Place, x: int)
    requires
        entries_ok(entries),
        distinct(entries),
        is_before_item(entries, p, x),
    ensures
        place_before(entries, x) == p,
        holds(entries, x as u32),
        0 <= x < ROOT_ORDER,
{
    let q = place_before(entries, x);
    assert(is_before_item(entries, q, x));
    lemma_held(entries, p.entry, x);
    lemma_held(entries, q.entry, x);
}

/// Cutting an entry keeps the row sound.
pub proof fn lemma_row_cut(entries: Seq<YjsSpan>, g: int, at: int, order: int)
    requires
        row_ok(entries, order),
        0 <= g < entries.len(),
        0 < at < entries[g].span_len(),
    ensures
        row_ok(cut_entry(entries, g, at), order),
{
    let now = cut_entry(entries, g, at);
    assert(entry_ok(entries[g]));
    lemma_cut_items(entries, g, at);
    assert forall|x: Order| #[trigger] holds(now, x) implies x < order by {
        assert(holds(entries, x));
    }
    assert forall|i: int| 0 <= i < now.len() implies (#[trigger] now[i]).origin_left == ROOT_ORDER
        || holds(now, now[i].origin_left) by {
        if i < g {
            assert(now[i] == entries[i]);
        } else if i == g {
            assert(entries[g].origin_left == now[i].origin_left);
        } else if i == g + 1 {
            lemma_held(entries, g, entries[g].order + at - 1);
        } else {
            assert(now[i] == entries[i - 1]);
        }
    }
}

/// Deleting the first items of an entry keeps the row sound.
pub proof fn lemma_row_front(entries: Seq<YjsSpan>, g: int, n: int, order: int)
    requires
        row_ok(entries, order),
        0 <= g < entries.len(),
        entries[g].active(),
        0 < n,
    ensures
        row_ok(front_deactivated(entries, g, n), order),
{
    let now = front_deactivated(entries, g, n);
    assert(entry_ok(entries[g]));
    lemma_front_items(entries, g, n);
    assert forall|x: Order| #[trigger] holds(now, x) implies x < order by {
        assert(holds(entries, x));
    }
    assert forall|i: int| 0 <= i < now.len() implies (#[trigger] now[i]).origin_left == ROOT_ORDER
        || holds(now, now[i].origin_left) by {
        if i < g {
            assert(now[i] == entries[i]);
        } else if i == g {
            assert(entries[g].origin_left == now[i].origin_left);
        } else if n < entries[g].span_len() {
            if i == g + 1 {
                lemma_held(entries, g, entries[g].order + n - 1);
            } else {
                assert(now[i] == entries[i - 1]);
            }
        } else {
            assert(now[i] == entries[i]);
        }
    }
}

/// Items that may be inserted by the operation `order`.
pub open spec fn fresh(item: YjsSpan, entries: Seq<YjsSpan>, order: int) -> bool {
    &&& item.span_ok()
    &&& item.len > 0
    &&& item.order == order
    &&& item.origin_left == ROOT_ORDER || holds(entries, item.origin_left)
}

/// Inserting new items as an entry of their own keeps the row sound.
proof fn lemma_row_insert(entries: Seq<YjsSpan>, i: int, item: YjsSpan, order: int)
    requires
        row_ok(entries, order),
        fresh(item, entries, order),
        0 <= i <= entries.len(),
    ensures
        row_ok(entries.insert(i, item), order + item.span_len()),
        forall|x: Order| #[trigger]
            holds(entries.insert(i, item), x) == (holds(entries, x) || has_item(item, x)),
{
    let now = entries.insert(i, item);
    lemma_items_len_insert(entries, i, item);
    assert forall|j: int| 0 <= j < now.len() implies entry_ok(#[trigger] now[j]) by {
        if j < i {
            assert(entry_ok(entries[j]));
        } else if j > i {
            assert(entry_ok(entries[j - 1]));
        }
    }
    assert forall|x: Order| #[trigger]
        holds(now, x) == (holds(entries, x) || has_item(item, x)) by {
        if holds(entries, x) {
            let j = choose|j: int| 0 <= j < entries.len() && #[trigger] has_item(entries[j], x);
            let k = if j < i { j } else { j + 1 };
            assert(has_item(now[k], x));
        }
        if has_item(item, x) {
            assert(has_item(now[i], x));
        }
        if holds(now, x) {
            let k = choose|k: int| 0 <= k < now.len() && #[trigger] has_item(now[k], x);
            if k != i {
                let j = if k < i { k } else { k - 1 };
                assert(has_item(entries[j], x));
            }
        }
    }
    assert forall|x: Order| #[trigger] holds(now, x) implies x < order + item.span_len() by {
        lemma_has_order(item, x);
    }
    assert forall|a: int, b: int, x: Order|
        0 <= a < now.len() && 0 <= b < now.len() && #[trigger] has_item(now[a], x)
            && #[trigger] has_item(now[b], x) implies a == b by {
        lemma_has_order(item, x);
        let a2 = if a < i { a } else { a - 1 };
        let b2 = if b < i { b } else { b - 1 };
        if a != i {
            assert(has_item(entries[a2], x));
            assert(holds(entries, x));
        }
        if b != i {
            assert(has_item(entries[b2], x));
            assert(holds(entries, x));
        }
    }
    assert forall|j: int| 0 <= j < now.len() implies (#[trigger] now[j]).origin_left == ROOT_ORDER
        || holds(now, now[j].origin_left) by {
        if j < i {
            assert(now[j] == entries[j]);
        } else if j > i {
            assert(now[j] == entries[j - 1]);
        }
    }
}

/// Gluing new items to an entry keeps the row sound.
proof fn lemma_row_join(entries: Seq<YjsSpan>, g: int, item: YjsSpan, order: int)
    requires
        row_ok(entries, order),
        fresh(item, entries, order),
        0 <= g < entries.len(),
        glues(entries[g], item),
    ensures
        row_ok(entries.update(g, entries[g].joined(&item)), order + item.span_len()),
        forall|x: Order| #[trigger]
            holds(entries.update(g, entries[g].joined(&item)), x) == (holds(entries, x)
                || has_item(item, x)),
{
    let was = entries[g];
    let whole = was.joined(&item);
    let now = entries.update(g, whole);
    assert(entry_ok(was));
    lemma_items_len_update(entries, g, whole);
    was.lemma_join(&item);
    assert forall|j: int| 0 <= j < now.len() implies entry_ok(#[trigger] now[j]) by {
        assert(entry_ok(entries[j]));
    }
    assert forall|x: Order| #[trigger] has_item(whole, x) == (has_item(was, x) || has_item(
        item,
        x,
    )) by {
        lemma_has_order(whole, x);
        lemma_has_order(was, x);
        lemma_has_order(item, x);
    }
    assert forall|x: Order| #[trigger]
        holds(now, x) == (holds(entries, x) || has_item(item, x)) by {
        if holds(entries, x) {
            let j = choose|j: int| 0 <= j < entries.len() && #[trigger] has_item(entries[j], x);
            assert(has_item(whole, x) || j != g);
            assert(has_item(now[j], x));
        }
        if has_item(item, x) {
            assert(has_item(whole, x));
            assert(has_item(now[g], x));
        }
        if holds(now, x) {
            let j = choose|j: int| 0 <= j < now.len() && #[trigger] has_item(now[j], x);
            if j != g {
                assert(has_item(entries[j], x));
            } else if !has_item(item, x) {
                assert(has_item(whole, x));
                assert(has_item(entries[g], x));
            }
        }
    }
    assert forall|x: Order| #[trigger] holds(now, x) implies x < order + item.span_len() by {
        lemma_has_order(item, x);
    }
    assert forall|a: int, b: int, x: Order|
        0 <= a < now.len() && 0 <= b < now.len() && #[trigger] has_item(now[a], x)
            && #[trigger] has_item(now[b], x) implies a == b by {
        lemma_has_order(item, x);
        assert(has_item(whole, x) == (has_item(was, x) || has_item(item, x)));
        if a != g {
            assert(has_item(entries[a], x));
            assert(holds(entries, x));
        }
        if b != g {
            assert(has_item(entries[b], x));
            assert(holds(entries, x));
        }
        if a != b {
            assert(has_item(entries[a], x));
            assert(has_item(entries[b], x));
        }
    }
    assert forall|j: int| 0 <= j < now.len() implies (#[trigger] now[j]).origin_left == ROOT_ORDER
        || holds(now, now[j].origin_left) by {
        assert(now[j].origin_left == entries[j].origin_left);
    }
}

/// Inserting new items keeps the row sound, and adds those items.
pub proof fn lemma_row_inserted(entries: Seq<YjsSpan>, p: Place, item: YjsSpan, order: int)
    requires
        row_ok(entries, order),
        fresh(item, entries, order),
        p.within(entries),
    ensures
        row_ok(inserted(entries, p, item), order + item.span_len()),
        items_len(inserted(entries, p, item)) == items_len(entries) + item.span_len(),
        forall|x: Order| #[trigger]
            holds(inserted(entries, p, item), x) == (holds(entries, x) || has_item(item, x)),
{
    if entries.len() == 0 {
        assert(entries.insert(0, item) =~= seq![item]);
        lemma_row_insert(entries, 0, item, order);
        lemma_items_len_insert(entries, 0, item);
    } else if p.offset == 0 && p.entry == 0 {
        lemma_row_insert(entries, 0, item, order);
        lemma_items_len_insert(entries, 0, item);
    } else if p.offset == 0 || p.offset == entries[p.entry].span_len() {
        let g = if p.offset == 0 { p.entry - 1 } else { p.entry };
        assert(inserted(entries, p, item) == inserted_behind(entries, g, item));
        if glues(entries[g], item) {
            assert(entry_ok(entries[g]));
            lemma_items_len_update(entries, g, entries[g].joined(&item));
            entries[g].lemma_join(&item);
            lemma_row_join(entries, g, item, order);
        } else {
            lemma_row_insert(entries, g + 1, item, order);
            lemma_items_len_insert(entries, g + 1, item);
        }
    } else {
        let cut = cut_entry(entries, p.entry, p.offset);
        lemma_row_cut(entries, p.entry, p.offset, order);
        lemma_cut_items(entries, p.entry, p.offset);
        lemma_row_insert(cut, p.entry + 1, item, order);
        lemma_items_len_insert(cut, p.entry + 1, item);
    }
}

/// Deleting visible items keeps the row sound, and keeps its items.
pub proof fn lemma_row_deactivated(entries: Seq<YjsSpan>, p: Place, n: int, order: int)
    requires
        row_ok(entries, order),
        0 <= p.entry,
        0 <= p.offset,
    ensures
        row_ok(deactivated_from(entries, p, n).entries, order),
        items_len(deactivated_from(entries, p, n).entries) == items_len(entries),
        forall|x: Order| #[trigger]
            holds(deactivated_from(entries, p, n).entries, x) == holds(entries, x),
    decreases n, entries.len() - p.entry, p.offset,
{
    if n <= 0 || !(0 <= p.entry < entries.len()) {
    } else {
        let entry = entries[p.entry];
        assert(entry_ok(entry));
        let next = Place { entry: p.entry + 1, offset: 0 };
        if p.offset >= entry.span_len() || !entry.active() {
            lemma_row_deactivated(entries, next, n, order);
        } else if p.offset > 0 {
            let cut = cut_entry(entries, p.entry, p.offset);
            lemma_row_cut(entries, p.entry, p.offset, order);
            lemma_cut_items(entries, p.entry, p.offset);
            lemma_row_deactivated(cut, next, n, order);
        } else {
            let front = front_deactivated(entries, p.entry, n);
            lemma_row_front(entries, p.entry, n, order);
            lemma_front_items(entries, p.entry, n);
            if n >= entry.span_len() {
                lemma_row_deactivated(front, p, n - entry.span_len(), order);
            }
        }
    }
}

/// Deleting items of one entry keeps the row sound, and keeps its items.
pub proof fn lemma_row_run(entries: Seq<YjsSpan>, p: Place, n: int, order: int)
    requires
        row_ok(entries, order),
        0 <= p.entry < entries.len(),
        0 <= p.offset < entries[p.entry].span_len(),
        0 < n <= entries[p.entry].span_len() - p.offset,
    ensures
        row_ok(run_deactivated(entries, p, n), order),
        items_len(run_deactivated(entries, p, n)) == items_len(entries),
        forall|x: Order| #[trigger]
            holds(run_deactivated(entries, p, n), x) == holds(entries, x),
{
    assert(entry_ok(entries[p.entry]));
    if !entries[p.entry].active() {
    } else if p.offset > 0 {
        let cut = cut_entry(entries, p.entry, p.offset);
        lemma_row_cut(entries, p.entry, p.offset, order);
        lemma_cut_items(entries, p.entry, p.offset);
        lemma_row_front(cut, p.entry + 1, n, order);
        lemma_front_items(cut, p.entry + 1, n);
    } else {
        lemma_row_front(entries, p.entry, n, order);
        lemma_front_items(entries, p.entry, n);
    }
}

/// A client's operations are among the first `next` of the document, in their order.
pub open spec fn client_ok(client: ClientState, next: int) -> bool {
    &&& rle_sorted(client.item_orders)
    &&& rle_end(client.item_orders) <= next
    &&& forall|i: int|
        0 <= i < client.item_orders.len() ==> (#[trigger] client.item_orders[i]).1.order
            + client.item_orders[i].1.len <= next
    &&& forall|i: int, j: int|
        0 <= i < j < client.item_orders.len() ==> (#[trigger] client.item_orders[i]).1.order
            + client.item_orders[i].1.len <= (#[trigger] client.item_orders[j]).1.order
}

/// The runs of transactions make up the first `next` operations of the document.
pub open spec fn txns_ok(txns: Seq<TxnState>, next: int) -> bool {
    &&& forall|i: int|
        0 <= i < txns.len() ==> (#[trigger] txns[i]).shadow <= txns[i].order && txns[i].order
            + txns[i].len <= next
    &&& forall|i: int, j: int|
        0 <= i < j < txns.len() ==> (#[trigger] txns[i]).order + txns[i].len <= (
        #[trigger] txns[j]).order
    &&& forall|x: int| 0 <= x < next ==> #[trigger] txn_known(txns, x)
}

/// The operation of an order is the one with the number `seq` of the client `agent`.
pub open spec fn is_operation_of(
    client_with_order: Seq<KVPair<CRDTSpan>>,
    order: int,
    agent: int,
    seq: int,
) -> bool {
    &&& covered(client_with_order, order)
    &&& item_of_key(client_with_order, order).agent == agent
    &&& item_of_key(client_with_order, order).seq == seq
}

/// The operation of an order is known by the name that its client gives it.
pub open spec fn is_named(
    clients: Seq<ClientState>,
    client_with_order: Seq<KVPair<CRDTSpan>>,
    x: int,
) -> bool {
    let loc = item_of_key(client_with_order, x);
    &&& loc.agent < clients.len()
    &&& covered(clients[loc.agent as int].item_orders, loc.seq as int)
    &&& order_of_seq(clients[loc.agent as int].item_orders, loc.seq as int) == x
}

/// Clients have different names, none of them that of the root; their operations are
/// numbered without gaps; and the operation of each order has its name.
#[verifier::opaque]
pub open spec fn names_known(
    clients: Seq<ClientState>,
    client_with_order: Seq<KVPair<CRDTSpan>>,
) -> bool {
    &&& forall|a: int| 0 <= a < clients.len() ==> (#[trigger] clients[a]).name != "ROOT"@
    &&& forall|a: int, b: int|
        0 <= a < b < clients.len() ==> (#[trigger] clients[a]).name != (#[trigger] clients[b]).name
    &&& forall|a: int, seq: int|
        0 <= a < clients.len() && 0 <= seq < rle_end(clients[a].item_orders)
            ==> #[trigger] covered(clients[a].item_orders, seq)
    &&& forall|x: int|
        0 <= x < rle_end(client_with_order) ==> #[trigger] is_named(clients, client_with_order, x)
}

/// Each of the operations before `order` either inserted an item or deleted one; those that
/// were deleted are items of the document, and visible are those that were not.
#[verifier::opaque]
pub open spec fn accounted(
    entries: Seq<YjsSpan>,
    deletes: Seq<KVPair<DeleteEntry>>,
    order: int,
) -> bool {
    &&& forall|x: int|
        0 <= x < order ==> #[trigger] item_held(entries, x) != covered(deletes, x)
    &&& forall|op: int| #[trigger]
        covered(deletes, op) ==> item_held(entries, deleted_item(deletes, op))
    &&& forall|x: Order| #[trigger]
        visible(entries).contains(x) == (holds(entries, x) && !is_deleted(deletes, x as int))
}

impl DocState {
    /// The order of each client's operation is known as that operation's.
    pub open spec fn authors_ok(self) -> bool {
        forall|a: int, seq: int|
            0 <= a < self.clients.len() && #[trigger] covered(self.clients[a].item_orders, seq)
                ==> is_operation_of(
                self.client_with_order,
                order_of_seq(self.clients[a].item_orders, seq),
                a,
                seq,
            )
    }

    /// Every operation is that of a client.
    pub open spec fn clients_ok(self) -> bool {
        &&& self.authors_ok()
        &&& names_known(self.clients, self.client_with_order)
        &&& self.clients.len() <= 0xffff
        &&& rle_sorted(self.client_with_order)
        &&& 0 <= self.next_order() <= u32::MAX
        &&& forall|x: int|
            0 <= x < self.next_order() ==> #[trigger] covered(self.client_with_order, x)
        &&& forall|i: int|
            0 <= i < self.client_with_order.len() ==> (
            #[trigger] self.client_with_order[i]).1.loc.agent < self.clients.len()
        &&& forall|a: int|
            0 <= a < self.clients.len() ==> client_ok(#[trigger] self.clients[a], self.next_order())
    }

    /// The text and what was deleted is the work of the operations before `order`.
    pub open spec fn content_ok(self, order: int) -> bool {
        &&& row_ok(self.entries, order)
        &&& rle_sorted(self.deletes)
        &&& rle_end(self.deletes) <= order
        &&& accounted(self.entries, self.deletes, order)
        &&& deletions_counted(self.deletes, self.double_deletes)
        &&& forall|x: int| 0 <= #[trigger] (self.double_deletes)(x) <= order
    }

    /// The history is that of the operations before `order`.
    pub open spec fn history_ok(self, order: int) -> bool {
        &&& forall|i: int|
            0 <= i < self.frontier.len() ==> (#[trigger] self.frontier[i]) == ROOT_ORDER
                || self.frontier[i] < order
        &&& txns_ok(self.txns, order)
        &&& shadows_sound(self.txns)
    }

    /// The document is sound.
    pub open spec fn ok(self) -> bool {
        &&& self.clients_ok()
        &&& self.content_ok(self.next_order())
        &&& self.history_ok(self.next_order())
        &&& self.text == Seq::<char>::empty()
    }
}

/// What a name stands for is the order of an operation, or the root.
pub proof fn lemma_resolved_order(doc: DocState, agent: Seq<char>, seq: int)
    requires
        doc.clients_ok(),
        doc.resolved(agent, seq) is Some,
    ensures
        0 <= doc.resolved(agent, seq)->0 <= ROOT_ORDER,
        agent != "ROOT"@ ==> doc.resolved(agent, seq)->0 < doc.next_order(),
{
    if agent != "ROOT"@ {
        lemma_client_from(doc.clients, agent, 0);
        let a = client_from(doc.clients, agent, 0)->0;
        let list = doc.clients[a].item_orders;
        assert(client_ok(doc.clients[a], doc.next_order()));
        let i = index_of_key(list, seq);
        assert(covers(list[i], seq));
        assert(list[i].1.order + list[i].1.len <= doc.next_order());
    }
}

/// A client that is found is a client.
pub proof fn lemma_client_from(clients: Seq<ClientState>, name: Seq<char>, i: int)
    requires
        0 <= i,
    ensures
        match client_from(clients, name, i) {
            Some(a) => i <= a < clients.len() && clients[a].name == name,
            None => true,
        },
    decreases clients.len() - i,
{
    if i < clients.len() && clients[i].name != name {
        lemma_client_from(clients, name, i + 1);
    }
}

/// A new client is found by its name.
pub proof fn lemma_client_pushed(clients: Seq<ClientState>, client: ClientState, i: int)
    requires
        0 <= i <= clients.len(),
        client_from(clients, client.name, i) is None,
    ensures
        client_from(clients.push(client), client.name, i) == Some(clients.len() as int),
    decreases clients.len() - i,
{
    let more = clients.push(client);
    if i < clients.len() {
        assert(more[i] == clients[i]);
        lemma_client_pushed(clients, client, i + 1);
    } else {
        assert(more[i] == client);
    }
}

/// Adding a client keeps the clients sound, and the client is then known.
pub proof fn lemma_with_agent(doc: DocState, name: Seq<char>)
    requires
        doc.clients_ok(),
        agent_of(doc.clients, name) is None ==> doc.clients.len() < 0xffff,
    ensures
        doc.with_agent(name).clients_ok(),
        agent_of(doc.with_agent(name).clients, name) is Some,
        name != "ROOT"@ ==> 0 <= agent_of(doc.with_agent(name).clients, name)->0 < doc.with_agent(
            name,
        ).clients.len(),
{
    let after = doc.with_agent(name);
    if agent_of(doc.clients, name) is None {
        let client = ClientState { name, item_orders: Seq::empty() };
        lemma_client_pushed(doc.clients, client, 0);
        assert forall|a: int| 0 <= a < after.clients.len() implies client_ok(
            #[trigger] after.clients[a],
            after.next_order(),
        ) by {
            if a < doc.clients.len() {
                assert(client_ok(doc.clients[a], doc.next_order()));
            }
        }
        assert forall|a: int, seq: int|
            0 <= a < after.clients.len() && #[trigger] covered(
                after.clients[a].item_orders,
                seq,
            ) implies is_operation_of(
            after.client_with_order,
            order_of_seq(after.clients[a].item_orders, seq),
            a,
            seq,
        ) by {
            if a < doc.clients.len() {
                assert(covered(doc.clients[a].item_orders, seq));
            }
        }
        assert forall|i: int| 0 <= i < after.client_with_order.len() implies (
        #[trigger] after.client_with_order[i]).1.loc.agent < after.clients.len() by {
            assert(doc.client_with_order[i].1.loc.agent < doc.clients.len());
        }
        lemma_pushed_known(doc.clients, client, doc.client_with_order);
    }
    lemma_client_from(after.clients, name, 0);
}

/// A name that is not found is nobody's.
proof fn lemma_client_none(clients: Seq<ClientState>, name: Seq<char>, i: int, a: int)
    requires
        0 <= i <= a < clients.len(),
        client_from(clients, name, i) is None,
    ensures
        clients[a].name != name,
    decreases a - i,
{
    if i < a {
        lemma_client_none(clients, name, i + 1, a);
    }
}

/// A new client with a new name keeps names known.
proof fn lemma_pushed_known(
    clients: Seq<ClientState>,
    client: ClientState,
    client_with_order: Seq<KVPair<CRDTSpan>>,
)
    requires
        names_known(clients, client_with_order),
        client_from(clients, client.name, 0) is None,
        client.name != "ROOT"@,
        client.item_orders.len() == 0,
    ensures
        names_known(clients.push(client), client_with_order),
{
    reveal(names_known);
    let more = clients.push(client);
    assert forall|a: int, b: int| 0 <= a < b < more.len() implies (#[trigger] more[a]).name != (
    #[trigger] more[b]).name by {
        if b == clients.len() {
            lemma_client_none(clients, client.name, 0, a);
        } else {
            assert(more[a] == clients[a] && more[b] == clients[b]);
        }
    }
    assert forall|a: int| 0 <= a < more.len() implies (#[trigger] more[a]).name != "ROOT"@ by {
        if a < clients.len() {
            assert(more[a] == clients[a]);
        }
    }
    assert forall|a: int, seq: int|
        0 <= a < more.len() && 0 <= seq < rle_end(more[a].item_orders) implies #[trigger] covered(
        more[a].item_orders,
        seq,
    ) by {
        if a < clients.len() {
            assert(more[a] == clients[a]);
            assert(covered(clients[a].item_orders, seq));
        }
    }
    assert forall|x: int| 0 <= x < rle_end(client_with_order) implies #[trigger] is_named(
        more,
        client_with_order,
        x,
    ) by {
        assert(is_named(clients, client_with_order, x));
        let a = item_of_key(client_with_order, x).agent as int;
        assert(more[a] == clients[a]);
    }
}

/// The next operations of a document, given to a client, are known as the client's, and
/// what was known before stays as it was.
pub proof fn lemma_assigned(doc: DocState, agent: int, len: int)
    requires
        doc.clients_ok(),
        0 <= agent < doc.clients.len(),
        0 <= len,
        doc.next_order() + len <= u32::MAX,
    ensures
        ({
            let first = doc.next_order();
            let seq = doc.next_seq(agent);
            let after = doc.assigned(agent, seq, first, len);
            &&& after.clients_ok()
            &&& after.next_order() == first + len
            &&& after.next_seq(agent) == seq + len
            &&& forall|j: int|
                0 <= j < len ==> #[trigger] covered(after.clients[agent].item_orders, seq + j)
                    && order_of_seq(after.clients[agent].item_orders, seq + j) == first + j
            &&& forall|a: int, x: int|
                0 <= a < doc.clients.len() && #[trigger] covered(doc.clients[a].item_orders, x)
                    ==> covered(after.clients[a].item_orders, x) && order_of_seq(
                    after.clients[a].item_orders,
                    x,
                ) == order_of_seq(doc.clients[a].item_orders, x)
            &&& forall|x: int|
                0 <= x < first ==> item_of_key(after.client_with_order, x) == #[trigger]
                    item_of_key(doc.client_with_order, x)
        }),
{
    let first = doc.next_order();
    let seq = doc.next_seq(agent);
    let after = doc.assigned(agent, seq, first, len);
    let client = doc.clients[agent];
    let cwo = doc.client_with_order;
    let span = KVPair(
        first as u32,
        CRDTSpan {
            loc: CRDTLocation { agent: agent as u16, seq: seq as u32 },
            len: len as u32,
        },
    );
    let ops = KVPair(seq as u32, OrderSpan { order: first as u32, len: len as u32 });
    assert(client_ok(client, first));
    if cwo.len() > 0 {
        assert(cwo[cwo.len() - 1].span_ok());
    }
    if client.item_orders.len() > 0 {
        assert(client.item_orders[client.item_orders.len() - 1].span_ok());
    }
    lemma_rle_push(cwo, span);
    lemma_rle_push(client.item_orders, ops);
    assert forall|x: int| 0 <= x < first implies item_of_key(after.client_with_order, x)
        == #[trigger] item_of_key(cwo, x) by {
        assert(covered(cwo, x));
        lemma_rle_push_lookup(cwo, span, x);
    }
    assert forall|x: int| 0 <= x < after.next_order() implies #[trigger] covered(
        after.client_with_order,
        x,
    ) by {
        lemma_rle_push_covered(cwo, span, x);
        if x < first {
            assert(covered(cwo, x));
        }
    }
    assert forall|i: int| 0 <= i < after.client_with_order.len() implies (
    #[trigger] after.client_with_order[i]).1.loc.agent < after.clients.len() by {
        if i < cwo.len() {
            assert(cwo[i].1.loc.agent < doc.clients.len());
        }
    }
    assert forall|c: int| 0 <= c < after.clients.len() implies client_ok(
        #[trigger] after.clients[c],
        after.next_order(),
    ) by {
        let was = doc.clients[c];
        assert(client_ok(was, first));
        let now = after.clients[c].item_orders;
        assert forall|i: int| 0 <= i < now.len() implies (#[trigger] now[i]).1.order
            + now[i].1.len <= after.next_order() by {
            if i < was.item_orders.len() {
                assert(was.item_orders[i].1.order + was.item_orders[i].1.len <= first);
            }
        }
        assert forall|i: int, j: int| 0 <= i < j < now.len() implies (#[trigger] now[i]).1.order
            + now[i].1.len <= (#[trigger] now[j]).1.order by {
            if j < was.item_orders.len() {
                assert(was.item_orders[i].1.order + was.item_orders[i].1.len
                    <= was.item_orders[j].1.order);
            } else {
                assert(was.item_orders[i].1.order + was.item_orders[i].1.len <= first);
            }
        }
    }
    assert forall|a: int, x: int|
        0 <= a < doc.clients.len() && #[trigger] covered(
            doc.clients[a].item_orders,
            x,
        ) implies covered(after.clients[a].item_orders, x) && order_of_seq(
        after.clients[a].item_orders,
        x,
    ) == order_of_seq(doc.clients[a].item_orders, x) by {
        if a == agent {
            lemma_rle_push_lookup(client.item_orders, ops, x);
            lemma_rle_push_covered(client.item_orders, ops, x);
        }
    }
    assert forall|j: int| 0 <= j < len implies #[trigger] covered(
        after.clients[agent].item_orders,
        seq + j,
    ) && order_of_seq(after.clients[agent].item_orders, seq + j) == first + j by {
        lemma_rle_push_lookup(client.item_orders, ops, seq + j);
        lemma_rle_push_covered(client.item_orders, ops, seq + j);
    }
    assert(names_known(after.clients, after.client_with_order)) by {
        reveal(names_known);
        assert forall|a: int, b: int| 0 <= a < b < after.clients.len() implies (
        #[trigger] after.clients[a]).name != (#[trigger] after.clients[b]).name by {
            assert(doc.clients[a].name != doc.clients[b].name);
        }
        assert forall|a: int| 0 <= a < after.clients.len() implies (
        #[trigger] after.clients[a]).name != "ROOT"@ by {
            assert(doc.clients[a].name != "ROOT"@);
        }
        assert forall|a: int, x: int|
            0 <= a < after.clients.len() && 0 <= x < rle_end(
                after.clients[a].item_orders,
            ) implies #[trigger] covered(after.clients[a].item_orders, x) by {
            if a == agent && x >= seq {
                assert(covered(after.clients[agent].item_orders, seq + (x - seq)));
            } else {
                assert(covered(doc.clients[a].item_orders, x));
            }
        }
        assert forall|x: int| 0 <= x < rle_end(after.client_with_order) implies #[trigger] is_named(
            after.clients,
            after.client_with_order,
            x,
        ) by {
            if x < first {
                assert(is_named(doc.clients, cwo, x));
                assert(item_of_key(after.client_with_order, x) == item_of_key(cwo, x));
                let loc = item_of_key(cwo, x);
                assert(covered(doc.clients[loc.agent as int].item_orders, loc.seq as int));
            } else {
                let j = x - first;
                lemma_rle_push_lookup(cwo, span, x);
                lemma_rle_push_covered(cwo, span, x);
                assert(covered(after.clients[agent].item_orders, seq + j));
            }
        }
    }
    assert forall|a: int, x: int|
        0 <= a < after.clients.len() && #[trigger] covered(
            after.clients[a].item_orders,
            x,
        ) implies is_operation_of(
        after.client_with_order,
        order_of_seq(after.clients[a].item_orders, x),
        a,
        x,
    ) by {
        if a == agent {
            lemma_rle_push_covered(client.item_orders, ops, x);
        }
        if covered(doc.clients[a].item_orders, x) {
            let i = index_of_key(doc.clients[a].item_orders, x);
            assert(covers(doc.clients[a].item_orders[i], x));
            assert(client_ok(doc.clients[a], first));
            assert(doc.clients[a].item_orders[i].1.order + doc.clients[a].item_orders[i].1.len
                <= first);
            let o = order_of_seq(doc.clients[a].item_orders, x);
            assert(is_operation_of(cwo, o, a, x));
            assert(item_of_key(after.client_with_order, o) == item_of_key(cwo, o));
            assert(covered(after.client_with_order, o));
        } else {
            let j = x - seq;
            assert(covered(after.clients[agent].item_orders, seq + j));
            lemma_rle_push_lookup(cwo, span, first + j);
            lemma_rle_push_covered(cwo, span, first + j);
            assert(is_operation_of(after.client_with_order, first + j, agent, seq + j));
        }
    }
}

/// Adding the next transaction keeps the history sound.
pub proof fn lemma_txn_pushed(txns: Seq<TxnState>, txn: TxnState, next: int)
    requires
        txns_ok(txns, next),
        txn.order == next,
        txn.shadow <= txn.order,
        next + txn.len <= u32::MAX,
    ensures
        txns_ok(txn_pushed(txns, txn), next + txn.len),
{
    let now = txn_pushed(txns, txn);
    let n = txns.len() as int;
    if n > 0 {
        assert(txns[n - 1].order + txns[n - 1].len <= next);
    }
    assert forall|i: int| 0 <= i < now.len() implies (#[trigger] now[i]).shadow <= now[i].order
        && now[i].order + now[i].len <= next + txn.len by {
        if i < n {
            assert(txns[i].shadow <= txns[i].order);
        }
    }
    assert forall|i: int, j: int| 0 <= i < j < now.len() implies (#[trigger] now[i]).order
        + now[i].len <= (#[trigger] now[j]).order by {
        if j < n {
            assert(txns[i].order + txns[i].len <= txns[j].order);
        } else {
            assert(txns[i].order + txns[i].len <= next);
        }
    }
    assert forall|x: int| 0 <= x < next + txn.len implies #[trigger] txn_known(now, x) by {
        if x < next {
            assert(txn_known(txns, x));
            let i = choose|i: int| 0 <= i < txns.len() && #[trigger] txn_holds(txns[i], x);
            assert(txn_holds(now[i], x));
        } else {
            assert(txn_holds(now[now.len() - 1], x));
        }
    }
}

/// The operations that came before without a gap start no later than where they are looked
/// for.
pub proof fn lemma_shadow_bound(txns: Seq<TxnState>, parents: Seq<u32>, shadow: int, next: int)
    requires
        txns_ok(txns, next),
        0 <= shadow <= next,
    ensures
        0 <= shadow_from(txns, parents, shadow) <= shadow,
    decreases shadow,
{
    if shadow >= 1 && parents.contains((shadow - 1) as u32) {
        assert(txn_known(txns, shadow - 1));
        let i = choose|i: int| 0 <= i < txns.len() && #[trigger] txn_holds(txns[i], shadow - 1);
        let txn = txn_of(txns, shadow - 1);
        let j = choose|j: int| 0 <= j < txns.len() && #[trigger] txn_holds(txns[j], shadow - 1);
        assert(txn == txns[j]);
        assert(txns[j].shadow <= txns[j].order);
        lemma_shadow_bound(txns, parents, txn.shadow as int, next);
    }
}

/// Adding a transaction of the next operations keeps the history sound.
pub proof fn lemma_with_txn_ok(doc: DocState, parents: Option<Seq<u32>>, first: int, len: int)
    requires
        doc.history_ok(first),
        0 <= first,
        0 <= len,
        1 <= first + len <= u32::MAX,
    ensures
        doc.with_txn(parents, first, len).history_ok(first + len),
{
    let after = doc.with_txn(parents, first, len);
    let on = match parents {
        Some(orders) => orders,
        None => doc.frontier,
    };
    lemma_shadow_bound(doc.txns, on, first, first);
    let txn = TxnState {
        order: first as u32,
        len: len as u32,
        shadow: shadow_from(doc.txns, on, first) as u32,
        parents: on,
    };
    lemma_txn_pushed(doc.txns, txn, first);
    lemma_shadows_sound(doc.txns, txn, first);
    assert forall|i: int| 0 <= i < after.frontier.len() implies (#[trigger] after.frontier[i])
        == ROOT_ORDER || after.frontier[i] < first + len by {
        if parents is Some && i < after.frontier.len() - 1 {
            lemma_outside(doc.frontier, on, i);
            let j = choose|j: int|
                0 <= j < doc.frontier.len() && doc.frontier[j] == after.frontier[i];
            assert(doc.frontier[j] == ROOT_ORDER || doc.frontier[j] < first);
        }
    }
}

} // verus!
