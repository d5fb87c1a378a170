use rand::{Rng, SeedableRng};
use rand::rngs::SmallRng;
use range_crdt::common::{AgentId, LocalOp};
use range_crdt::list::{Order, ROOT_ORDER};
use range_crdt::list::doc::{ListCRDT, USE_INNER_ROPE};
use range_crdt::list::external_txn::{RemoteId, RemoteOp, RemoteTxn};
use range_crdt::range_tree::entry::EntryTraits;
use range_crdt::splitable_span::MergableSpan;
use ropey::Rope;
use std::collections::BTreeSet;

/// All items of a document in their order in the text, and whether they are visible.
fn items(doc: &ListCRDT) -> Vec<(Order, bool)> {
    let tree = &doc.range_tree;
    let mut all = Vec::new();
    let mut cursor = tree.iter();
    if tree.leaves[cursor.node.0].len_entries() == 0 {
        return all;
    }
    loop {
        let entry = cursor.get_entry(tree);
        for k in 0..MergableSpan::len(&entry) {
            all.push((entry.at_offset(k), entry.is_activated()));
        }
        if !cursor.next_entry(tree) {
            return all;
        }
    }
}

fn orders(doc: &ListCRDT) -> Vec<Order> {
    items(doc).into_iter().map(|(order, _)| order).collect()
}

fn visible(doc: &ListCRDT) -> Vec<Order> {
    items(doc).into_iter().filter(|(_, shown)| *shown).map(|(order, _)| order).collect()
}

fn check(doc: &ListCRDT) {
    assert!(doc.range_tree.check());
    assert!(doc.index.check());
    assert_eq!(doc.len(), visible(doc).len());
    // Each operation inserted an item or deleted one; the visible items are those that no
    // operation deleted.
    let mut deleted = BTreeSet::new();
    let mut ops = BTreeSet::new();
    for (op, target, len) in deletes(doc) {
        for k in 0..len {
            assert!(ops.insert(op + k));
            deleted.insert(target + k);
        }
    }
    for (order, shown) in items(doc) {
        assert!(ops.insert(order));
        assert_eq!(shown, !deleted.contains(&order));
    }
    assert_eq!(ops, (0..ops.len() as Order).collect());
    assert_eq!(doc.len(), items(doc).len() - deleted.len());
    // Every operation has its name, and every name its operation.
    // A client's operations are numbered in their order, and its next number counts them.
    let mut named = 0;
    for (agent, client) in doc.client_data.iter().enumerate() {
        for seq in 0..client.get_next_seq() {
            let loc = doc.client_with_order.get(client.seq_to_order(seq));
            assert_eq!((loc.agent as usize, loc.seq), (agent, seq));
            assert!(seq == 0 || client.seq_to_order(seq - 1) < client.seq_to_order(seq));
        }
        let count = (0..ops.len() as Order)
            .filter(|order| doc.client_with_order.get(*order).agent as usize == agent)
            .count();
        assert_eq!(client.get_next_seq() as usize, count);
        named += count;
    }
    assert_eq!(named, ops.len());
    for (order, _) in items(doc) {
        let leaf = doc.index.entry_at(order as usize).unwrap_ptr();
        let cursor = doc.range_tree.cursor_before_item(order, leaf);
        assert_eq!(cursor.get_item(&doc.range_tree), Some(order));
    }
}

fn frontier(doc: &ListCRDT) -> Vec<Order> {
    (0..doc.frontier.len()).map(|i| doc.frontier.get(i)).collect()
}

fn deletes(doc: &ListCRDT) -> Vec<(Order, Order, u32)> {
    doc.deletes.0.iter().map(|pair| (pair.0, pair.1.order, pair.1.len)).collect()
}

fn double_deletes(doc: &ListCRDT) -> Vec<(Order, u32, u32)> {
    doc.double_deletes.0.iter().map(|pair| (pair.0, pair.1.len, pair.1.excess_deletes)).collect()
}

#[test]
fn smoke() {
    let mut doc = ListCRDT::new();
    doc.get_or_create_agent_id("seph"); // 0
    doc.local_insert(0, 0, "hi".into());
    doc.local_insert(0, 1, "yooo".into());
    doc.local_delete(0, 0, 3);
    // "hyoooi"
    assert_eq!(items(&doc), vec![
        (0, false), (2, false), (3, false), (4, true), (5, true), (1, true),
    ]);
    check(&doc);
}

fn random_str(len: usize, rng: &mut SmallRng) -> String {
    let mut str = String::new();
    let alphabet: Vec<char> = "abcdefghijklmnop_".chars().collect();
    for _ in 0..len {
        str.push(alphabet[rng.gen_range(0..alphabet.len())]);
    }
    str
}

fn make_random_change(doc: &mut ListCRDT, rope: &mut Rope, agent: AgentId, rng: &mut SmallRng) {
    let doc_len = doc.len();
    let insert_weight = if doc_len < 100 { 0.55 } else { 0.45 };
    if doc_len == 0 || rng.gen_bool(insert_weight) {
        // Insert something.
        let pos = rng.gen_range(0..=doc_len);
        let len: usize = rng.gen_range(1..2); // Ideally skew toward smaller inserts.

        let content = random_str(len as usize, rng);
        rope.insert(pos, content.as_str());
        doc.local_insert(agent, pos, content.into())
    } else {
        // Delete something
        let pos = rng.gen_range(0..doc_len);
        let span = rng.gen_range(1..=usize::min(10, doc_len - pos));
        rope.remove(pos..pos + span);
        doc.local_delete(agent, pos, span)
    }
    assert!(doc.index.check());
}

#[test]
fn random_single_document() {
    let mut rng = SmallRng::seed_from_u64(7);
    let mut doc = ListCRDT::new();

    let agent = doc.get_or_create_agent_id("seph");
    let mut expected_content = Rope::new();

    for _i in 0..1000 {
        make_random_change(&mut doc, &mut expected_content, agent, &mut rng);
        if USE_INNER_ROPE {
            assert_eq!(doc.text_content, expected_content.to_string());
        }
    }
    assert_eq!(doc.client_data[0].item_orders.num_entries(), 1);
    assert_eq!(doc.client_with_order.num_entries(), 1);
    assert_eq!(doc.len(), expected_content.len_chars());
    check(&doc);
}

#[test]
fn deletes_merged() {
    let mut doc = ListCRDT::new();
    doc.get_or_create_agent_id("seph");
    doc.local_insert(0, 0, "abc".into());
    doc.local_delete(0, 0, 1);
    doc.local_delete(0, 0, 1);
    doc.local_delete(0, 0, 1);
    assert_eq!(deletes(&doc), vec![(3, 0, 3)]);
    assert_eq!(visible(&doc), vec![]);
    check(&doc);
}

fn root_id() -> RemoteId {
    RemoteId { agent: "ROOT".into(), seq: u32::MAX }
}

fn id(agent: &str, seq: u32) -> RemoteId {
    RemoteId { agent: agent.into(), seq }
}

#[test]
fn remote_txns() {
    let mut doc_remote = ListCRDT::new();
    doc_remote.apply_remote_txn(&RemoteTxn {
        id: RemoteId { agent: "seph".into(), seq: 0 },
        parents: vec![root_id()],
        ops: vec![RemoteOp::Ins {
            origin_left: root_id(),
            origin_right: root_id(),
            ins_content: "hi".into(),
        }],
    });

    let mut doc_local = ListCRDT::new();
    doc_local.get_or_create_agent_id("seph");
    doc_local.local_insert(0, 0, "hi".into());
    assert_eq!(doc_remote.frontier, doc_local.frontier);
    assert_eq!(doc_remote.txns, doc_local.txns);
    assert_eq!(doc_remote.text_content, doc_local.text_content);
    assert_eq!(doc_remote.deletes, doc_local.deletes);

    doc_remote.apply_remote_txn(&RemoteTxn {
        id: RemoteId { agent: "seph".into(), seq: 2 },
        parents: vec![RemoteId { agent: "seph".into(), seq: 1 }],
        ops: vec![RemoteOp::Del { id: RemoteId { agent: "seph".into(), seq: 0 }, len: 2 }],
    });

    doc_local.local_delete(0, 0, 2);

    assert_eq!(doc_remote.frontier, doc_local.frontier);
    assert_eq!(doc_remote.txns, doc_local.txns);
    assert_eq!(doc_remote.text_content, doc_local.text_content);
    assert_eq!(doc_remote.deletes, doc_local.deletes);
    assert_eq!(items(&doc_remote), items(&doc_local));
    check(&doc_remote);
    check(&doc_local);
}

#[test]
fn new_document_is_blank() {
    let doc = ListCRDT::default();
    assert_eq!(doc.len(), 0);
    assert_eq!(frontier(&doc), vec![ROOT_ORDER]);
    assert_eq!(doc.to_string(), "");
    assert_eq!(doc.client_data.len(), 0);
    assert_eq!(doc.txns.num_entries(), 0);
    assert_eq!(items(&doc), vec![]);
    assert!(doc.range_tree.check());
    assert!(doc.index.check());
}

#[test]
fn is_empty_tells_whether_anything_is_visible() {
    let mut doc = ListCRDT::new();
    assert!(!doc.is_empty());
    let agent = doc.get_or_create_agent_id("seph");
    doc.local_insert(agent, 0, "x".into());
    assert!(doc.is_empty());
    doc.local_delete(agent, 0, 1);
    assert!(!doc.is_empty());
}

#[test]
fn agents_are_known_once() {
    let mut doc = ListCRDT::new();
    assert_eq!(doc.get_or_create_agent_id("seph"), 0);
    assert_eq!(doc.get_or_create_agent_id("mike"), 1);
    assert_eq!(doc.get_or_create_agent_id("seph"), 0);
    assert_eq!(doc.get_or_create_agent_id("ROOT"), AgentId::MAX);
    assert_eq!(doc.client_data.len(), 2);
    assert_eq!(doc.client_data[1].name, "mike");
}

/// A row of orders, edited as the document is.
fn edit(row: &mut Vec<Order>, pos: usize, del: usize, ins: usize, order: &mut Order) {
    row.drain(pos..pos + del);
    *order += del as Order;
    for k in 0..ins {
        row.insert(pos + k, *order + k as Order);
    }
    *order += ins as Order;
}

#[test]
fn local_edits_edit_the_text() {
    let mut rng = SmallRng::seed_from_u64(11);
    let mut doc = ListCRDT::new();
    let agent = doc.get_or_create_agent_id("seph");
    let mut row: Vec<Order> = Vec::new();
    let mut order: Order = 0;
    for i in 0..600 {
        let mut ops = Vec::new();
        for _ in 0..rng.gen_range(1..4) {
            let pos = rng.gen_range(0..=row.len());
            let del = rng.gen_range(0..=usize::min(5, row.len() - pos));
            let ins = rng.gen_range(0..6);
            if del + ins > 0 {
                edit(&mut row, pos, del, ins, &mut order);
            }
            ops.push(LocalOp { pos, ins_content: "é".repeat(ins), del_span: del });
        }
        if order > 0 {
            doc.apply_local_txn(agent, &ops);
        }
        assert_eq!(doc.len(), row.len());
        if i % 50 == 0 {
            assert_eq!(visible(&doc), row);
            check(&doc);
        }
    }
    assert_eq!(visible(&doc), row);
    check(&doc);
    assert_eq!(frontier(&doc), vec![order - 1]);
    assert_eq!(doc.client_data[0].get_next_seq(), order);
    assert_eq!(doc.client_data[0].seq_to_order(order - 1), order - 1);
    assert!(doc.range_tree.stats().depth >= 1);
    // Positions are those of the visible items.
    for (pos, item) in row.iter().enumerate() {
        let cursor = doc.range_tree.cursor_at_content_pos(pos, false);
        assert_eq!(cursor.get_item(&doc.range_tree), Some(*item));
    }
    // The history is one run.
    assert_eq!(doc.txns.num_entries(), 1);
    assert_eq!((doc.txns.0[0].order, doc.txns.0[0].len, doc.txns.0[0].shadow), (0, order, 0));
    assert_eq!(doc.txns.0[0].parents.len(), 1);
    assert_eq!(doc.txns.0[0].parents.get(0), ROOT_ORDER);
}

#[test]
fn local_delete_logs_the_items() {
    let mut doc = ListCRDT::new();
    let agent = doc.get_or_create_agent_id("seph");
    doc.local_insert(agent, 0, "abcd".into()); // 0..4
    doc.local_insert(agent, 2, "XY".into()); // 4..6: a b X Y c d
    assert_eq!(visible(&doc), vec![0, 1, 4, 5, 2, 3]);
    doc.local_delete(agent, 1, 4); // 6..10: b X Y c
    assert_eq!(visible(&doc), vec![0, 3]);
    assert_eq!(orders(&doc), vec![0, 1, 4, 5, 2, 3]);
    assert_eq!(deletes(&doc), vec![(6, 1, 1), (7, 4, 2), (9, 2, 1)]);
    check(&doc);
}

fn ins(agent: &str, seq: u32, parents: Vec<RemoteId>, left: RemoteId, right: RemoteId, len: usize)
    -> RemoteTxn {
    RemoteTxn {
        id: id(agent, seq),
        parents,
        ops: vec![RemoteOp::Ins {
            origin_left: left,
            origin_right: right,
            ins_content: "x".repeat(len),
        }],
    }
}

#[test]
fn concurrent_inserts_are_ordered_by_name() {
    // Both peers insert into the blank document.
    let by_ann = ins("ann", 0, vec![root_id()], root_id(), root_id(), 2);
    let by_bob = ins("bob", 0, vec![root_id()], root_id(), root_id(), 3);

    let mut doc = ListCRDT::new();
    doc.apply_remote_txn(&by_ann); // 0..2
    doc.apply_remote_txn(&by_bob); // 2..5
    assert_eq!(visible(&doc), vec![0, 1, 2, 3, 4]);
    assert_eq!(frontier(&doc), vec![1, 4]);
    check(&doc);

    let mut doc = ListCRDT::new();
    doc.apply_remote_txn(&by_bob); // 0..3
    doc.apply_remote_txn(&by_ann); // 3..5
    assert_eq!(visible(&doc), vec![3, 4, 0, 1, 2]);
    assert_eq!(frontier(&doc), vec![2, 4]);
    check(&doc);
}

#[test]
fn inserted_items_are_behind_their_origin() {
    let mut doc = ListCRDT::new();
    doc.apply_remote_txn(&ins("ann", 0, vec![root_id()], root_id(), root_id(), 3)); // 0..3
    doc.apply_remote_txn(&ins("bob", 0, vec![id("ann", 2)], id("ann", 0), id("ann", 1), 1)); // 3
    assert_eq!(orders(&doc), vec![0, 3, 1, 2]);
    doc.apply_remote_txn(&ins("cat", 0, vec![id("ann", 2)], id("ann", 0), id("ann", 1), 1)); // 4
    assert_eq!(orders(&doc), vec![0, 3, 4, 1, 2]);
    doc.apply_remote_txn(&ins("abe", 0, vec![id("ann", 2)], id("ann", 0), id("ann", 1), 1)); // 5
    assert_eq!(orders(&doc), vec![0, 5, 3, 4, 1, 2]);
    assert_eq!(frontier(&doc), vec![3, 4, 5]);
    check(&doc);
}

#[test]
fn frontier_advances() {
    let mut doc = ListCRDT::new();
    doc.apply_remote_txn(&ins("ann", 0, vec![root_id()], root_id(), root_id(), 1)); // 0
    doc.apply_remote_txn(&ins("bob", 0, vec![root_id()], root_id(), root_id(), 1)); // 1
    assert_eq!(frontier(&doc), vec![0, 1]);
    // On top of one of them.
    doc.apply_remote_txn(&ins("ann", 1, vec![id("ann", 0)], id("ann", 0), root_id(), 1)); // 2
    assert_eq!(frontier(&doc), vec![1, 2]);
    // On top of both.
    doc.apply_remote_txn(&ins(
        "bob", 1, vec![id("bob", 0), id("ann", 1)], id("ann", 1), root_id(), 1,
    )); // 3
    assert_eq!(frontier(&doc), vec![3]);
    // A local transaction is on top of the whole document.
    let agent = doc.get_or_create_agent_id("cat");
    doc.local_insert(agent, 0, "x".into()); // 4
    assert_eq!(frontier(&doc), vec![4]);
    let txns: Vec<(Order, u32, Order, Vec<Order>)> = doc.txns.0.iter().map(|txn| {
        let parents = (0..txn.parents.len()).map(|i| txn.parents.get(i)).collect();
        (txn.order, txn.len, txn.shadow, parents)
    }).collect();
    assert_eq!(txns, vec![
        (0, 1, 0, vec![ROOT_ORDER]),
        (1, 1, 1, vec![ROOT_ORDER]),
        (2, 1, 2, vec![0]),
        (3, 2, 1, vec![1, 2]),
    ]);
    check(&doc);
}

#[test]
fn transactions_in_a_row_are_one_run() {
    let mut doc = ListCRDT::new();
    let agent = doc.get_or_create_agent_id("seph");
    doc.local_insert(agent, 0, "ab".into());
    doc.local_insert(agent, 2, "cd".into());
    assert_eq!(doc.txns.num_entries(), 1);
    assert_eq!(doc.txns.0[0].len, 4);
    assert_eq!(doc.txns.0[0].shadow, 0);
    assert!(doc.txns.0[0].parents.contains(ROOT_ORDER));
    assert_eq!(doc.range_tree.stats().num_entries, 1);
}

#[test]
fn transactions_get_the_next_numbers() {
    let mut doc = ListCRDT::new();
    let ann = doc.get_or_create_agent_id("ann");
    let bob = doc.get_or_create_agent_id("bob");
    doc.local_insert(ann, 0, "abc".into()); // 0..3
    doc.local_insert(bob, 0, "xy".into()); // 3..5
    doc.local_delete(ann, 0, 1); // 5
    assert_eq!(doc.client_data[ann as usize].get_next_seq(), 4);
    assert_eq!(doc.client_data[bob as usize].get_next_seq(), 2);
    for (seq, order) in [(0, 0), (1, 1), (2, 2), (3, 5)] {
        assert_eq!(doc.client_data[ann as usize].seq_to_order(seq), order);
        let loc = doc.client_with_order.get(order);
        assert_eq!((loc.agent, loc.seq), (ann, seq));
    }
    for (seq, order) in [(0, 3), (1, 4)] {
        assert_eq!(doc.client_data[bob as usize].seq_to_order(seq), order);
        let loc = doc.client_with_order.get(order);
        assert_eq!((loc.agent, loc.seq), (bob, seq));
    }
    assert_eq!(doc.client_with_order.num_entries(), 3);
}

/// Two documents are the same in all that they keep.
fn assert_same(a: &ListCRDT, b: &ListCRDT) {
    assert_eq!(items(a), items(b));
    assert_eq!(deletes(a), deletes(b));
    assert_eq!(double_deletes(a), double_deletes(b));
    assert_eq!(a.client_with_order.0, b.client_with_order.0);
    assert_eq!(a.client_data.len(), b.client_data.len());
    for (x, y) in a.client_data.iter().zip(b.client_data.iter()) {
        assert_eq!(x.name, y.name);
        assert_eq!(x.item_orders.0, y.item_orders.0);
    }
    assert_eq!(frontier(a), frontier(b));
    assert_eq!(a.txns.0, b.txns.0);
}

fn local_op(pos: usize, del_span: usize, ins: usize) -> LocalOp {
    LocalOp { pos, ins_content: "x".repeat(ins), del_span }
}

#[test]
fn edits_in_one_transaction_or_in_two() {
    let mut rng = SmallRng::seed_from_u64(31);
    let mut one = ListCRDT::new();
    let mut two = ListCRDT::new();
    for doc in [&mut one, &mut two] {
        doc.get_or_create_agent_id("ann");
        doc.get_or_create_agent_id("bob");
        doc.local_insert(0, 0, "abcdef".into());
        // A branch of its own.
        doc.apply_remote_txn(&ins("eve", 0, vec![root_id()], root_id(), root_id(), 3));
    }
    for round in 0..60 {
        let agent: AgentId = rng.gen_range(0..2);
        let mut ops: Vec<(usize, usize, usize)> = Vec::new();
        let mut len = one.len();
        for _ in 0..rng.gen_range(2..6) {
            let pos = rng.gen_range(0..=len);
            let del = rng.gen_range(0..=usize::min(4, len - pos));
            let ins = rng.gen_range(1..4);
            len = len - del + ins;
            ops.push((pos, del, ins));
        }
        let at = rng.gen_range(1..ops.len());
        let made = |part: &[(usize, usize, usize)]| -> Vec<LocalOp> {
            part.iter().map(|op| local_op(op.0, op.1, op.2)).collect()
        };
        one.apply_local_txn(agent, &made(&ops));
        two.apply_local_txn(agent, &made(&ops[..at]));
        two.apply_local_txn(agent, &made(&ops[at..]));
        assert_same(&one, &two);
        if round % 20 == 0 {
            check(&one);
            check(&two);
        }
    }
}

#[test]
fn a_transaction_without_edits_goes_to_the_head_of_the_history() {
    let branched = || {
        let mut doc = ListCRDT::new();
        doc.get_or_create_agent_id("ann");
        doc.local_insert(0, 0, "ab".into()); // 0..2
        doc.apply_remote_txn(&ins("eve", 0, vec![root_id()], root_id(), root_id(), 2)); // 2..4
        doc
    };
    let mut doc = branched();
    assert_eq!(frontier(&doc), vec![1, 3]);
    doc.apply_local_txn(0, &[]);
    assert_eq!(frontier(&doc), vec![3]);
    doc.apply_local_txn(0, &[local_op(0, 0, 1)]);
    let mut other = branched();
    other.apply_local_txn(0, &[local_op(0, 0, 1)]);
    assert_eq!(items(&doc), items(&other));
    let shadows = |doc: &ListCRDT| -> Vec<(Order, u32, Order)> {
        doc.txns.0.iter().map(|txn| (txn.order, txn.len, txn.shadow)).collect()
    };
    assert_eq!(shadows(&doc), vec![(0, 2, 0), (2, 2, 2), (4, 0, 0), (4, 1, 2)]);
    assert_eq!(shadows(&other), vec![(0, 2, 0), (2, 2, 2), (4, 1, 0)]);
    // In a history without branches it leaves no trace.
    let mut doc = ListCRDT::new();
    let mut other = ListCRDT::new();
    for doc in [&mut doc, &mut other] {
        doc.get_or_create_agent_id("ann");
        doc.local_insert(0, 0, "ab".into());
    }
    doc.apply_local_txn(0, &[]);
    doc.apply_local_txn(0, &[local_op(1, 1, 2)]);
    other.apply_local_txn(0, &[local_op(1, 1, 2)]);
    assert_same(&doc, &other);
}

#[test]
fn deleting_operations_are_marked_with_the_leaf_before_them() {
    let mut rng = SmallRng::seed_from_u64(41);
    let mut doc = ListCRDT::new();
    let agent = doc.get_or_create_agent_id("seph");
    let leaf = |doc: &ListCRDT, order: usize| doc.index.entry_at(order).unwrap_ptr();
    let mut marks = Vec::new();
    for round in 0..400 {
        let first = doc.client_data[0].get_next_seq() as usize;
        let pos = rng.gen_range(0..=doc.len());
        let len = usize::min(rng.gen_range(1..4), doc.len() - pos);
        if round % 3 == 2 && len > 0 {
            if round % 2 == 0 {
                doc.local_delete(agent, pos, len);
            } else {
                let target = visible(&doc)[pos];
                let parent = id("seph", first as u32 - 1);
                doc.apply_remote_txn(&del("seph", first as u32, vec![parent], id("seph", target), 1));
            }
            for order in first..doc.client_data[0].get_next_seq() as usize {
                assert_eq!(leaf(&doc, order), leaf(&doc, first - 1));
                marks.push((order, leaf(&doc, order)));
            }
        } else {
            doc.local_insert(agent, pos, "abc".into());
        }
        for (order, mark) in &marks {
            assert_eq!(leaf(&doc, *order), *mark);
        }
    }
    assert!(doc.range_tree.leaves.len() > 4);
    assert!(marks.iter().any(|(_, mark)| mark.0 != 0));
    check(&doc);
}

fn del(agent: &str, seq: u32, parents: Vec<RemoteId>, target: RemoteId, len: u32) -> RemoteTxn {
    RemoteTxn { id: id(agent, seq), parents, ops: vec![RemoteOp::Del { id: target, len }] }
}

#[test]
fn items_deleted_twice_are_counted() {
    let mut doc = ListCRDT::new();
    doc.apply_remote_txn(&ins("ann", 0, vec![root_id()], root_id(), root_id(), 6)); // 0..6
    doc.apply_remote_txn(&del("ann", 6, vec![id("ann", 5)], id("ann", 1), 3)); // 6..9
    assert_eq!(visible(&doc), vec![0, 4, 5]);
    assert_eq!(double_deletes(&doc), vec![]);
    doc.apply_remote_txn(&del("bob", 0, vec![id("ann", 5)], id("ann", 2), 4)); // 9..13
    assert_eq!(visible(&doc), vec![0]);
    assert_eq!(double_deletes(&doc), vec![(2, 2, 1)]);
    doc.apply_remote_txn(&del("cat", 0, vec![id("ann", 5)], id("ann", 1), 3)); // 13..16
    assert_eq!(double_deletes(&doc), vec![(1, 1, 1), (2, 2, 2)]);
    assert_eq!(orders(&doc), vec![0, 1, 2, 3, 4, 5]);
    assert_eq!(deletes(&doc), vec![(6, 1, 3), (9, 2, 4), (13, 1, 3)]);
    check(&doc);
}

#[test]
fn remote_deletes_follow_items_apart() {
    let mut doc = ListCRDT::new();
    doc.apply_remote_txn(&ins("ann", 0, vec![root_id()], root_id(), root_id(), 4)); // 0..4
    doc.apply_remote_txn(&ins("bob", 0, vec![id("ann", 3)], id("ann", 1), id("ann", 2), 2)); // 4..6
    assert_eq!(visible(&doc), vec![0, 1, 4, 5, 2, 3]);
    doc.apply_remote_txn(&del("ann", 4, vec![id("bob", 1)], id("ann", 0), 4)); // 6..10
    assert_eq!(visible(&doc), vec![4, 5]);
    assert_eq!(double_deletes(&doc), vec![]);
    check(&doc);
    // Deleting nothing is logged, but changes nothing.
    doc.apply_remote_txn(&RemoteTxn {
        id: id("bob", 2),
        parents: vec![id("ann", 7)],
        ops: vec![
            RemoteOp::Del { id: id("ann", 0), len: 0 },
            RemoteOp::Del { id: id("bob", 0), len: 1 },
        ],
    });
    assert_eq!(visible(&doc), vec![5]);
    check(&doc);
}

#[test]
fn remote_repeats_local() {
    let mut local = ListCRDT::new();
    let mut remote = ListCRDT::new();
    let ann = local.get_or_create_agent_id("ann");
    local.local_insert(ann, 0, "hello".into());
    remote.apply_remote_txn(&ins("ann", 0, vec![root_id()], root_id(), root_id(), 5));
    local.local_insert(ann, 2, "xyz".into());
    remote.apply_remote_txn(&ins("ann", 5, vec![id("ann", 4)], id("ann", 1), id("ann", 2), 3));
    local.local_delete(ann, 2, 2);
    remote.apply_remote_txn(&del("ann", 8, vec![id("ann", 7)], id("ann", 5), 2));
    // One visible item behind the deleted ones.
    local.local_insert(ann, 3, "!".into());
    remote.apply_remote_txn(&ins("ann", 10, vec![id("ann", 9)], id("ann", 7), id("ann", 2), 1));
    assert_eq!(items(&local), items(&remote));
    assert_eq!(local.frontier, remote.frontier);
    assert_eq!(local.txns, remote.txns);
    assert_eq!(local.deletes, remote.deletes);
    assert_eq!(local.double_deletes, remote.double_deletes);
    assert_eq!(local.client_with_order, remote.client_with_order);
    assert_eq!(local.client_data[0].item_orders, remote.client_data[0].item_orders);
    check(&local);
    check(&remote);
}

#[test]
fn remote_repeats_local_edits_in_one_transaction() {
    let mut local = ListCRDT::new();
    let mut remote = ListCRDT::new();
    let ann = local.get_or_create_agent_id("ann");
    remote.get_or_create_agent_id("ann");
    let op = |pos: usize, ins: &str, del_span: usize| LocalOp {
        pos,
        ins_content: ins.into(),
        del_span,
    };
    local.apply_local_txn(ann, &[op(0, "abcd", 0), op(2, "XY", 0), op(1, "", 1), op(1, "", 2)]);
    remote.apply_remote_txn(&RemoteTxn {
        id: id("ann", 0),
        parents: vec![root_id()],
        ops: vec![
            RemoteOp::Ins {
                origin_left: root_id(),
                origin_right: root_id(),
                ins_content: "abcd".into(),
            },
            RemoteOp::Ins {
                origin_left: id("ann", 1),
                origin_right: id("ann", 2),
                ins_content: "XY".into(),
            },
            RemoteOp::Del { id: id("ann", 1), len: 1 },
            RemoteOp::Del { id: id("ann", 4), len: 2 },
        ],
    });
    assert_eq!(visible(&local), vec![0, 2, 3]);
    assert_eq!(items(&local), items(&remote));
    assert_eq!(local.frontier, remote.frontier);
    assert_eq!(local.txns, remote.txns);
    assert_eq!(local.deletes, remote.deletes);
    assert_eq!(local.client_with_order, remote.client_with_order);
    check(&local);
    check(&remote);
}

/// The runs of orders that follow each other.
fn runs(row: &[Order]) -> Vec<(Order, u32)> {
    let mut all: Vec<(Order, u32)> = Vec::new();
    for order in row {
        match all.last_mut() {
            Some((first, len)) if *first + *len == *order => *len += 1,
            _ => all.push((*order, 1)),
        }
    }
    all
}

#[test]
fn a_replica_follows() {
    let mut rng = SmallRng::seed_from_u64(5);
    let mut local = ListCRDT::new();
    let mut remote = ListCRDT::new();
    let ann = local.get_or_create_agent_id("ann");
    let name = |doc: &ListCRDT, order: Order| {
        if order == ROOT_ORDER { root_id() } else { id("ann", doc.client_with_order.get(order).seq) }
    };
    for _ in 0..300 {
        let row = visible(&local);
        let all = orders(&local);
        let pos = rng.gen_range(0..=row.len());
        let del = rng.gen_range(0..=usize::min(6, row.len() - pos));
        let len = rng.gen_range(0..5);
        if del + len == 0 {
            continue;
        }
        let mut ops = Vec::new();
        for (first, len) in runs(&row[pos..pos + del]) {
            ops.push(RemoteOp::Del { id: name(&local, first), len });
        }
        if len > 0 {
            let left = if pos == 0 { ROOT_ORDER } else { row[pos - 1] };
            let next = all.iter().position(|order| *order == left).map_or(0, |i| i + 1);
            let right = all.get(next).copied().unwrap_or(ROOT_ORDER);
            ops.push(RemoteOp::Ins {
                origin_left: name(&local, left),
                origin_right: name(&local, right),
                ins_content: "x".repeat(len),
            });
        }
        let parents = frontier(&local).iter().map(|order| name(&local, *order)).collect();
        let seq = local.client_data[0].get_next_seq();
        let op = LocalOp { pos, ins_content: "x".repeat(len), del_span: del };
        local.apply_local_txn(ann, &[op]);
        remote.apply_remote_txn(&RemoteTxn { id: id("ann", seq), parents, ops });
        assert_eq!(items(&local), items(&remote));
        assert_eq!(local.frontier, remote.frontier);
        assert_eq!(local.txns, remote.txns);
        assert_eq!(local.deletes, remote.deletes);
        assert_eq!(local.double_deletes, remote.double_deletes);
        assert_eq!(local.text_content, remote.text_content);
        assert_eq!(local.len(), remote.len());
    }
    check(&local);
    check(&remote);
}

#[test]
fn large_documents_from_many_peers_stay_sound() {
    let mut rng = SmallRng::seed_from_u64(23);
    let mut doc = ListCRDT::new();
    let names = ["d", "a", "c", "b"];
    let mut seqs = [0u32; 4];
    // What each peer inserted, by peer and number.
    let mut known: Vec<(usize, u32)> = Vec::new();
    for _ in 0..800 {
        let peer = rng.gen_range(0..4);
        let parents = vec![root_id()];
        if known.is_empty() || rng.gen_bool(0.7) {
            let left = if known.is_empty() || rng.gen_bool(0.1) {
                root_id()
            } else {
                let (p, s) = known[rng.gen_range(0..known.len())];
                id(names[p], s)
            };
            let right = if known.is_empty() || rng.gen_bool(0.5) {
                root_id()
            } else {
                let (p, s) = known[rng.gen_range(0..known.len())];
                id(names[p], s)
            };
            let len = rng.gen_range(1..5);
            doc.apply_remote_txn(&ins(names[peer], seqs[peer], parents, left, right, len));
            for k in 0..len as u32 {
                known.push((peer, seqs[peer] + k));
            }
            seqs[peer] += len as u32;
        } else {
            let (p, s) = known[rng.gen_range(0..known.len())];
            doc.apply_remote_txn(&del(names[peer], seqs[peer], parents, id(names[p], s), 1));
            seqs[peer] += 1;
        }
    }
    check(&doc);
    assert_eq!(orders(&doc).len(), known.len());
}
