use humansize::{file_size_opts, FileSize};
use range_crdt::common::CRDTLocation;
use range_crdt::list::{Order, ROOT_ORDER};
use range_crdt::list::span::YjsSpan;
use range_crdt::range_tree::delete_result::{extend_delete, DeleteResult};
use range_crdt::range_tree::entry::{CRDTSpan, EntryTraits, EntryWithContent};
use range_crdt::range_tree::index::{
    ContentIndex, FullIndex, FullOffset, RawPositionIndex, TreeIndex,
};
use range_crdt::range_tree::node::{
    NodeInternal, NodeLeaf, NodePtr, ParentPtr, LEAF_ENTRIES, NODE_CHILDREN,
};
use range_crdt::range_tree::outline::OutlineLine;
use range_crdt::range_tree::tree::RangeTree;
use range_crdt::splitable_span::{MergableSpan, SplitableSpan};
use std::mem::size_of;

fn span(agent: u16, seq: u32, len: u32) -> CRDTSpan {
    CRDTSpan { loc: CRDTLocation { agent, seq }, len }
}

fn yjs(order: Order, origin_left: Order, len: i32) -> YjsSpan {
    YjsSpan { order, origin_left, origin_right: ROOT_ORDER, len }
}

fn entries<E: EntryTraits, I: TreeIndex<E>>(tree: &RangeTree<E, I>) -> Vec<E> {
    let mut all = Vec::new();
    let mut cursor = tree.iter();
    if tree.leaves[cursor.node.0].len_entries() == 0 {
        return all;
    }
    loop {
        all.push(cursor.get_entry(tree));
        if !cursor.next_entry(tree) {
            return all;
        }
    }
}

/// A tree with entries that cannot be glued together.
fn tree_of<I: TreeIndex<CRDTSpan>>(lens: &[u32]) -> RangeTree<CRDTSpan, I> {
    let mut tree = RangeTree::<CRDTSpan, I>::new();
    for (i, len) in lens.iter().enumerate() {
        let cursor = if i == 0 { tree.cursor_at_start() } else { tree.cursor_at_end() };
        tree.insert(cursor, span(i as u16, 10, *len));
    }
    tree
}

#[test]
fn print_memory_stats() {
    let x = RangeTree::<CRDTSpan, ContentIndex>::new();
    println!("{}", x.stats().total_memory);
    let x = RangeTree::<CRDTSpan, FullIndex>::new();
    println!("{}", x.stats().total_memory);

    println!(
        "sizeof ContentIndex offset {}",
        size_of::<<ContentIndex as TreeIndex<CRDTSpan>>::IndexOffset>()
    );
    println!(
        "sizeof FullIndex offset {}",
        size_of::<<FullIndex as TreeIndex<CRDTSpan>>::IndexOffset>()
    );
}

#[test]
fn empty_tree() {
    let tree = RangeTree::<CRDTSpan, FullIndex>::new();
    assert!(tree.check());
    assert_eq!(tree.content_len(), 0);
    assert_eq!((tree.len().len, tree.len().content), (0, 0));
    assert_eq!(tree.cursor_at_start().get_item(&tree), None);
    assert_eq!(tree.item_iter().next(&tree), None);
    let stats = tree.stats();
    assert_eq!(stats.num_entries, 0);
    assert_eq!(stats.num_internal_nodes, 0);
    assert_eq!(stats.depth, 0);
    assert_eq!(stats.internal_nodes_size, "0 B");
    assert_eq!(stats.efficient_size, "0 B");
    assert_eq!(stats.size_counts.len(), 0);
}

#[test]
fn sound_trees_pass_the_check() {
    let mut tree = tree_of::<FullIndex>(&[3; 700]);
    assert!(tree.check());
    assert_eq!(tree.content_len(), 2100);
    assert_eq!(entries(&tree).len(), 700);
    for (i, entry) in entries(&tree).iter().enumerate() {
        assert_eq!(*entry, span(i as u16, 10, 3));
    }
    // A wrong count does not pass.
    tree.count.content += 1;
    assert!(!tree.check());
    tree.count.content -= 1;
    assert!(tree.check());
    // Nor does a wrong number of entries.
    tree.leaves[3].num_entries -= 1;
    assert!(!tree.check());
    tree.leaves[3].num_entries += 1;
    // Nor an unused slot between others.
    let entry = tree.leaves[3].data[1];
    tree.leaves[3].data[1] = CRDTSpan::default();
    assert!(!tree.check());
    tree.leaves[3].data[1] = entry;
    // Nor an entry without items.
    tree.leaves[3].data[1].len = 0;
    assert!(!tree.check());
    tree.leaves[3].data[1].len = 3;
    // Nor a node that hangs from another one than it says.
    let parent = tree.leaves[3].parent;
    tree.leaves[3].parent = ParentPtr::Root;
    assert!(!tree.check());
    tree.leaves[3].parent = parent;
    // Nor a count of a child that is wrong.
    tree.nodes[0].data[0].0.len += 1;
    assert!(!tree.check());
    tree.nodes[0].data[0].0.len -= 1;
    assert!(tree.check());
}

#[test]
fn positions_fall_into_entries() {
    let tree = tree_of::<RawPositionIndex>(&[4, 1, 5]);
    let at = |pos: usize, stick_end: bool| {
        let cursor = tree.cursor_at_offset_pos(pos, stick_end);
        (cursor.idx, cursor.offset)
    };
    assert_eq!(at(0, false), (0, 0));
    assert_eq!(at(3, false), (0, 3));
    assert_eq!(at(4, false), (1, 0));
    assert_eq!(at(4, true), (0, 4));
    assert_eq!(at(5, false), (2, 0));
    assert_eq!(at(5, true), (1, 1));
    assert_eq!(at(9, false), (2, 4));
    assert_eq!(at(10, true), (2, 5));
    assert_eq!(at(0, true), (0, 0));
    assert_eq!(tree.at(3), Some(CRDTLocation { agent: 0, seq: 13 }));
    assert_eq!(tree.at(4), Some(CRDTLocation { agent: 1, seq: 10 }));
    assert_eq!(tree.at(9), Some(CRDTLocation { agent: 2, seq: 14 }));
    assert_eq!(tree.len(), 10);
}

#[test]
fn queries_count_by_what_they_are_given() {
    let tree = tree_of::<FullIndex>(&[4, 1, 5]);
    let cursor = tree.cursor_at_query(6, false, |i| i.len as usize, |e| MergableSpan::len(&e));
    assert_eq!((cursor.idx, cursor.offset), (2, 1));
    // Where all items are visible, both numbers count the same.
    let shown = tree_of::<ContentIndex>(&[4, 1, 5]);
    let cursor = shown.cursor_at_query(6, false, |i| i as usize, |e| MergableSpan::len(&e));
    assert_eq!((cursor.idx, cursor.offset), (2, 1));
    // An entry may count for more than its items.
    let cursor = tree.cursor_at_query(
        650,
        false,
        |i| i.len as usize * 100,
        |e| MergableSpan::len(&e) * 100,
    );
    assert_eq!((cursor.idx, cursor.offset), (2, 150));
    let cursor = tree.cursor_at_content_pos(4, true);
    assert_eq!((cursor.idx, cursor.offset), (0, 4));
    let cursor = tree.cursor_at_offset_pos(4, false);
    assert_eq!((cursor.idx, cursor.offset), (1, 0));
}

#[test]
fn content_positions_skip_deleted_items() {
    let mut tree = RangeTree::<YjsSpan, ContentIndex>::new();
    let start = tree.cursor_at_start();
    tree.insert(start, yjs(0, ROOT_ORDER, 10));
    let cursor = tree.cursor_at_content_pos(2, false);
    let (deleted, _) = tree.local_deactivate(cursor, 5);
    assert_eq!(deleted.num_spans(), 1);
    assert_eq!(deleted.get(0), yjs(2, 1, 5));
    assert_eq!(entries(&tree), vec![yjs(0, ROOT_ORDER, 2), yjs(2, 1, -5), yjs(7, 6, 3)]);
    assert_eq!(tree.content_len(), 5);
    let cursor = tree.cursor_at_content_pos(2, false);
    assert_eq!((cursor.idx, cursor.offset), (2, 0));
    let cursor = tree.cursor_at_content_pos(2, true);
    assert_eq!((cursor.idx, cursor.offset), (0, 2));
    assert!(tree.check());
}

#[test]
fn walking_visits_all_items() {
    let tree = tree_of::<RawPositionIndex>(&[2; 100]);
    let mut items = tree.item_iter();
    for pos in 0..200 {
        assert_eq!(items.next(&tree), tree.at(pos));
    }
    assert_eq!(items.next(&tree), None);
    assert_eq!(items.next(&tree), None);
}

#[test]
fn cursors_are_ordered() {
    let tree = tree_of::<RawPositionIndex>(&[1; 200]);
    let first = tree.cursor_at_start();
    let last = tree.cursor_at_end();
    let middle = tree.cursor_at_offset_pos(100, false);
    assert!(first.is_before(&middle, &tree));
    assert!(middle.is_before(&last, &tree));
    assert!(!last.is_before(&first, &tree));
    assert!(!middle.is_before(&middle, &tree));
    assert_eq!(first, tree.iter());
    let mut end = last;
    assert!(!end.next_entry(&tree));
    assert_eq!(end, last);
}

#[test]
fn inserting_glues_and_splits() {
    let mut tree = RangeTree::<CRDTSpan, FullIndex>::new();
    let start = tree.cursor_at_start();
    tree.insert(start, span(0, 0, 3));
    let end = tree.cursor_at_end();
    tree.insert(end, span(0, 3, 2));
    assert_eq!(entries(&tree), vec![span(0, 0, 5)]);
    let cursor = tree.cursor_at_offset_pos(2, false);
    let notes = tree.insert(cursor, span(1, 0, 1));
    assert_eq!(entries(&tree), vec![span(0, 0, 2), span(1, 0, 1), span(0, 2, 3)]);
    assert_eq!(notes.last().unwrap().0, span(1, 0, 1));
    // In front of an entry it may continue the one before.
    let cursor = tree.cursor_at_offset_pos(2, false);
    assert_eq!((cursor.idx, cursor.offset), (1, 0));
    tree.insert(cursor, span(0, 2, 4));
    assert_eq!(entries(&tree), vec![span(0, 0, 6), span(1, 0, 1), span(0, 2, 3)]);
    let start = tree.cursor_at_start();
    tree.insert(start, span(2, 0, 1));
    assert_eq!(entries(&tree)[0], span(2, 0, 1));
    assert!(tree.check());
}

#[test]
fn leaves_of_items_are_told() {
    let mut tree = RangeTree::<CRDTSpan, FullIndex>::new();
    let mut homes = std::collections::BTreeMap::new();
    for i in 0..2000u32 {
        let cursor = if i == 0 {
            tree.cursor_at_start()
        } else {
            tree.cursor_at_offset_pos((i as usize * 7919) % (i as usize), false)
        };
        for (entry, leaf) in tree.insert(cursor, span((i % 50) as u16, i, 1)) {
            for k in 0..MergableSpan::len(&entry) {
                homes.insert((entry.at_offset(k).agent, entry.at_offset(k).seq), leaf);
            }
        }
    }
    assert!(tree.check());
    assert_eq!(homes.len(), 2000);
    for ((agent, seq), leaf) in homes {
        let loc = CRDTLocation { agent, seq };
        let cursor = tree.cursor_before_item(loc, leaf);
        assert_eq!(cursor.node, leaf);
        assert_eq!(cursor.get_item(&tree), Some(loc));
    }
}

#[test]
fn deleting_skips_what_is_deleted() {
    let mut tree = RangeTree::<YjsSpan, FullIndex>::new();
    let start = tree.cursor_at_start();
    tree.insert(start, yjs(0, ROOT_ORDER, 6));
    let cursor = tree.cursor_at_offset_pos(2, false);
    let (amount, _) = tree.remote_deactivate(cursor, 2);
    assert_eq!(amount, 2);
    assert_eq!(entries(&tree), vec![yjs(0, ROOT_ORDER, 2), yjs(2, 1, -2), yjs(4, 3, 2)]);
    // Once more.
    let cursor = tree.cursor_at_offset_pos(3, false);
    let (amount, _) = tree.remote_deactivate(cursor, 5);
    assert_eq!(amount, -1);
    assert_eq!(tree.content_len(), 4);
    // Up to the end of the entry only.
    let cursor = tree.cursor_at_offset_pos(1, false);
    let (amount, _) = tree.remote_deactivate(cursor, 5);
    assert_eq!(amount, 1);
    let cursor = tree.cursor_at_start();
    let (deleted, _) = tree.local_deactivate(cursor, 2);
    let spans: Vec<YjsSpan> = (0..deleted.num_spans()).map(|i| deleted.get(i)).collect();
    assert_eq!(spans, vec![yjs(0, ROOT_ORDER, 1), yjs(4, 3, 1)]);
    assert_eq!(tree.content_len(), 1);
    assert!(tree.check());
}

#[test]
fn deleted_spans_are_gathered() {
    let mut tree = RangeTree::<YjsSpan, ContentIndex>::new();
    let start = tree.cursor_at_start();
    tree.insert(start, yjs(0, ROOT_ORDER, 4));
    let cursor = tree.cursor_at_start();
    let (mut deleted, _): (DeleteResult, _) = tree.local_deactivate(cursor, 2);
    extend_delete(&mut deleted, yjs(2, 1, 2));
    assert_eq!(deleted.num_spans(), 1);
    assert_eq!(deleted.get(0), yjs(0, ROOT_ORDER, 4));
    extend_delete(&mut deleted, yjs(9, 3, 1));
    assert_eq!(deleted.num_spans(), 2);
    assert_eq!(deleted.get(1), yjs(9, 3, 1));
}

#[test]
fn extending_starts_from_nothing() {
    let mut deleted = DeleteResult::default();
    assert_eq!(deleted.num_spans(), 0);
    extend_delete(&mut deleted, yjs(3, 1, 2));
    extend_delete(&mut deleted, yjs(5, 4, 1));
    extend_delete(&mut deleted, yjs(6, 4, 1));
    assert_eq!(deleted.num_spans(), 2);
    assert_eq!(deleted.get(0), yjs(3, 1, 3));
    assert_eq!(deleted.get(1), yjs(6, 4, 1));
}

#[test]
fn inserting_adds_to_the_count() {
    let mut tree = RangeTree::<CRDTSpan, FullIndex>::new();
    let mut total = 0;
    for (pos, entry) in [(0, span(0, 0, 4)), (4, span(0, 4, 2)), (3, span(1, 9, 5)), (8, span(2, 0, 1))] {
        let cursor = if total == 0 {
            tree.cursor_at_start()
        } else {
            tree.cursor_at_offset_pos(pos, true)
        };
        tree.insert(cursor, entry);
        total += entry.len;
        assert_eq!((tree.len().len, tree.len().content), (total, total));
        assert!(tree.check());
    }
    // Cut at three, then the other parts.
    assert_eq!(entries(&tree), vec![
        span(0, 0, 3), span(1, 9, 5), span(2, 0, 1), span(0, 3, 3),
    ]);
}

#[test]
fn leaving_a_leaf_settles_the_counts() {
    let mut tree = tree_of::<RawPositionIndex>(&[2; 40]);
    let mut marker: i64 = 0;
    let mut cursor = tree.cursor_at_start();
    let first = cursor.node;
    let count = tree.leaves[first.0].len_entries();
    for _ in 1..count {
        tree.next_entry_or_panic(&mut cursor, &mut marker);
        assert_eq!(cursor.node, first);
    }
    tree.leaves[first.0].data[0].len += 3;
    RawPositionIndex::increment_marker(&mut marker, &span(0, 0, 3));
    assert_eq!(marker, 3);
    assert!(!tree.check());
    tree.next_entry_or_panic(&mut cursor, &mut marker);
    assert_ne!(cursor.node, first);
    assert_eq!((cursor.idx, cursor.offset), (0, 0));
    assert_eq!(marker, 0);
    assert_eq!(tree.len(), 83);
    assert!(tree.check());
}

#[test]
fn stats_count_entries_and_nodes() {
    let mut lens = vec![3u32; 250];
    lens.extend([1, 1, 5, 5, 5, 2]);
    let tree = tree_of::<FullIndex>(&lens);
    assert!(tree.can_be_counted());
    let stats = tree.stats();
    assert_eq!(stats.num_entries, 256);
    assert_eq!(stats.size_counts, vec![0, 2, 1, 250, 0, 3]);
    assert_eq!(stats.num_internal_nodes, tree.nodes.len());
    assert_eq!(stats.depth, 1);
    // Entries of twelve bytes.
    assert_eq!(size_of::<CRDTSpan>(), 12);
    assert_eq!(stats.efficient_size, "3 KB");
    assert_eq!(stats.internal_nodes_size, format!("{} B", stats.internal_node_size));
    // The slots of a leaf and the children of a node count.
    assert_eq!(stats.leaf_size, size_of::<NodeLeaf<CRDTSpan>>() + 32 * 12);
    assert_eq!(
        stats.internal_node_size,
        size_of::<NodeInternal<CRDTSpan, FullIndex>>() + 16 * size_of::<(FullOffset, NodePtr)>()
    );
    let total = size_of::<RangeTree<CRDTSpan, FullIndex>>()
        + tree.nodes.len() * stats.internal_node_size
        + tree.leaves.len() * stats.leaf_size;
    assert_eq!(stats.total_memory, total.file_size(file_size_opts::CONVENTIONAL).unwrap());

    let deep = tree_of::<FullIndex>(&vec![1; 32 * 16 * 2]);
    assert_eq!(deep.stats().depth, 2);
    assert_eq!(deep.stats().num_internal_nodes, deep.nodes.len());
}

#[test]
fn outline_lists_all_nodes() {
    let tree = tree_of::<FullIndex>(&[1; 33]);
    assert_eq!(LEAF_ENTRIES, 32);
    assert_eq!(NODE_CHILDREN, 16);
    let lines = tree.outline();
    assert_eq!(lines.len(), 4);
    let root = match tree.root {
        NodePtr::Internal(n) => n,
        NodePtr::Leaf(_) => panic!("the root is a leaf"),
    };
    assert_eq!(lines[0], OutlineLine::Internal { depth: 1, node: root, parent: ParentPtr::Root });
    let mut filled_slots = 0;
    for line in &lines[1..3] {
        match line {
            OutlineLine::Leaf { depth, parent, filled, .. } => {
                assert_eq!(*depth, 2);
                assert_eq!(*parent, ParentPtr::Internal(root));
                filled_slots += *filled;
            }
            _ => panic!("not a leaf"),
        }
    }
    assert_eq!(filled_slots, 33);
    assert_eq!(lines[3], OutlineLine::Unused { depth: 2, count: 14 });
}

#[test]
fn spans_split_and_join() {
    let mut a = yjs(5, 4, 6);
    let b = a.truncate(2);
    assert_eq!(a, yjs(5, 4, 2));
    assert_eq!(b, yjs(7, 6, 4));
    assert!(a.can_append(&b));
    a.append(b);
    assert_eq!(a, yjs(5, 4, 6));
    let mut c = yjs(5, 4, -6);
    let left = c.truncate_keeping_right(1);
    assert_eq!(left, yjs(5, 4, -1));
    assert_eq!(c, yjs(6, 5, -5));
    assert!(!left.can_append(&yjs(6, 5, 5)));
    assert_eq!(c.contains(8), Some(2));
    assert_eq!(c.contains(5), None);
    assert_eq!(c.content_len(), 0);
    assert_eq!(a.content_len(), 6);
    assert_eq!(a.origin_left_at_offset(0), 4);
    assert_eq!(a.origin_left_at_offset(3), 7);
    assert_eq!(c.at_offset(4), 10);
    assert!(!YjsSpan::default().is_valid());
    assert!(!CRDTSpan::default().is_valid());
}
