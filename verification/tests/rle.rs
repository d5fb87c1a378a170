use range_crdt::common::CRDTLocation;
use range_crdt::list::delete::DeleteEntry;
use range_crdt::list::double_delete::DoubleDelete;
use range_crdt::list::markers::MarkerEntry;
use range_crdt::list::order_span::OrderSpan;
use range_crdt::range_tree::entry::{CRDTSpan, EntryTraits};
use range_crdt::range_tree::node::LeafPtr;
use range_crdt::rle::{KVPair, RleKeyed};
use range_crdt::rle::simple_rle::Rle;
use range_crdt::split_list::SplitList;
use range_crdt::splitable_span::{MergableSpan, SplitableSpan};

fn ops(order: u32, len: u32) -> OrderSpan {
    OrderSpan { order, len }
}

#[test]
fn lists_glue_what_continues() {
    let mut list: Rle<KVPair<OrderSpan>> = Rle::new();
    assert!(list.last().is_none());
    list.append(KVPair(0, ops(100, 5)));
    list.append(KVPair(5, ops(105, 2)));
    assert_eq!(list.num_entries(), 1);
    list.append(KVPair(7, ops(200, 1)));
    list.append(KVPair(20, ops(201, 4)));
    assert_eq!(list.num_entries(), 3);
    assert_eq!(list.last(), Some(&KVPair(20, ops(201, 4))));
    assert_eq!(list.find(6), Some((&KVPair(0, ops(100, 7)), 6)));
    assert_eq!(list.find(7), Some((&KVPair(7, ops(200, 1)), 0)));
    assert_eq!(list.find(8), None);
    assert_eq!(list.find(23), Some((&KVPair(20, ops(201, 4)), 3)));
    assert_eq!(list.find(24), None);
    assert_eq!(list.search(3), Ok(0));
    assert_eq!(list.search(10), Err(2));
    assert_eq!(list.search(99), Err(3));
}

#[test]
fn pairs_split_and_join() {
    let mut pair = KVPair(10, ops(50, 8));
    assert_eq!(pair.end(), 18);
    assert_eq!(pair.get_rle_key(), 10);
    let rest = pair.truncate(3);
    assert_eq!(pair, KVPair(10, ops(50, 3)));
    assert_eq!(rest, KVPair(13, ops(53, 5)));
    assert!(pair.can_append(&rest));
    assert!(!pair.can_append(&KVPair(14, ops(53, 5))));
    let mut back = rest;
    back.prepend(pair);
    assert_eq!(back, KVPair(10, ops(50, 8)));
    pair.append(rest);
    assert_eq!(pair, back);

    let mut pair = KVPair(7, CRDTSpan { loc: CRDTLocation { agent: 1, seq: 20 }, len: 4 });
    let left = pair.truncate_keeping_right(1);
    assert_eq!(left, KVPair(7, CRDTSpan { loc: CRDTLocation { agent: 1, seq: 20 }, len: 1 }));
    assert_eq!(pair, KVPair(8, CRDTSpan { loc: CRDTLocation { agent: 1, seq: 21 }, len: 3 }));
    assert_eq!(pair.contains(CRDTLocation { agent: 1, seq: 23 }), Some(2));
    assert_eq!(pair.contains(CRDTLocation { agent: 2, seq: 23 }), None);
    assert_eq!(pair.at_offset(1), CRDTLocation { agent: 1, seq: 22 });
    assert!(pair.is_valid());
    assert!(!KVPair::<CRDTSpan>::default().is_valid());
}

#[test]
fn deleted_runs_glue() {
    let a = DeleteEntry { order: 4, len: 2 };
    assert!(a.can_append(&DeleteEntry { order: 6, len: 1 }));
    assert!(!a.can_append(&DeleteEntry { order: 7, len: 1 }));
    assert_eq!(MergableSpan::len(&a), 2);
}

fn excess(list: &Rle<KVPair<DoubleDelete>>, key: u32) -> u32 {
    match list.find(key) {
        Some((pair, _)) => pair.1.excess_deletes,
        None => 0,
    }
}

#[test]
fn ranges_are_incremented() {
    let mut list: Rle<KVPair<DoubleDelete>> = Rle::new();
    let mut expected = [0u32; 64];
    for (base, len) in [(10, 5), (12, 10), (0, 3), (8, 20), (30, 1), (29, 3), (5, 40), (3, 0)] {
        list.increment_delete_range(base, len);
        for key in base..base + len {
            expected[key as usize] += 1;
        }
        for key in 0..64 {
            assert_eq!(excess(&list, key), expected[key as usize]);
        }
    }
}

fn marker(len: u32, leaf: usize) -> MarkerEntry {
    MarkerEntry { len, ptr: Some(LeafPtr(leaf)) }
}

fn leaf_at(list: &SplitList<MarkerEntry>, pos: usize) -> usize {
    list.entry_at(pos).unwrap_ptr().0
}

#[test]
fn ranges_are_replaced() {
    let mut list: SplitList<MarkerEntry> = SplitList::new();
    assert!(list.check());
    assert!(list.last().is_none());
    list.append_entry(MarkerEntry::default());
    assert!(list.last().is_none());
    list.append_entry(marker(10, 1));
    list.append_entry(marker(5, 1));
    assert_eq!(list.0.num_entries(), 1);
    let mut expected = vec![1usize; 15];
    let edits = [(4, 3, 2), (0, 1, 3), (14, 4, 4), (2, 14, 5), (18, 2, 6), (5, 1, 5), (0, 20, 7)];
    for (pos, len, leaf) in edits {
        list.replace_range(pos, marker(len, leaf));
        for k in pos..pos + len as usize {
            if k < expected.len() {
                expected[k] = leaf;
            } else {
                expected.push(leaf);
            }
        }
        assert!(list.check());
        for (k, leaf) in expected.iter().enumerate() {
            assert_eq!(leaf_at(&list, k), *leaf);
        }
    }
    assert_eq!(list.last(), Some(marker(20, 7)));
    list.0.0[0].0 = 1;
    assert!(!list.check());
}
