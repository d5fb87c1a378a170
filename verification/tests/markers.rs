use range_crdt::list::Order;
use range_crdt::list::markers::MarkerEntry;
use range_crdt::range_tree::entry::EntryTraits;
use range_crdt::range_tree::node::LeafPtr;
use range_crdt::splitable_span::{MergableSpan, SplitableSpan};
use std::mem::size_of;
use std::ptr::NonNull;

#[allow(dead_code)]
#[derive(Copy, Clone, Eq, PartialEq, Debug)]
pub enum MarkerOp {
    Ins(NonNull<usize>),
    Del(Order),
}

#[allow(dead_code)]
#[derive(Copy, Clone, Eq, PartialEq, Debug)]
pub struct MarkerEntry1 {
    // The order / seq is implicit from the location in the list.
    pub len: u32,
    pub op: MarkerOp,
}

#[allow(dead_code)]
#[derive(Copy, Clone, Eq, PartialEq, Debug)]
pub enum MarkerEntry2 {
    Ins(u32, NonNull<usize>),
    Del(u32, Order, bool),
}

pub type MarkerEntry3 = (u64, Option<NonNull<usize>>);

#[test]
fn test_sizes() {
    println!("{}", size_of::<MarkerEntry1>());
    println!("{}", size_of::<MarkerEntry2>());
    println!("{}", size_of::<MarkerEntry3>());
}

fn marker(len: u32, leaf: usize) -> MarkerEntry {
    MarkerEntry { len, ptr: Some(LeafPtr(leaf)) }
}

#[test]
fn markers_split_and_join() {
    let mut entry = marker(10, 3);
    let rest = entry.truncate(4);
    assert_eq!(entry, marker(4, 3));
    assert_eq!(rest, marker(6, 3));
    assert!(entry.can_append(&rest));
    entry.append(rest);
    assert_eq!(entry, marker(10, 3));
    // A run can be cut at either end.
    for at in [0, 10] {
        let mut entry = marker(10, 3);
        let rest = entry.truncate(at);
        assert_eq!(entry, marker(at as u32, 3));
        assert_eq!(rest, marker(10 - at as u32, 3));
        assert!(entry.can_append(&rest));
        entry.append(rest);
        assert_eq!(entry, marker(10, 3));
        let left = entry.truncate_keeping_right(at);
        assert_eq!(left, marker(at as u32, 3));
        assert_eq!(entry, marker(10 - at as u32, 3));
    }
    let left = entry.truncate_keeping_right(7);
    assert_eq!(left, marker(7, 3));
    assert_eq!(entry, marker(3, 3));
    entry.prepend(left);
    assert_eq!(entry, marker(10, 3));
    assert!(!entry.can_append(&marker(1, 4)));
    assert_eq!(entry.at_offset(5), Some(LeafPtr(3)));
    assert_eq!(entry.at_offset(99), Some(LeafPtr(3)));
    // Only the lengths are added up.
    let mut longer = marker(2, 5);
    longer.append(marker(3, 6));
    assert_eq!(longer, marker(5, 5));
    longer.prepend(marker(4, 7));
    assert_eq!(longer, marker(9, 5));
    assert_eq!(entry.unwrap_ptr(), LeafPtr(3));
    assert!(entry.is_valid());
    let unused = MarkerEntry::default();
    assert!(!unused.is_valid());
    assert_eq!(unused.ptr, None);
    assert!(!unused.can_append(&entry));
}
