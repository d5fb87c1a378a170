//! Places in a tree.

use crate::range_tree::entry::EntryTraits;
use crate::range_tree::index::TreeIndex;
use crate::range_tree::node::{LeafPtr, NodePtr, ParentPtr};
use crate::range_tree::runs::{
    chain_start, entry_ok, lemma_chain_index, lemma_chain_start_mono, lemma_chain_start_next,
};
use crate::range_tree::tree::RangeTree;
use vstd::prelude::*;

verus! {

/// A place between two items, or at either end of a row of entries: `offset` items
/// behind the start of the entry `entry`.
pub struct Place {
    pub entry: int,
    pub offset: int,
}

impl Place {
    /// This place is further left. The end of an entry is left of the start of the next
    /// one.
    pub open spec fn before(self, other: Place) -> bool {
        self.entry < other.entry || (self.entry == other.entry && self.offset < other.offset)
    }

    /// The place is inside the entries, or at the start of an empty row.
    pub open spec fn within<E: EntryTraits>(self, entries: Seq<E>) -> bool {
        ||| 0 <= self.entry < entries.len() && 0 <= self.offset
            <= entries[self.entry].span_len()
        ||| entries.len() == 0 && self.entry == 0 && self.offset == 0
    }

    /// The start of the next entry; behind the last entry, its end.
    pub open spec fn next_entry<E: EntryTraits>(self, entries: Seq<E>) -> Place {
        if self.entry + 1 < entries.len() {
            Place { entry: self.entry + 1, offset: 0 }
        } else if entries.len() == 0 {
            self
        } else {
            Place { entry: self.entry, offset: entries[self.entry].span_len() as int }
        }
    }

    /// The item right of the place.
    pub open spec fn item<E: EntryTraits>(self, entries: Seq<E>) -> Option<E::Item> {
        if self.entry < entries.len() && self.offset < entries[self.entry].span_len() {
            Some(entries[self.entry].item_at(self.offset))
        } else if self.entry + 1 < entries.len() {
            Some(entries[self.entry + 1].item_at(0))
        } else {
            None
        }
    }

    /// The place behind the item right of this one.
    pub open spec fn next<E: EntryTraits>(self, entries: Seq<E>) -> Place {
        if self.offset < entries[self.entry].span_len() {
            Place { entry: self.entry, offset: self.offset + 1 }
        } else {
            Place { entry: self.entry + 1, offset: 1 }
        }
    }
}

/// A place in a tree: `offset` items behind the start of the entry in slot `idx` of the
/// leaf `node`.
#[derive(Clone, Copy, Debug, PartialEq, Eq, Structural)]
pub struct Cursor {
    pub node: LeafPtr,
    pub idx: usize,
    pub offset: usize,
}

impl<E: EntryTraits, I: TreeIndex<E>> RangeTree<E, I> {
    /// The entries of the leaf that the cursor is in.
    pub open spec fn entries_at(&self, c: Cursor) -> Seq<E> {
        self.leaves@[c.node.0 as int].entries()
    }

    /// The cursor is at an entry of the tree, or at the start of an empty tree.
    pub open spec fn cursor_ok(&self, c: Cursor) -> bool {
        &&& c.node.0 < self.leaves@.len()
        &&& {
            ||| c.idx < self.entries_at(c).len() && c.offset <= self.entries_at(
                c,
            )[c.idx as int].span_len()
            ||| self.entries_at(c).len() == 0 && c.idx == 0 && c.offset == 0
        }
    }

    /// Where the cursor is in the row of all entries.
    pub open spec fn place(&self, c: Cursor) -> Place {
        Place {
            entry: chain_start(self.parts(), self.shape@.rank[c.node.0 as int]) + c.idx,
            offset: c.offset as int,
        }
    }

    /// A cursor at an entry of a leaf is at that entry of the tree.
    pub proof fn lemma_place(&self, c: Cursor)
        requires
            self.shape_ok(),
            self.leaves_ok(),
            self.cursor_ok(c),
        ensures
            self.place(c).within(self@),
            c.idx < self.entries_at(c).len() ==> self.place(c).entry < self@.len()
                && self@[self.place(c).entry] == self.entries_at(c)[c.idx as int]
                && self@[self.place(c).entry].span_ok() && self@[self.place(c).entry].span_len()
                > 0,
            c.idx >= self.entries_at(c).len() ==> self@.len() == 0,
    {
        let r = self.shape@.rank[c.node.0 as int];
        assert(self.shape@.order[r] == c.node.0);
        assert(self.parts()[r] == self.entries_at(c));
        assert(self.leaves@[c.node.0 as int].sound());
        if c.idx < self.entries_at(c).len() {
            lemma_chain_index(self.parts(), r, c.idx as int);
            assert(entry_ok(self.entries_at(c)[c.idx as int]));
        } else {
            assert(self.root == NodePtr::Leaf(c.node));
            assert(self.span_of(self.root) == (r, r + 1));
            lemma_chain_start_next(self.parts(), r);
        }
    }

    /// Different cursors in one tree are at different places, and the rank of their
    /// leaves decides which is further left.
    pub proof fn lemma_place_order(&self, c: Cursor, d: Cursor)
        requires
            self.shape_ok(),
            self.leaves_ok(),
            self.cursor_ok(c),
            self.cursor_ok(d),
        ensures
            self.shape@.rank[c.node.0 as int] < self.shape@.rank[d.node.0 as int]
                ==> self.place(c).entry < self.place(d).entry,
            c.node == d.node ==> self.place(c).entry - self.place(d).entry == c.idx - d.idx,
            self.place(c) == self.place(d) ==> c == d,
    {
        let r = self.shape@.rank[c.node.0 as int];
        let s = self.shape@.rank[d.node.0 as int];
        assert(self.shape@.order[r] == c.node.0);
        assert(self.shape@.order[s] == d.node.0);
        assert(self.parts()[r] == self.entries_at(c));
        assert(self.parts()[s] == self.entries_at(d));
        assert(self.leaves@[c.node.0 as int].sound());
        assert(self.leaves@[d.node.0 as int].sound());
        if self.entries_at(c).len() == 0 {
            assert(self.root == NodePtr::Leaf(c.node));
            assert(self.span_of(self.root) == (r, r + 1));
        }
        if self.entries_at(d).len() == 0 {
            assert(self.root == NodePtr::Leaf(d.node));
            assert(self.span_of(self.root) == (s, s + 1));
        }
        if r < s {
            lemma_chain_start_mono(self.parts(), r, s);
        } else if s < r {
            lemma_chain_start_mono(self.parts(), s, r);
        }
    }

    /// The first leaf below a node.
    pub(crate) fn first_leaf(&self, p: NodePtr) -> (leaf: LeafPtr)
        requires
            self.shape_ok(),
            self.ptr_ok(p),
        ensures
            leaf.0 < self.leaves@.len(),
            self.shape@.rank[leaf.0 as int] == self.span_of(p).0,
        decreases self.height_of(p),
    {
        match p {
            NodePtr::Leaf(leaf) => leaf,
            NodePtr::Internal(n) => {
                proof {
                    assert(self.node_ok(n as int));
                    assert(self.child_ok(n as int, 0));
                    match self.child(n as int, 0) {
                        NodePtr::Internal(k) => {
                            assert(self.node_ok(k as int));
                        },
                        NodePtr::Leaf(_) => {},
                    }
                }
                self.first_leaf(self.nodes[n].data[0].1)
            },
        }
    }

    /// The last leaf below a node.
    pub(crate) fn last_leaf(&self, p: NodePtr) -> (leaf: LeafPtr)
        requires
            self.shape_ok(),
            self.ptr_ok(p),
        ensures
            leaf.0 < self.leaves@.len(),
            self.shape@.rank[leaf.0 as int] == self.span_of(p).1 - 1,
        decreases self.height_of(p),
    {
        match p {
            NodePtr::Leaf(leaf) => leaf,
            NodePtr::Internal(n) => {
                let len = self.nodes[n].data.len();
                proof {
                    assert(self.node_ok(n as int));
                    assert(self.child_ok(n as int, len - 1));
                    match self.child(n as int, len - 1) {
                        NodePtr::Internal(k) => {
                            assert(self.node_ok(k as int));
                        },
                        NodePtr::Leaf(_) => {},
                    }
                }
                self.last_leaf(self.nodes[n].data[len - 1].1)
            },
        }
    }

    /// The leaf to the right of a leaf.
    pub(crate) fn next_leaf(&self, leaf: LeafPtr) -> (next: Option<LeafPtr>)
        requires
            self.shape_ok(),
            leaf.0 < self.leaves@.len(),
        ensures
            match next {
                Some(l) => {
                    &&& l.0 < self.leaves@.len()
                    &&& self.shape@.rank[l.0 as int] == self.shape@.rank[leaf.0 as int] + 1
                },
                None => self.shape@.rank[leaf.0 as int] + 1 == self.shape@.order.len(),
            },
    {
        let ghost r = self.shape@.rank[leaf.0 as int];
        let mut p = NodePtr::Leaf(leaf);
        loop
            invariant
                self.shape_ok(),
                self.ptr_ok(p),
                self.span_of(p).1 == r + 1,
                leaf.0 < self.leaves@.len(),
                r == self.shape@.rank[leaf.0 as int],
            decreases self.height_of(self.root) - self.height_of(p),
        {
            assert(self.hangs_ok(p));
            match self.get_parent(p) {
                ParentPtr::Root => {
                    return None;
                },
                ParentPtr::Internal(g) => {
                    let i = self.find_child(g, p);
                    proof {
                        assert(self.node_ok(g as int));
                        assert(self.child_ok(g as int, i as int));
                    }
                    if i + 1 < self.nodes[g].data.len() {
                        assert(self.child_ok(g as int, i + 1));
                        assert(self.span_of(self.child(g as int, i as int)).1 == self.span_of(
                            self.child(g as int, i + 1),
                        ).0);
                        return Some(self.first_leaf(self.nodes[g].data[i + 1].1));
                    }
                    p = NodePtr::Internal(g);
                },
            }
        }
    }

    /// The leaf to the left of a leaf.
    pub(crate) fn prev_leaf(&self, leaf: LeafPtr) -> (prev: Option<LeafPtr>)
        requires
            self.shape_ok(),
            leaf.0 < self.leaves@.len(),
        ensures
            match prev {
                Some(l) => {
                    &&& l.0 < self.leaves@.len()
                    &&& self.shape@.rank[l.0 as int] + 1 == self.shape@.rank[leaf.0 as int]
                },
                None => self.shape@.rank[leaf.0 as int] == 0,
            },
    {
        let ghost r = self.shape@.rank[leaf.0 as int];
        let mut p = NodePtr::Leaf(leaf);
        loop
            invariant
                self.shape_ok(),
                self.ptr_ok(p),
                self.span_of(p).0 == r,
                leaf.0 < self.leaves@.len(),
                r == self.shape@.rank[leaf.0 as int],
            decreases self.height_of(self.root) - self.height_of(p),
        {
            assert(self.hangs_ok(p));
            match self.get_parent(p) {
                ParentPtr::Root => {
                    return None;
                },
                ParentPtr::Internal(g) => {
                    let i = self.find_child(g, p);
                    proof {
                        assert(self.node_ok(g as int));
                        assert(self.child_ok(g as int, i as int));
                    }
                    if i > 0 {
                        assert(self.child_ok(g as int, i - 1));
                        assert(self.span_of(self.child(g as int, i - 1)).1 == self.span_of(
                            self.child(g as int, i as int),
                        ).0);
                        return Some(self.last_leaf(self.nodes[g].data[i - 1].1));
                    }
                    p = NodePtr::Internal(g);
                },
            }
        }
    }

    /// Whether a leaf is to the left of another one.
    fn leaf_before(&self, a: LeafPtr, b: LeafPtr) -> (before: bool)
        requires
            self.shape_ok(),
            a.0 < self.leaves@.len(),
            b.0 < self.leaves@.len(),
            a != b,
        ensures
            before == (self.shape@.rank[a.0 as int] < self.shape@.rank[b.0 as int]),
    {
        let ghost ra = self.shape@.rank[a.0 as int];
        let ghost rb = self.shape@.rank[b.0 as int];
        let mut p = NodePtr::Leaf(a);
        let mut q = NodePtr::Leaf(b);
        loop
            invariant
                self.shape_ok(),
                a.0 < self.leaves@.len(),
                b.0 < self.leaves@.len(),
                ra == self.shape@.rank[a.0 as int],
                rb == self.shape@.rank[b.0 as int],
                self.ptr_ok(p),
                self.ptr_ok(q),
                self.height_of(p) == self.height_of(q),
                self.spans_rank(p, ra),
                self.spans_rank(q, rb),
                p != q,
            decreases self.height_of(self.root) - self.height_of(p),
        {
            assert(self.hangs_ok(p));
            assert(self.hangs_ok(q));
            match (self.get_parent(p), self.get_parent(q)) {
                (ParentPtr::Internal(g), ParentPtr::Internal(k)) => {
                    let i = self.find_child(g, p);
                    let j = self.find_child(k, q);
                    proof {
                        assert(self.node_ok(g as int));
                        assert(self.node_ok(k as int));
                        assert(self.child_ok(g as int, i as int));
                        assert(self.child_ok(k as int, j as int));
                    }
                    if g == k {
                        proof {
                            if i < j {
                                assert(self.span_of(self.child(g as int, i as int)).1
                                    <= self.span_of(self.child(g as int, j as int)).0);
                            } else {
                                assert(self.span_of(self.child(g as int, j as int)).1
                                    <= self.span_of(self.child(g as int, i as int)).0);
                            }
                        }
                        return i < j;
                    }
                    p = NodePtr::Internal(g);
                    q = NodePtr::Internal(k);
                },
                _ => {
                    proof {
                        if self.parent_of(p) is Root {
                            if self.parent_of(q) is Internal {
                                let k = self.parent_of(q)->Internal_0;
                                let j = choose|j: int|
                                    0 <= j < self.num_children(k as int) && #[trigger] self.child(
                                        k as int,
                                        j,
                                    ) == q;
                                assert(self.node_ok(k as int));
                                assert(self.child_ok(k as int, j));
                            }
                        } else {
                            let g = self.parent_of(p)->Internal_0;
                            let i = choose|i: int|
                                0 <= i < self.num_children(g as int) && #[trigger] self.child(
                                    g as int,
                                    i,
                                ) == p;
                            assert(self.node_ok(g as int));
                            assert(self.child_ok(g as int, i));
                        }
                        assert(false);
                    }
                    return false;
                },
            }
        }
    }
}

impl Cursor {
    /// The entry that the cursor is at.
    pub fn get_entry<E: EntryTraits, I: TreeIndex<E>>(&self, tree: &RangeTree<E, I>) -> (entry: E)
        requires
            tree.shape_ok(),
            tree.leaves_ok(),
            tree.cursor_ok(*self),
            tree@.len() > 0,
        ensures
            entry == tree@[tree.place(*self).entry],
    {
        proof {
            tree.lemma_place(*self);
            assert(tree.leaves@[self.node.0 as int].sound());
        }
        tree.leaves[self.node.0].data[self.idx]
    }

    /// Moves to the start of the next entry. At the last entry it moves to its end
    /// instead and returns `false`.
    pub fn next_entry<E: EntryTraits, I: TreeIndex<E>>(&mut self, tree: &RangeTree<E, I>) -> (moved:
        bool)
        requires
            tree.shape_ok(),
            tree.leaves_ok(),
            tree.cursor_ok(*old(self)),
        ensures
            tree.cursor_ok(*final(self)),
            tree.place(*final(self)) == tree.place(*old(self)).next_entry(tree@),
            moved == (tree.place(*old(self)).entry + 1 < tree@.len()),
    {
        let ghost r = tree.shape@.rank[self.node.0 as int];
        proof {
            tree.lemma_place(*self);
            assert(tree.shape@.order[r] == self.node.0);
            assert(tree.parts()[r] == tree.entries_at(*self));
            assert(tree.leaves@[self.node.0 as int].sound());
            lemma_chain_start_next(tree.parts(), r);
        }
        if self.idx + 1 < tree.leaves[self.node.0].num_entries {
            self.idx = self.idx + 1;
            self.offset = 0;
            proof {
                tree.lemma_place(*self);
            }
            true
        } else {
            match tree.next_leaf(self.node) {
                Some(next) => {
                    proof {
                        let s = r + 1;
                        assert(tree.shape@.order[s] == next.0);
                        assert(tree.leaves@[next.0 as int].sound());
                        if tree.leaves@[next.0 as int].num_entries == 0 {
                            assert(tree.root == NodePtr::Leaf(next));
                            assert(tree.span_of(tree.root) == (s, s + 1));
                        }
                        if tree.leaves@[self.node.0 as int].num_entries == 0 {
                            assert(tree.root == NodePtr::Leaf(self.node));
                            assert(tree.span_of(tree.root) == (r, r + 1));
                        }
                    }
                    self.node = next;
                    self.idx = 0;
                    self.offset = 0;
                    proof {
                        tree.lemma_place(*self);
                    }
                    true
                },
                None => {
                    if tree.leaves[self.node.0].num_entries > 0 {
                        let last = tree.leaves[self.node.0].data[self.idx];
                        self.offset = last.len();
                    }
                    false
                },
            }
        }
    }

    /// The item right of the cursor.
    pub fn get_item<E: EntryTraits, I: TreeIndex<E>>(&self, tree: &RangeTree<E, I>) -> (item: Option<
        E::Item,
    >)
        requires
            tree.shape_ok(),
            tree.leaves_ok(),
            tree.cursor_ok(*self),
        ensures
            item == tree.place(*self).item(tree@),
    {
        proof {
            tree.lemma_place(*self);
            assert(tree.leaves@[self.node.0 as int].sound());
        }
        if tree.leaves[self.node.0].num_entries == 0 {
            return None;
        }
        let entry = self.get_entry(tree);
        if self.offset < entry.len() {
            proof {
                entry.lemma_reads_at(self.offset as int);
            }
            Some(entry.at_offset(self.offset))
        } else {
            let mut next = *self;
            if next.next_entry(tree) {
                proof {
                    tree.lemma_place(next);
                }
                let entry = next.get_entry(tree);
                proof {
                    entry.lemma_reads_at(0);
                }
                Some(entry.at_offset(0))
            } else {
                None
            }
        }
    }

    /// Moves behind the item right of the cursor, and returns whether there is one.
    pub fn next<E: EntryTraits, I: TreeIndex<E>>(&mut self, tree: &RangeTree<E, I>) -> (moved: bool)
        requires
            tree.shape_ok(),
            tree.leaves_ok(),
            tree.cursor_ok(*old(self)),
        ensures
            tree.cursor_ok(*final(self)),
            moved == tree.place(*old(self)).item(tree@) is Some,
            moved ==> tree.place(*final(self)) == tree.place(*old(self)).next(tree@),
            !moved ==> *final(self) == *old(self),
    {
        proof {
            tree.lemma_place(*self);
            assert(tree.leaves@[self.node.0 as int].sound());
        }
        if tree.leaves[self.node.0].num_entries == 0 {
            return false;
        }
        let entry = self.get_entry(tree);
        if self.offset < entry.len() {
            self.offset = self.offset + 1;
            true
        } else if self.next_entry(tree) {
            proof {
                tree.lemma_place(*self);
            }
            self.offset = 1;
            true
        } else {
            proof {
                tree.lemma_place_order(*self, *old(self));
            }
            false
        }
    }

    /// Whether the cursor is further left than another one.
    pub fn is_before<E: EntryTraits, I: TreeIndex<E>>(
        &self,
        other: &Cursor,
        tree: &RangeTree<E, I>,
    ) -> (before: bool)
        requires
            tree.shape_ok(),
            tree.leaves_ok(),
            tree.cursor_ok(*self),
            tree.cursor_ok(*other),
        ensures
            before == tree.place(*self).before(tree.place(*other)),
            (*self == *other) == (tree.place(*self) == tree.place(*other)),
    {
        proof {
            tree.lemma_place_order(*self, *other);
            tree.lemma_place_order(*other, *self);
            let r = tree.shape@.rank[self.node.0 as int];
            let s = tree.shape@.rank[other.node.0 as int];
            assert(tree.shape@.order[r] == self.node.0);
            assert(tree.shape@.order[s] == other.node.0);
        }
        if self.node == other.node {
            self.idx < other.idx || (self.idx == other.idx && self.offset < other.offset)
        } else {
            tree.leaf_before(self.node, other.node)
        }
    }
}

} // verus!
