//! Making trees, and finding places in them.

use crate::range_tree::cursor::{Cursor, Place};
use crate::range_tree::entry::EntryTraits;
use crate::range_tree::homes::{has_item, holds};
use crate::range_tree::index::{Extent, TreeIndex};
use crate::range_tree::node::{LeafPtr, NodeLeaf, NodePtr, ParentPtr};
use crate::range_tree::runs::{
    entry_ok, items_len, lemma_chain_one, lemma_chain_start_next, lemma_total_bound,
    lemma_total_nonneg, total,
};
use crate::range_tree::tree::{RangeTree, Shape};
use vstd::prelude::*;

verus! {

/// Hands out the items of a tree one by one, from a place on.
#[derive(Clone, Copy, Debug, PartialEq, Eq, Structural)]
pub struct ItemIterator(pub Cursor);

impl ItemIterator {
    /// The item right of the iterator's place, if there is one. The iterator then moves
    /// behind it.
    pub fn next<E: EntryTraits, I: TreeIndex<E>>(&mut self, tree: &RangeTree<E, I>) -> (item:
        Option<E::Item>)
        requires
            tree.wf(),
            tree.cursor_ok(old(self).0),
        ensures
            tree.cursor_ok(final(self).0),
            item == tree.place(old(self).0).item(tree@),
            item is Some ==> tree.place(final(self).0) == tree.place(old(self).0).next(tree@),
            item is None ==> *final(self) == *old(self),
    {
        let item = self.0.get_item(tree);
        let _ = self.0.next(tree);
        item
    }
}

impl<E: EntryTraits, I: TreeIndex<E>> RangeTree<E, I> {
    /// A tree without entries.
    pub fn new() -> (tree: Self)
        ensures
            tree.wf(),
            tree@ == Seq::<E>::empty(),
    {
        let mut leaves: Vec<NodeLeaf<E>> = Vec::new();
        leaves.push(NodeLeaf::new(ParentPtr::Root));
        let tree = RangeTree {
            count: I::zero_offset(),
            root: NodePtr::Leaf(LeafPtr(0)),
            leaves,
            nodes: Vec::new(),
            shape: Ghost(
                Shape {
                    order: seq![0int],
                    rank: seq![0int],
                    spans: Seq::empty(),
                    heights: Seq::empty(),
                },
            ),
        };
        proof {
            let none = Seq::<E>::empty();
            assert(tree.parts() =~= seq![none]);
            lemma_chain_one(none);
            assert(tree.parts().subrange(0, 1) =~= tree.parts());
            assert(total::<E, I>(none) == Extent::zero());
            assert forall|p: NodePtr| #[trigger] tree.ptr_ok(p) implies tree.hangs_ok(p) by {
                assert(p == NodePtr::Leaf(LeafPtr(0)));
            }
        }
        tree
    }

    /// What all entries count for together.
    pub fn len(&self) -> (len: I::IndexOffset)
        ensures
            len == self.count,
            self.wf() ==> I::offset_extent(len) == total::<E, I>(self@),
    {
        proof {
            self.lemma_range_total_all();
        }
        self.count
    }

    /// A cursor at the end of the last entry.
    pub fn cursor_at_end(&self) -> (cursor: Cursor)
        requires
            self.wf(),
            self@.len() > 0,
        ensures
            self.cursor_ok(cursor),
            self.place(cursor) == (Place {
                entry: self@.len() - 1,
                offset: self@.last().span_len() as int,
            }),
    {
        let node = self.last_leaf(self.root);
        proof {
            let r = self.shape@.rank[node.0 as int];
            assert(self.shape@.order[r] == node.0);
            assert(self.leaves@[node.0 as int].sound());
            lemma_chain_start_next(self.parts(), r);
            if self.leaves@[node.0 as int].num_entries == 0 {
                assert(self.root == NodePtr::Leaf(node));
                assert(self.span_of(self.root) == (r, r + 1));
            }
        }
        let idx = self.leaves[node.0].num_entries - 1;
        let at = Cursor { node, idx, offset: 0 };
        proof {
            self.lemma_place(at);
        }
        let offset = self.leaves[node.0].data[idx].len();
        Cursor { node, idx, offset }
    }

    /// A cursor at the start of the first entry.
    pub fn cursor_at_start(&self) -> (cursor: Cursor)
        requires
            self.wf(),
        ensures
            self.cursor_ok(cursor),
            self.place(cursor) == (Place { entry: 0, offset: 0 }),
    {
        let node = self.first_leaf(self.root);
        proof {
            assert(self.shape@.order[0] == node.0);
            assert(self.leaves@[node.0 as int].sound());
            lemma_chain_start_next(self.parts(), 0);
        }
        Cursor { node, idx: 0, offset: 0 }
    }

    /// A cursor to walk over all entries with.
    pub fn iter(&self) -> (cursor: Cursor)
        requires
            self.wf(),
        ensures
            self.cursor_ok(cursor),
            self.place(cursor) == (Place { entry: 0, offset: 0 }),
    {
        self.cursor_at_start()
    }

    /// An iterator over all items.
    pub fn item_iter(&self) -> (items: ItemIterator)
        requires
            self.wf(),
        ensures
            self.cursor_ok(items.0),
            self.place(items.0) == (Place { entry: 0, offset: 0 }),
    {
        ItemIterator(self.iter())
    }

    /// A cursor right before an item, which the named leaf holds.
    pub fn cursor_before_item(&self, loc: E::Item, ptr: LeafPtr) -> (cursor: Cursor)
        requires
            self.wf(),
            E::searchable(),
            ptr.0 < self.leaves@.len(),
            holds(self.leaves@[ptr.0 as int].entries(), loc),
        ensures
            self.cursor_ok(cursor),
            cursor.node == ptr,
            cursor.idx < self.entries_at(cursor).len(),
            cursor.offset < self.entries_at(cursor)[cursor.idx as int].span_len(),
            self.entries_at(cursor)[cursor.idx as int].item_at(cursor.offset as int) == loc,
            forall|j: int|
                0 <= j < cursor.offset ==> #[trigger] self.entries_at(
                    cursor,
                )[cursor.idx as int].item_at(j) != loc,
            forall|i: int|
                0 <= i < cursor.idx ==> !has_item(#[trigger] self.entries_at(cursor)[i], loc),
    {
        let ghost entries = self.leaves@[ptr.0 as int].entries();
        let ghost at = choose|i: int|
            0 <= i < entries.len() && #[trigger] has_item(entries[i], loc);
        assert(self.leaves@[ptr.0 as int].sound());
        let mut idx: usize = 0;
        loop
            invariant
                self.wf(),
                E::searchable(),
                ptr.0 < self.leaves@.len(),
                self.leaves@[ptr.0 as int].sound(),
                entries == self.leaves@[ptr.0 as int].entries(),
                0 <= idx <= at < entries.len(),
                has_item(entries[at], loc),
                forall|i: int| 0 <= i < idx ==> !has_item(#[trigger] entries[i], loc),
            decreases entries.len() - idx,
        {
            let entry = self.leaves[ptr.0].data[idx];
            assert(entry == entries[idx as int]);
            assert(entry_ok(entries[idx as int]));
            match entry.contains(loc) {
                Some(offset) => {
                    return Cursor { node: ptr, idx, offset };
                },
                None => {},
            }
            idx = idx + 1;
        }
    }

    /// Moves the cursor to the start of the next entry. Where that is in another leaf, the
    /// change noted in `marker` first goes to the counts above the leaf left behind, and
    /// the marker starts anew.
    pub fn next_entry_or_panic(&mut self, cursor: &mut Cursor, marker: &mut I::IndexUpdate)
        requires
            old(self).cursor_ok(*old(cursor)),
            old(self).pending(
                old(self).shape@.rank[old(cursor).node.0 as int],
                I::update_extent(*old(marker)),
            ),
            old(self).place(*old(cursor)).entry + 1 < old(self)@.len(),
            I::update_extent(*old(marker)).fits_update(),
            items_len(old(self)@) <= u32::MAX,
        ensures
            final(self).pending(
                final(self).shape@.rank[final(cursor).node.0 as int],
                I::update_extent(*final(marker)),
            ),
            final(self).leaves == old(self).leaves,
            final(self).shape == old(self).shape,
            final(self).root == old(self).root,
            final(self)@ == old(self)@,
            final(self).cursor_ok(*final(cursor)),
            final(self).place(*final(cursor)) == (Place {
                entry: old(self).place(*old(cursor)).entry + 1,
                offset: 0,
            }),
            final(cursor).node == old(cursor).node ==> *final(self) == *old(self)
                && *final(marker) == *old(marker),
            final(cursor).node != old(cursor).node ==> final(self).wf() && I::update_extent(
                *final(marker),
            ) == Extent::zero(),
    {
        let leaf = cursor.node;
        let _ = cursor.next_entry(self);
        if cursor.node != leaf {
            proof {
                self.lemma_entries_ok();
                lemma_total_bound::<E, I>(self@);
                lemma_total_nonneg::<E, I>(self@);
                self.lemma_range_total_all();
            }
            self.flush(leaf, *marker);
            *marker = I::zero_update();
            proof {
                assert(self.parts() == old(self).parts());
                self.lemma_nothing_pending(self.shape@.rank[cursor.node.0 as int]);
            }
        }
    }
}

} // verus!
