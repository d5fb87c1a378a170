//! The nodes of a tree, and the pointers between them.

use crate::range_tree::entry::EntryTraits;
use crate::range_tree::index::TreeIndex;
use crate::range_tree::runs::{entries_ok, entry_ok};
use vstd::prelude::*;

verus! {

/// The most children that an inner node has.
pub const NODE_CHILDREN: usize = 16;

/// The most entries that a leaf holds.
pub const LEAF_ENTRIES: usize = 32;

/// Names a leaf of a tree. The name stays good as long as the tree lives.
#[derive(Clone, Copy, Debug, PartialEq, Eq, Structural)]
pub struct LeafPtr(pub usize);

/// Names a node of a tree.
#[derive(Clone, Copy, Debug, PartialEq, Eq, Structural)]
pub enum NodePtr {
    Internal(usize),
    Leaf(LeafPtr),
}

/// Names what a node hangs from: the tree itself, or an inner node.
#[derive(Clone, Copy, Debug, PartialEq, Eq, Structural)]
pub enum ParentPtr {
    Root,
    Internal(usize),
}

/// A leaf: a row of slots, of which the first `num_entries` are in use.
pub struct NodeLeaf<E> {
    pub parent: ParentPtr,
    pub num_entries: usize,
    pub data: Vec<E>,
}

/// An inner node: its children, each with what it counts for.
pub struct NodeInternal<E: EntryTraits, I: TreeIndex<E>> {
    pub parent: ParentPtr,
    pub data: Vec<(I::IndexOffset, NodePtr)>,
}

impl<E: EntryTraits> NodeLeaf<E> {
    /// The entries in use.
    pub open spec fn entries(&self) -> Seq<E> {
        self.data@.take(self.num_entries as int)
    }

    /// The slots in use come first and hold entries; the others are marked unused.
    pub open spec fn sound(&self) -> bool {
        &&& self.data@.len() == LEAF_ENTRIES
        &&& self.num_entries <= LEAF_ENTRIES
        &&& entries_ok(self.entries())
        &&& forall|i: int|
            self.num_entries <= i < LEAF_ENTRIES ==> (#[trigger] self.data@[i]).span_ok()
                && !self.data@[i].valid()
    }

    /// A leaf without entries.
    pub(crate) fn new(parent: ParentPtr) -> (leaf: Self)
        ensures
            leaf.parent == parent,
            leaf.sound(),
            leaf.entries() == Seq::<E>::empty(),
    {
        let mut data: Vec<E> = Vec::new();
        let mut i: usize = 0;
        while i < LEAF_ENTRIES
            invariant
                i <= LEAF_ENTRIES,
                data@.len() == i,
                forall|j: int| 0 <= j < i ==> (#[trigger] data@[j]).span_ok() && !data@[j].valid(),
            decreases LEAF_ENTRIES - i,
        {
            let unused = E::default();
            proof {
                E::lemma_default(unused);
            }
            data.push(unused);
            i += 1;
        }
        let leaf = NodeLeaf { parent, num_entries: 0, data };
        assert(leaf.entries() =~= Seq::<E>::empty());
        leaf
    }

    /// The number of entries.
    pub fn len_entries(&self) -> (n: usize)
        ensures
            n == self.num_entries,
    {
        self.num_entries
    }

    /// Replaces an entry.
    pub(crate) fn set(&mut self, idx: usize, entry: E)
        requires
            old(self).sound(),
            idx < old(self).num_entries,
            entry_ok(entry),
        ensures
            final(self).sound(),
            final(self).parent == old(self).parent,
            final(self).num_entries == old(self).num_entries,
            final(self).entries() == old(self).entries().update(idx as int, entry),
    {
        self.data[idx] = entry;
        assert(self.entries() =~= old(self).entries().update(idx as int, entry));
    }

    /// Inserts an entry into a leaf that has an unused slot.
    pub(crate) fn insert(&mut self, idx: usize, entry: E)
        requires
            old(self).sound(),
            idx <= old(self).num_entries < LEAF_ENTRIES,
            entry_ok(entry),
        ensures
            final(self).sound(),
            final(self).parent == old(self).parent,
            final(self).num_entries == old(self).num_entries + 1,
            final(self).entries() == old(self).entries().insert(idx as int, entry),
    {
        self.data.insert(idx, entry);
        self.data.pop();
        self.num_entries = self.num_entries + 1;
        let ghost before = old(self).entries();
        assert(self.entries() =~= before.insert(idx as int, entry));
        assert forall|i: int| 0 <= i < self.entries().len() implies entry_ok(
            #[trigger] self.entries()[i],
        ) by {
            if i < idx {
                assert(entry_ok(before[i]));
            } else if i > idx {
                assert(entry_ok(before[i - 1]));
            }
        }
        assert forall|i: int| self.num_entries <= i < LEAF_ENTRIES implies (
        #[trigger] self.data@[i]).span_ok() && !self.data@[i].valid() by {
            assert(self.data@[i] == old(self).data@[i - 1]);
        }
    }

    /// Moves the entries from `at` on to a leaf of their own.
    pub(crate) fn split_off(&mut self, at: usize) -> (rest: Self)
        requires
            old(self).sound(),
            at <= old(self).num_entries,
        ensures
            final(self).sound(),
            final(self).parent == old(self).parent,
            final(self).num_entries == at,
            final(self).entries() == old(self).entries().take(at as int),
            rest.sound(),
            rest.parent == old(self).parent,
            rest.entries() == old(self).entries().skip(at as int),
    {
        let mut rest: NodeLeaf<E> = NodeLeaf::new(self.parent);
        let ghost before = self.entries();
        let n = self.num_entries;
        let mut i: usize = at;
        assert(before.skip(at as int).take(0) =~= Seq::<E>::empty());
        while i < n
            invariant
                at <= i <= n,
                n == old(self).num_entries,
                old(self).sound(),
                before == old(self).entries(),
                self.parent == old(self).parent,
                self.num_entries == n,
                self.data@.len() == LEAF_ENTRIES,
                forall|j: int| 0 <= j < at ==> self.data@[j] == old(self).data@[j],
                forall|j: int| i <= j < LEAF_ENTRIES ==> self.data@[j] == old(self).data@[j],
                forall|j: int|
                    at <= j < i ==> (#[trigger] self.data@[j]).span_ok() && !self.data@[j].valid(),
                rest.sound(),
                rest.parent == old(self).parent,
                rest.num_entries == i - at,
                rest.entries() == before.skip(at as int).take(i - at),
            decreases n - i,
        {
            let unused = E::default();
            proof {
                E::lemma_default(unused);
                assert(entry_ok(before[i as int]));
            }
            let len = rest.num_entries;
            rest.insert(len, self.data[i]);
            assert(rest.entries() =~= before.skip(at as int).take(i + 1 - at));
            self.data[i] = unused;
            i += 1;
        }
        self.num_entries = at;
        assert(before.skip(at as int).take(n - at) =~= before.skip(at as int));
        assert(self.entries() =~= before.take(at as int));
        assert forall|j: int| 0 <= j < self.entries().len() implies entry_ok(
            #[trigger] self.entries()[j],
        ) by {
            assert(entry_ok(before[j]));
        }
        assert forall|j: int| self.num_entries <= j < LEAF_ENTRIES implies (
        #[trigger] self.data@[j]).span_ok() && !self.data@[j].valid() by {
            if j >= n {
                assert(self.data@[j] == old(self).data@[j]);
            }
        }
        rest
    }
}

} // verus!
