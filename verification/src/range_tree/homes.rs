//! Which leaf holds which item.

use crate::range_tree::entry::EntryTraits;
use crate::range_tree::index::TreeIndex;
use crate::range_tree::node::LeafPtr;
use crate::range_tree::runs::{chain_start, lemma_chain_index, lemma_chain_start_mono};
use crate::range_tree::tree::RangeTree;
use vstd::prelude::*;

verus! {

/// The entry holds the item.
pub open spec fn has_item<E: EntryTraits>(entry: E, x: E::Item) -> bool {
    exists|k: int| 0 <= k < entry.span_len() && #[trigger] entry.item_at(k) == x
}

/// Some entry holds the item.
pub open spec fn holds<E: EntryTraits>(entries: Seq<E>, x: E::Item) -> bool {
    exists|i: int| 0 <= i < entries.len() && #[trigger] has_item(entries[i], x)
}

/// No item occurs twice in different entries.
pub open spec fn distinct<E: EntryTraits>(entries: Seq<E>) -> bool {
    forall|i: int, j: int, x: E::Item|
        0 <= i < entries.len() && 0 <= j < entries.len() && #[trigger] has_item(entries[i], x)
            && #[trigger] has_item(entries[j], x) ==> i == j
}

/// A record of which leaf holds each item, after the entries in `notes` were noted down
/// one after the other, each with its leaf.
pub open spec fn noted<E: EntryTraits>(
    record: spec_fn(E::Item) -> LeafPtr,
    notes: Seq<(E, LeafPtr)>,
) -> spec_fn(E::Item) -> LeafPtr
    decreases notes.len(),
{
    if notes.len() == 0 {
        record
    } else {
        let earlier = noted(record, notes.drop_last());
        |x: E::Item|
            if has_item(notes.last().0, x) {
                notes.last().1
            } else {
                earlier(x)
            }
    }
}

pub proof fn lemma_noted_add<E: EntryTraits>(
    record: spec_fn(E::Item) -> LeafPtr,
    a: Seq<(E, LeafPtr)>,
    b: Seq<(E, LeafPtr)>,
)
    ensures
        noted(record, a + b) == noted(noted(record, a), b),
    decreases b.len(),
{
    if b.len() == 0 {
        assert(a + b =~= a);
    } else {
        lemma_noted_add(record, a, b.drop_last());
        assert((a + b).drop_last() =~= a + b.drop_last());
    }
}

/// Where notes agree on the leaf, an item of theirs is in that leaf, and any other item
/// where it was.
pub proof fn lemma_noted_one_leaf<E: EntryTraits>(
    record: spec_fn(E::Item) -> LeafPtr,
    notes: Seq<(E, LeafPtr)>,
    leaf: LeafPtr,
    x: E::Item,
)
    requires
        forall|j: int| 0 <= j < notes.len() ==> (#[trigger] notes[j]).1 == leaf,
    ensures
        (exists|j: int| 0 <= j < notes.len() && has_item((#[trigger] notes[j]).0, x)) ==> noted(
            record,
            notes,
        )(x) == leaf,
        (forall|j: int| 0 <= j < notes.len() ==> !has_item((#[trigger] notes[j]).0, x)) ==> noted(
            record,
            notes,
        )(x) == record(x),
    decreases notes.len(),
{
    if notes.len() > 0 {
        let head = notes.drop_last();
        lemma_noted_one_leaf(record, head, leaf, x);
        assert(notes[notes.len() - 1].1 == leaf);
        if exists|j: int| 0 <= j < notes.len() && has_item((#[trigger] notes[j]).0, x) {
            let j = choose|j: int| 0 <= j < notes.len() && has_item((#[trigger] notes[j]).0, x);
            if j < notes.len() - 1 {
                assert(has_item(head[j].0, x));
            }
        }
        if forall|j: int| 0 <= j < notes.len() ==> !has_item((#[trigger] notes[j]).0, x) {
            assert forall|j: int| 0 <= j < head.len() implies !has_item(
                (#[trigger] head[j]).0,
                x,
            ) by {
                assert(!has_item(notes[j].0, x));
            }
            assert(!has_item(notes[notes.len() - 1].0, x));
        }
    }
}

impl<E: EntryTraits, I: TreeIndex<E>> RangeTree<E, I> {
    /// The record names the leaf of every item in the tree.
    pub open spec fn homes(&self, record: spec_fn(E::Item) -> LeafPtr) -> bool {
        forall|l: int, x: E::Item|
            0 <= l < self.leaves@.len() && #[trigger] holds(self.leaves@[l].entries(), x)
                ==> record(x) == LeafPtr(l as usize)
    }

    /// What a leaf holds, the tree holds.
    pub proof fn lemma_leaf_holds(&self, l: int, x: E::Item)
        requires
            self.order_ok(),
            0 <= l < self.leaves@.len(),
            holds(self.leaves@[l].entries(), x),
        ensures
            holds(self@, x),
    {
        let part = self.leaves@[l].entries();
        let i = choose|i: int| 0 <= i < part.len() && #[trigger] has_item(part[i], x);
        let r = self.shape@.rank[l];
        assert(self.shape@.order[r] == l);
        lemma_chain_index(self.parts(), r, i);
        assert(has_item(self@[chain_start(self.parts(), r) + i], x));
    }

    /// An item of a tree without duplicates is in one leaf only.
    pub proof fn lemma_one_home(&self, l: int, i: int, m: int, j: int, x: E::Item)
        requires
            self.order_ok(),
            distinct(self@),
            0 <= l < self.leaves@.len(),
            0 <= m < self.leaves@.len(),
            0 <= i < self.leaves@[l].entries().len(),
            0 <= j < self.leaves@[m].entries().len(),
            has_item(self.leaves@[l].entries()[i], x),
            has_item(self.leaves@[m].entries()[j], x),
        ensures
            l == m,
            i == j,
    {
        let r = self.shape@.rank[l];
        let s = self.shape@.rank[m];
        assert(self.shape@.order[r] == l);
        assert(self.shape@.order[s] == m);
        lemma_chain_index(self.parts(), r, i);
        lemma_chain_index(self.parts(), s, j);
        if r < s {
            lemma_chain_start_mono(self.parts(), r, s);
        } else if s < r {
            lemma_chain_start_mono(self.parts(), s, r);
        }
        assert(has_item(self@[chain_start(self.parts(), r) + i], x));
        assert(has_item(self@[chain_start(self.parts(), s) + j], x));
    }
}

} // verus!
