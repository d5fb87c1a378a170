//! Changing the entries of a tree.

use crate::range_tree::cursor::{Cursor, Place};
use crate::range_tree::entry::EntryTraits;
use crate::range_tree::homes::{
    distinct, has_item, holds, lemma_noted_add, lemma_noted_one_leaf, noted,
};
use crate::range_tree::index::{Extent, TreeIndex};
use crate::range_tree::node::{LeafPtr, NodePtr, ParentPtr, LEAF_ENTRIES};
use crate::range_tree::runs::{
    chain, chain_start, entries_ok, entry_ok, items_len, lemma_chain_around, lemma_chain_index,
    lemma_chain_start_next, lemma_chain_update, lemma_items_len_add, lemma_items_len_one,
    lemma_total_add, lemma_total_bound, lemma_total_nonneg, lemma_total_one, total,
};
use crate::range_tree::tree::RangeTree;
use crate::splitable_span::{can_glue, glues};
use vstd::prelude::*;

verus! {

/// Notes are of sound entries, with items that the tree holds.
pub open spec fn notes_ok<E: EntryTraits>(notes: Seq<(E, LeafPtr)>, entries: Seq<E>) -> bool {
    &&& forall|j: int| 0 <= j < notes.len() ==> entry_ok((#[trigger] notes[j]).0)
    &&& forall|j: int, x: E::Item|
        0 <= j < notes.len() && #[trigger] has_item(notes[j].0, x) ==> holds(entries, x)
}

/// Notes of an insertion: the last one is of the new entry, the others are of entries
/// that were there before.
pub open spec fn notes_of_insert<E: EntryTraits>(
    notes: Seq<(E, LeafPtr)>,
    item: E,
    before: Seq<E>,
) -> bool {
    &&& notes.len() > 0
    &&& notes.last().0 == item
    &&& notes_ok(notes.drop_last(), before)
}

impl<E: EntryTraits, I: TreeIndex<E>> RangeTree<E, I> {
    /// A sound tree has nothing pending anywhere.
    pub proof fn lemma_nothing_pending(&self, r: int)
        requires
            self.wf(),
            0 <= r < self.shape@.order.len(),
        ensures
            self.pending(r, Extent::zero()),
    {
        assert forall|n: int, i: int|
            0 <= n < self.nodes@.len() && 0 <= i < self.num_children(n) implies (
        #[trigger] self.child_count(n, i)).plus(
            self.missing_at(self.child(n, i), r, 0, Extent::zero()),
        ) == self.range_total(self.span_of(self.child(n, i))) by {
            assert(self.child_count(n, i).plus(
                self.missing_at(self.child(n, i), 0, 0, Extent::zero()),
            ) == self.range_total(self.span_of(self.child(n, i))));
        }
    }

    /// The tree is `before` with the entries of the leaf `l` changed.
    spec fn is_leaf_edit(&self, before: Self, l: int) -> bool {
        &&& 0 <= l < before.leaves@.len()
        &&& self.count == before.count
        &&& self.root == before.root
        &&& self.nodes == before.nodes
        &&& self.shape == before.shape
        &&& self.leaves@.len() == before.leaves@.len()
        &&& forall|x: int|
            0 <= x < self.leaves@.len() && x != l ==> #[trigger] self.leaves@[x]
                == before.leaves@[x]
        &&& self.leaves@[l].parent == before.leaves@[l].parent
        &&& self.leaves@[l].sound()
        &&& self.leaves@[l].num_entries > 0
    }

    /// Changing the entries of a leaf leaves that change pending.
    proof fn lemma_leaf_edit(&self, before: Self, l: int, missing: Extent)
        requires
            before.pending(before.shape@.rank[l], missing),
            self.is_leaf_edit(before, l),
        ensures
            self.parts() == before.parts().update(
                before.shape@.rank[l],
                self.leaves@[l].entries(),
            ),
            self.pending(
                self.shape@.rank[l],
                missing.plus(total::<E, I>(self.leaves@[l].entries())).minus(
                    total::<E, I>(before.leaves@[l].entries()),
                ),
            ),
            total::<E, I>(self@) == total::<E, I>(before@).plus(
                total::<E, I>(self.leaves@[l].entries()),
            ).minus(total::<E, I>(before.leaves@[l].entries())),
    {
        let r = before.shape@.rank[l];
        let old_part = before.leaves@[l].entries();
        let new_part = self.leaves@[l].entries();
        let now = missing.plus(total::<E, I>(new_part)).minus(total::<E, I>(old_part));
        assert(before.shape@.order[r] == l);
        let edited = before.parts().update(r, new_part);
        assert forall|x: int| 0 <= x < edited.len() implies self.parts()[x] == edited[x] by {
            let y = before.shape@.order[x];
            assert(before.shape@.rank[y] == x);
        }
        assert(self.parts() =~= edited);
        assert forall|q: NodePtr| #[trigger] before.ptr_ok(q) implies self.span_of(q)
            == before.span_of(q) && self.height_of(q) == before.height_of(q) && self.parent_of(q)
            == before.parent_of(q) by {
            match q {
                NodePtr::Leaf(x) => {
                    if x.0 != l {
                        assert(self.leaves@[x.0 as int] == before.leaves@[x.0 as int]);
                    }
                },
                NodePtr::Internal(_) => {},
            }
        }
        assert(before.ptr_ok(before.root));
        assert forall|n: int| 0 <= n < self.nodes@.len() implies #[trigger] self.node_ok(n) by {
            assert(before.node_ok(n));
            assert forall|i: int| 0 <= i < self.num_children(n) implies #[trigger] self.child(n, i)
                == before.child(n, i) && self.span_of(self.child(n, i)) == before.span_of(
                before.child(n, i),
            ) by {
                assert(before.child_ok(n, i));
                assert(before.ptr_ok(before.child(n, i)));
            }
            assert forall|i: int| 0 <= i < self.num_children(n) implies #[trigger] self.child_ok(
                n,
                i,
            ) by {
                assert(before.child_ok(n, i));
                assert(before.ptr_ok(before.child(n, i)));
            }
            assert(self.child(n, 0) == before.child(n, 0));
            assert(self.child(n, self.num_children(n) - 1) == before.child(
                n,
                self.num_children(n) - 1,
            ));
        }
        assert forall|q: NodePtr| #[trigger] self.ptr_ok(q) implies self.hangs_ok(q) by {
            assert(before.ptr_ok(q));
            assert(before.hangs_ok(q));
            match before.parent_of(q) {
                ParentPtr::Internal(k) => {
                    let i = choose|i: int|
                        0 <= i < before.num_children(k as int) && #[trigger] before.child(
                            k as int,
                            i,
                        ) == q;
                    assert(self.child(k as int, i) == q);
                },
                ParentPtr::Root => {},
            }
        }
        assert forall|x: int| 0 <= x < self.leaves@.len() implies {
            &&& (#[trigger] self.leaves@[x]).sound()
            &&& self.leaves@[x].num_entries == 0 ==> self.root == NodePtr::Leaf(
                LeafPtr(x as usize),
            )
        } by {
            if x != l {
                assert(before.leaves@[x].sound());
            }
        }
        assert forall|n: int, i: int|
            0 <= n < self.nodes@.len() && 0 <= i < self.num_children(n) implies (
        #[trigger] self.child_count(n, i)).plus(
            self.missing_at(self.child(n, i), r, 0, now),
        ) == self.range_total(self.span_of(self.child(n, i))) by {
            let c = before.child(n, i);
            assert(self.child(n, i) == c);
            assert(before.node_ok(n));
            assert(before.child_ok(n, i));
            assert(before.ptr_ok(c));
            assert(before.child_count(n, i).plus(before.missing_at(c, r, 0, missing))
                == before.range_total(before.span_of(c)));
            self.lemma_edit_total(before, l, before.span_of(c));
            match c {
                NodePtr::Internal(k) => {
                    assert(before.node_ok(k as int));
                },
                NodePtr::Leaf(_) => {},
            }
        }
        self.lemma_edit_total(before, l, before.span_of(before.root));
        match before.root {
            NodePtr::Internal(k) => {
                assert(before.node_ok(k as int));
            },
            NodePtr::Leaf(_) => {},
        }
        let n = before.parts().len() as int;
        assert(self.parts().subrange(0, n) =~= self.parts());
        assert(before.parts().subrange(0, n) =~= before.parts());
    }

    proof fn lemma_edit_total(&self, before: Self, l: int, span: (int, int))
        requires
            before.order_ok(),
            self.is_leaf_edit(before, l),
            self.parts() == before.parts().update(
                before.shape@.rank[l],
                self.leaves@[l].entries(),
            ),
            0 <= span.0 <= span.1 <= before.shape@.order.len(),
        ensures
            self.range_total(span) == if span.0 <= before.shape@.rank[l] < span.1 {
                before.range_total(span).plus(total::<E, I>(self.leaves@[l].entries())).minus(
                    total::<E, I>(before.leaves@[l].entries()),
                )
            } else {
                before.range_total(span)
            },
    {
        let r = before.shape@.rank[l];
        assert(before.shape@.order[r] == l);
        let was = before.parts().subrange(span.0, span.1);
        let now = self.parts().subrange(span.0, span.1);
        if span.0 <= r < span.1 {
            let at = r - span.0;
            let old_part = before.leaves@[l].entries();
            let new_part = self.leaves@[l].entries();
            assert(now =~= was.update(at, new_part));
            assert(was[at] == old_part);
            lemma_chain_around(was, at);
            lemma_chain_update(was, at, new_part);
            let a = chain(was.take(at));
            let b = chain(was.skip(at + 1));
            lemma_total_add::<E, I>(a, old_part);
            lemma_total_add::<E, I>(a + old_part, b);
            lemma_total_add::<E, I>(a, new_part);
            lemma_total_add::<E, I>(a + new_part, b);
        } else {
            assert(now =~= was);
        }
    }

    /// All leaves together count for what all entries count for.
    pub proof fn lemma_range_total_all(&self)
        ensures
            self.range_total((0, self.shape@.order.len() as int)) == total::<E, I>(self@),
    {
        assert(self.parts().subrange(0, self.parts().len() as int) =~= self.parts());
    }

    /// The entries of one leaf within all entries.
    proof fn lemma_leaf_in_all(&self, before: Self, l: int)
        requires
            before.order_ok(),
            0 <= l < before.leaves@.len(),
            self.parts() == before.parts().update(
                before.shape@.rank[l],
                self.leaves@[l].entries(),
            ),
        ensures
            ({
                let r = before.shape@.rank[l];
                let a = chain(before.parts().take(r));
                let b = chain(before.parts().skip(r + 1));
                &&& before@ == a + before.leaves@[l].entries() + b
                &&& self@ == a + self.leaves@[l].entries() + b
                &&& a.len() == chain_start(before.parts(), r)
                &&& chain_start(self.parts(), r) == chain_start(before.parts(), r)
            }),
    {
        let r = before.shape@.rank[l];
        assert(before.shape@.order[r] == l);
        lemma_chain_around(before.parts(), r);
        lemma_chain_update(before.parts(), r, self.leaves@[l].entries());
    }

    /// Replaces an entry; the change of the counts is noted in `marker`.
    pub(crate) fn set_pending(
        &mut self,
        leaf: LeafPtr,
        idx: usize,
        entry: E,
        marker: &mut I::IndexUpdate,
    )
        requires
            leaf.0 < old(self).leaves@.len(),
            old(self).pending(
                old(self).shape@.rank[leaf.0 as int],
                I::update_extent(*old(marker)),
            ),
            idx < old(self).leaves@[leaf.0 as int].num_entries,
            entry_ok(entry),
            i64::MIN / 4 <= I::update_extent(*old(marker)).len <= i64::MAX / 4,
            i64::MIN / 4 <= I::update_extent(*old(marker)).content <= i64::MAX / 4,
        ensures
            final(self).pending(
                final(self).shape@.rank[leaf.0 as int],
                I::update_extent(*final(marker)),
            ),
            final(self).shape == old(self).shape,
            final(self).root == old(self).root,
            final(self).leaves@.len() == old(self).leaves@.len(),
            I::update_extent(*final(marker)) == I::update_extent(*old(marker)).minus(
                I::extent(old(self).leaves@[leaf.0 as int].entries()[idx as int]),
            ).plus(I::extent(entry)),
            final(self)@ == old(self)@.update(
                chain_start(old(self).parts(), old(self).shape@.rank[leaf.0 as int]) + idx,
                entry,
            ),
            chain_start(final(self).parts(), old(self).shape@.rank[leaf.0 as int]) == chain_start(
                old(self).parts(),
                old(self).shape@.rank[leaf.0 as int],
            ),
            final(self).leaves@[leaf.0 as int].entries()
                == old(self).leaves@[leaf.0 as int].entries().update(idx as int, entry),
            forall|x: int|
                0 <= x < final(self).leaves@.len() && x != leaf.0
                    ==> #[trigger] final(self).leaves@[x] == old(self).leaves@[x],
    {
        let ghost was = self.leaves@[leaf.0 as int].entries();
        let ghost missing = I::update_extent(*marker);
        assert(self.leaves@[leaf.0 as int].sound());
        let old_entry = self.leaves[leaf.0].data[idx];
        proof {
            assert(entry_ok(was[idx as int]));
            I::lemma_extent_bound(old_entry);
            I::lemma_extent_bound(entry);
            old_entry.lemma_len_bound();
            entry.lemma_len_bound();
        }
        I::decrement_marker(marker, &old_entry);
        I::increment_marker(marker, &entry);
        self.leaves[leaf.0].set(idx, entry);
        proof {
            let now = self.leaves@[leaf.0 as int].entries();
            self.lemma_leaf_edit(*old(self), leaf.0 as int, missing);
            self.lemma_leaf_in_all(*old(self), leaf.0 as int);
            let a = was.take(idx as int);
            let b = was.skip(idx + 1);
            assert(was =~= a + seq![old_entry] + b);
            assert(now =~= a + seq![entry] + b);
            lemma_total_add::<E, I>(a, seq![old_entry]);
            lemma_total_add::<E, I>(a + seq![old_entry], b);
            lemma_total_add::<E, I>(a, seq![entry]);
            lemma_total_add::<E, I>(a + seq![entry], b);
            lemma_total_one::<E, I>(old_entry);
            lemma_total_one::<E, I>(entry);
            assert(self@ =~= old(self)@.update(
                chain_start(old(self).parts(), old(self).shape@.rank[leaf.0 as int]) + idx,
                entry,
            ));
        }
    }

    /// Inserts an entry into a leaf that has room for it.
    fn insert_with_room(&mut self, leaf: LeafPtr, idx: usize, entry: E)
        requires
            old(self).wf(),
            leaf.0 < old(self).leaves@.len(),
            idx <= old(self).leaves@[leaf.0 as int].num_entries < LEAF_ENTRIES,
            entry_ok(entry),
            items_len(old(self)@) + entry.span_len() <= u32::MAX,
        ensures
            final(self).wf(),
            final(self).shape == old(self).shape,
            final(self).root == old(self).root,
            final(self).leaves@.len() == old(self).leaves@.len(),
            final(self)@ == old(self)@.insert(
                chain_start(old(self).parts(), old(self).shape@.rank[leaf.0 as int]) + idx,
                entry,
            ),
            chain_start(final(self).parts(), old(self).shape@.rank[leaf.0 as int]) == chain_start(
                old(self).parts(),
                old(self).shape@.rank[leaf.0 as int],
            ),
            final(self).leaves@[leaf.0 as int].entries()
                == old(self).leaves@[leaf.0 as int].entries().insert(idx as int, entry),
            forall|x: int|
                0 <= x < final(self).leaves@.len() && x != leaf.0
                    ==> #[trigger] final(self).leaves@[x] == old(self).leaves@[x],
    {
        let ghost was = self.leaves@[leaf.0 as int].entries();
        let ghost r = self.shape@.rank[leaf.0 as int];
        proof {
            assert(self.leaves@[leaf.0 as int].sound());
            I::lemma_extent_bound(entry);
            entry.lemma_len_bound();
            self.lemma_nothing_pending(r);
        }
        let mut marker = I::zero_update();
        I::increment_marker(&mut marker, &entry);
        self.leaves[leaf.0].insert(idx, entry);
        proof {
            let now = self.leaves@[leaf.0 as int].entries();
            self.lemma_leaf_edit(*old(self), leaf.0 as int, Extent::zero());
            self.lemma_leaf_in_all(*old(self), leaf.0 as int);
            let a = was.take(idx as int);
            let b = was.skip(idx as int);
            assert(was =~= a + b);
            assert(now =~= a + seq![entry] + b);
            lemma_total_add::<E, I>(a, b);
            lemma_total_add::<E, I>(a, seq![entry]);
            lemma_total_add::<E, I>(a + seq![entry], b);
            lemma_total_one::<E, I>(entry);
            assert(self@ =~= old(self)@.insert(
                chain_start(old(self).parts(), r) + idx,
                entry,
            ));
            old(self).lemma_entries_ok();
            lemma_total_bound::<E, I>(old(self)@);
            lemma_total_nonneg::<E, I>(old(self)@);
            self.lemma_range_total_all();
        }
        self.flush(leaf, marker);
    }

    /// Where a leaf's entries stay apart from one that came into it, the record of homes
    /// with that entry noted down is right again.
    proof fn lemma_homes_insert(
        &self,
        before: Self,
        leaf: LeafPtr,
        entry: E,
        record: spec_fn(E::Item) -> LeafPtr,
    )
        requires
            before.homes(record),
            self.order_ok(),
            distinct(self@),
            leaf.0 < self.leaves@.len(),
            self.leaves@.len() == before.leaves@.len(),
            forall|x: int|
                0 <= x < self.leaves@.len() && x != leaf.0 ==> #[trigger] self.leaves@[x]
                    == before.leaves@[x],
            exists|i: int|
                0 <= i < self.leaves@[leaf.0 as int].entries().len() && self.leaves@[
                    leaf.0 as int
                ].entries()[i] == entry,
            forall|x: E::Item| #[trigger]
                holds(self.leaves@[leaf.0 as int].entries(), x) ==> has_item(entry, x) || holds(
                    before.leaves@[leaf.0 as int].entries(),
                    x,
                ),
        ensures
            self.homes(noted(record, seq![(entry, leaf)])),
    {
        let notes = seq![(entry, leaf)];
        assert(notes.drop_last() =~= Seq::empty());
        let now = noted(record, notes);
        assert(noted(record, notes.drop_last()) == record);
        let i = choose|i: int|
            0 <= i < self.leaves@[leaf.0 as int].entries().len() && self.leaves@[
                leaf.0 as int
            ].entries()[i] == entry;
        assert forall|l: int, x: E::Item|
            0 <= l < self.leaves@.len() && #[trigger] holds(
                self.leaves@[l].entries(),
                x,
            ) implies now(x) == LeafPtr(l as usize) by {
            if has_item(entry, x) {
                let j = choose|j: int|
                    0 <= j < self.leaves@[l].entries().len() && #[trigger] has_item(
                        self.leaves@[l].entries()[j],
                        x,
                    );
                self.lemma_one_home(l, j, leaf.0 as int, i, x);
            } else {
                assert(holds(before.leaves@[l].entries(), x));
            }
        }
    }

    /// After a leaf was split, the record of homes is right with the moved entries noted
    /// down.
    proof fn lemma_homes_split(
        &self,
        before: Self,
        leaf: LeafPtr,
        new: LeafPtr,
        half: int,
        notes: Seq<(E, LeafPtr)>,
        record: spec_fn(E::Item) -> LeafPtr,
    )
        requires
            before.homes(record),
            before.order_ok(),
            distinct(before@),
            leaf.0 < before.leaves@.len(),
            new.0 == before.leaves@.len(),
            self.leaves@.len() == new.0 + 1,
            0 <= half <= before.leaves@[leaf.0 as int].entries().len(),
            self.leaves@[leaf.0 as int].entries() == before.leaves@[leaf.0 as int].entries().take(
                half,
            ),
            self.leaves@[new.0 as int].entries() == before.leaves@[leaf.0 as int].entries().skip(
                half,
            ),
            forall|x: int|
                0 <= x < new.0 && x != leaf.0 ==> (#[trigger] self.leaves@[x]).entries()
                    == before.leaves@[x].entries(),
            notes.len() == self.leaves@[new.0 as int].entries().len(),
            forall|j: int|
                0 <= j < notes.len() ==> #[trigger] notes[j] == (
                    self.leaves@[new.0 as int].entries()[j],
                    new,
                ),
        ensures
            self.homes(noted(record, notes)),
    {
        let was = before.leaves@[leaf.0 as int].entries();
        let now = noted(record, notes);
        assert forall|l: int, x: E::Item|
            0 <= l < self.leaves@.len() && #[trigger] holds(
                self.leaves@[l].entries(),
                x,
            ) implies now(x) == LeafPtr(l as usize) by {
            lemma_noted_one_leaf(record, notes, new, x);
            let j = choose|j: int|
                0 <= j < self.leaves@[l].entries().len() && #[trigger] has_item(
                    self.leaves@[l].entries()[j],
                    x,
                );
            if l == new.0 {
                assert(has_item(notes[j].0, x));
            } else {
                let there = before.leaves@[l].entries();
                assert(there[j] == self.leaves@[l].entries()[j]);
                assert(holds(there, x));
                assert forall|k: int| 0 <= k < notes.len() implies !has_item(
                    (#[trigger] notes[k]).0,
                    x,
                ) by {
                    if has_item(notes[k].0, x) {
                        assert(notes[k].0 == was[half + k]);
                        before.lemma_one_home(l, j, leaf.0 as int, half + k, x);
                    }
                }
            }
        }
    }

    /// Inserts an entry into a leaf. Where the leaf is full, half of its entries move to
    /// a new leaf. Gives back where the entry is, and which entries are in another leaf
    /// than before.
    fn insert_entry(&mut self, leaf: LeafPtr, idx: usize, entry: E) -> (res: (
        Cursor,
        Vec<(E, LeafPtr)>,
    ))
        requires
            old(self).wf(),
            leaf.0 < old(self).leaves@.len(),
            idx <= old(self).leaves@[leaf.0 as int].num_entries,
            entry_ok(entry),
            items_len(old(self)@) + entry.span_len() <= u32::MAX,
        ensures
            final(self).wf(),
            final(self)@ == old(self)@.insert(
                chain_start(old(self).parts(), old(self).shape@.rank[leaf.0 as int]) + idx,
                entry,
            ),
            final(self).cursor_ok(res.0),
            final(self).place(res.0) == (Place {
                entry: chain_start(old(self).parts(), old(self).shape@.rank[leaf.0 as int]) + idx,
                offset: 0,
            }),
            notes_of_insert(res.1@, entry, old(self)@),
            forall|record: spec_fn(E::Item) -> LeafPtr| #[trigger]
                old(self).homes(record) && distinct(final(self)@) ==> final(self).homes(
                    noted(record, res.1@),
                ),
    {
        let ghost at = chain_start(self.parts(), self.shape@.rank[leaf.0 as int]) + idx;
        proof {
            let r = self.shape@.rank[leaf.0 as int];
            assert(self.shape@.order[r] == leaf.0);
            assert(self.leaves@[leaf.0 as int].sound());
            lemma_chain_start_next(self.parts(), r);
        }
        let mut leaf = leaf;
        let mut idx = idx;
        let mut notes: Vec<(E, LeafPtr)> = Vec::new();
        assert(self.leaves@[leaf.0 as int].sound());
        if self.leaves[leaf.0].num_entries == LEAF_ENTRIES {
            let ghost before = *self;
            let half: usize = LEAF_ENTRIES / 2;
            proof {
                assert forall|l: int| 0 <= l < self.leaves@.len() implies (
                #[trigger] self.leaves@[l]).num_entries > 0 by {
                    if self.leaves@[l].num_entries == 0 {
                        assert(self.root == NodePtr::Leaf(LeafPtr(l as usize)));
                        let r = self.shape@.rank[leaf.0 as int];
                        assert(self.shape@.rank[l] == 0);
                        assert(self.shape@.order.len() == 1);
                        assert(self.shape@.order[r] == leaf.0);
                        assert(self.shape@.order[self.shape@.rank[l]] == l);
                    }
                }
                assert(self.ptr_ok(NodePtr::Leaf(leaf)));
            }
            self.make_room(NodePtr::Leaf(leaf));
            proof {
                self.lemma_same_leaves(before);
                assert forall|l: int| 0 <= l < self.leaves@.len() implies (
                #[trigger] self.leaves@[l]).entries() == before.leaves@[l].entries() by {
                    assert(self.leaves@[l].entries() =~= before.leaves@[l].entries());
                }
            }
            if let ParentPtr::Internal(g) = self.get_parent(NodePtr::Leaf(leaf)) {
                let ghost roomy = *self;
                let new = self.split_leaf(leaf, g);
                assert(self.leaves@[new.0 as int].sound());
                let moved: usize = self.leaves[new.0].num_entries;
                let mut j: usize = 0;
                while j < moved
                    invariant
                        j <= moved,
                        new.0 < self.leaves@.len(),
                        self.leaves@[new.0 as int].sound(),
                        moved == self.leaves@[new.0 as int].num_entries,
                        notes@.len() == j,
                        forall|k: int|
                            0 <= k < j ==> #[trigger] notes@[k] == (
                                self.leaves@[new.0 as int].entries()[k],
                                new,
                            ),
                    decreases moved - j,
                {
                    notes.push((self.leaves[new.0].data[j], new));
                    j = j + 1;
                }
                proof {
                    let moved_part = self.leaves@[new.0 as int].entries();
                    let s = self.shape@.rank[new.0 as int];
                    assert(self.shape@.order[s] == new.0);
                    assert forall|j: int, x: E::Item|
                        0 <= j < notes@.len() && #[trigger] has_item(notes@[j].0, x) implies holds(
                        self@,
                        x,
                    ) by {
                        assert(notes@[j].0 == moved_part[j]);
                        lemma_chain_index(self.parts(), s, j);
                        assert(has_item(self@[chain_start(self.parts(), s) + j], x));
                    }
                    assert forall|j: int| 0 <= j < notes@.len() implies entry_ok(
                        (#[trigger] notes@[j]).0,
                    ) by {
                        assert(entry_ok(moved_part[j]));
                    }
                    assert forall|record: spec_fn(E::Item) -> LeafPtr| #[trigger]
                        old(self).homes(record) && distinct(self@) implies self.homes(
                        noted(record, notes@),
                    ) by {
                        assert(roomy.homes(record));
                        self.lemma_homes_split(
                            roomy,
                            leaf,
                            new,
                            half as int,
                            notes@,
                            record,
                        );
                    }
                }
                if idx > half {
                    leaf = new;
                    idx = idx - half;
                }
            }
        }
        let ghost mid = *self;
        let ghost moved = notes@;
        assert(chain_start(self.parts(), self.shape@.rank[leaf.0 as int]) + idx == at);
        assert(self@ == old(self)@);
        self.insert_with_room(leaf, idx, entry);
        notes.push((entry, leaf));
        let cursor = Cursor { node: leaf, idx, offset: 0 };
        proof {
            let part = self.leaves@[leaf.0 as int].entries();
            let was = mid.leaves@[leaf.0 as int].entries();
            assert(part[idx as int] == entry);
            assert(notes@ =~= moved + seq![(entry, leaf)]);
            lemma_parts_distinct(mid@, at, entry);
            assert(notes@.drop_last() =~= moved);
            assert forall|x: E::Item| #[trigger] holds(part, x) implies has_item(entry, x) || holds(
                was,
                x,
            ) by {
                let j = choose|j: int| 0 <= j < part.len() && #[trigger] has_item(part[j], x);
                if j < idx {
                    assert(has_item(was[j], x));
                } else if j > idx {
                    assert(has_item(was[j - 1], x));
                }
            }
            assert forall|record: spec_fn(E::Item) -> LeafPtr| #[trigger]
                old(self).homes(record) && distinct(self@) implies self.homes(
                noted(record, notes@),
            ) by {
                assert(mid.homes(noted(record, moved)));
                self.lemma_homes_insert(mid, leaf, entry, noted(record, moved));
                lemma_noted_add(record, moved, seq![(entry, leaf)]);
            }
        }
        (cursor, notes)
    }

    /// Replaces an entry.
    pub(crate) fn set_entry(&mut self, leaf: LeafPtr, idx: usize, entry: E)
        requires
            old(self).wf(),
            leaf.0 < old(self).leaves@.len(),
            idx < old(self).leaves@[leaf.0 as int].num_entries,
            entry_ok(entry),
            items_len(old(self)@) - old(self).leaves@[leaf.0 as int].entries()[idx as int].span_len()
                + entry.span_len() <= u32::MAX,
        ensures
            final(self).wf(),
            final(self).shape == old(self).shape,
            final(self).leaves@.len() == old(self).leaves@.len(),
            final(self)@ == old(self)@.update(
                chain_start(old(self).parts(), old(self).shape@.rank[leaf.0 as int]) + idx,
                entry,
            ),
            chain_start(final(self).parts(), old(self).shape@.rank[leaf.0 as int]) == chain_start(
                old(self).parts(),
                old(self).shape@.rank[leaf.0 as int],
            ),
            final(self).leaves@[leaf.0 as int].entries()
                == old(self).leaves@[leaf.0 as int].entries().update(idx as int, entry),
            forall|x: int|
                0 <= x < final(self).leaves@.len() && x != leaf.0
                    ==> #[trigger] final(self).leaves@[x] == old(self).leaves@[x],
    {
        let ghost r = self.shape@.rank[leaf.0 as int];
        let ghost at = chain_start(self.parts(), r) + idx;
        let ghost was = self.leaves@[leaf.0 as int].entries()[idx as int];
        proof {
            self.lemma_nothing_pending(r);
            assert(self.shape@.order[r] == leaf.0);
            assert(self.leaves@[leaf.0 as int].sound());
            lemma_chain_index(self.parts(), r, idx as int);
            lemma_items_len_update(self@, at, entry);
        }
        let mut marker = I::zero_update();
        self.set_pending(leaf, idx, entry, &mut marker);
        proof {
            assert(entry_ok(was));
            I::lemma_extent_bound(was);
            I::lemma_extent_bound(entry);
            was.lemma_len_bound();
            entry.lemma_len_bound();
            self.lemma_entries_ok();
            lemma_total_bound::<E, I>(self@);
            lemma_total_nonneg::<E, I>(self@);
            self.lemma_range_total_all();
        }
        self.flush(leaf, marker);
    }

    /// Replaces the entry that the cursor is at by two parts of it. Gives back where the
    /// second part is, and which entries are in another leaf than before.
    pub(crate) fn replace_by_parts(&mut self, cursor: Cursor, left: E, right: E) -> (res: (
        Cursor,
        Vec<(E, LeafPtr)>,
    ))
        requires
            old(self).wf(),
            old(self).cursor_ok(cursor),
            old(self)@.len() > 0,
            entry_ok(left),
            entry_ok(right),
            left.span_len() + right.span_len()
                == old(self)@[old(self).place(cursor).entry].span_len(),
            forall|k: int|
                0 <= k < left.span_len() ==> #[trigger] left.item_at(k)
                    == old(self)@[old(self).place(cursor).entry].item_at(k),
            items_len(old(self)@) <= u32::MAX,
        ensures
            final(self).wf(),
            final(self)@ == old(self)@.update(old(self).place(cursor).entry, left).insert(
                old(self).place(cursor).entry + 1,
                right,
            ),
            final(self).cursor_ok(res.0),
            final(self).place(res.0) == (Place {
                entry: old(self).place(cursor).entry + 1,
                offset: 0,
            }),
            notes_ok(res.1@, final(self)@),
            forall|record: spec_fn(E::Item) -> LeafPtr| #[trigger]
                old(self).homes(record) && distinct(final(self)@) ==> final(self).homes(
                    noted(record, res.1@),
                ),
    {
        let ghost g = self.place(cursor).entry;
        proof {
            self.lemma_place(cursor);
            lemma_items_len_update(self@, g, left);
        }
        self.set_entry(cursor.node, cursor.idx, left);
        let ghost mid = *self;
        proof {
            let was = old(self).leaves@[cursor.node.0 as int];
            let now = self.leaves@[cursor.node.0 as int];
            assert(was.sound() && now.sound());
            assert(was.entries().len() == was.num_entries);
            assert(now.entries().len() == now.num_entries);
        }
        let (at, notes) = self.insert_entry(cursor.node, cursor.idx + 1, right);
        proof {
            lemma_holds_insert(mid@, g + 1, right);
            lemma_notes_of_insert(notes@, right, mid@, self@);
            assert forall|record: spec_fn(E::Item) -> LeafPtr| #[trigger]
                old(self).homes(record) && distinct(self@) implies self.homes(
                noted(record, notes@),
            ) by {
                let whole = old(self)@[g];
                assert forall|l: int, x: E::Item|
                    0 <= l < mid.leaves@.len() && #[trigger] holds(
                        mid.leaves@[l].entries(),
                        x,
                    ) implies record(x) == LeafPtr(l as usize) by {
                    let part = mid.leaves@[l].entries();
                    let j = choose|j: int| 0 <= j < part.len() && #[trigger] has_item(part[j], x);
                    if l == cursor.node.0 && j == cursor.idx {
                        let k = choose|k: int|
                            0 <= k < left.span_len() && #[trigger] left.item_at(k) == x;
                        assert(whole.item_at(k) == x);
                        assert(has_item(whole, x));
                        assert(old(self).leaves@[l].entries()[j] == whole);
                    } else {
                        assert(has_item(old(self).leaves@[l].entries()[j], x));
                    }
                    assert(holds(old(self).leaves@[l].entries(), x));
                }
                assert(mid.homes(record));
            }
        }
        (at, notes)
    }

    /// Cuts the entry that the cursor is in, at the cursor. Gives back where the second
    /// part is, and which entries are in another leaf than before.
    pub(crate) fn split_entry(&mut self, cursor: Cursor) -> (res: (Cursor, Vec<(E, LeafPtr)>))
        requires
            old(self).wf(),
            old(self).cursor_ok(cursor),
            old(self)@.len() > 0,
            0 < cursor.offset,
            cursor.offset < old(self)@[old(self).place(cursor).entry].span_len(),
            items_len(old(self)@) <= u32::MAX,
        ensures
            final(self).wf(),
            final(self)@ == cut_entry(
                old(self)@,
                old(self).place(cursor).entry,
                cursor.offset as int,
            ),
            final(self).cursor_ok(res.0),
            final(self).place(res.0) == (Place {
                entry: old(self).place(cursor).entry + 1,
                offset: 0,
            }),
            notes_ok(res.1@, final(self)@),
            forall|record: spec_fn(E::Item) -> LeafPtr| #[trigger]
                old(self).homes(record) && distinct(final(self)@) ==> final(self).homes(
                    noted(record, res.1@),
                ),
    {
        proof {
            self.lemma_place(cursor);
            self.lemma_entries_ok();
            let whole = self@[self.place(cursor).entry];
            assert(entry_ok(whole));
            whole.lemma_split_items(cursor.offset as int);
            whole.lemma_split(cursor.offset as int);
            whole.lemma_can_cut(cursor.offset as int);
        }
        let mut left = cursor.get_entry(self);
        let right = left.truncate(cursor.offset);
        self.replace_by_parts(cursor, left, right)
    }

    /// Inserts an entry at the cursor. An entry that continues the one left of the cursor
    /// is glued to it. Gives back which entries are in another leaf than before.
    #[verifier::rlimit(30)]
    pub fn insert(&mut self, cursor: Cursor, item: E) -> (notes: Vec<(E, LeafPtr)>)
        requires
            old(self).wf(),
            old(self).cursor_ok(cursor),
            entry_ok(item),
            items_len(old(self)@) + item.span_len() <= u32::MAX,
        ensures
            final(self).wf(),
            final(self)@ == inserted(old(self)@, old(self).place(cursor), item),
            notes_of_insert(notes@, item, old(self)@),
            forall|record: spec_fn(E::Item) -> LeafPtr| #[trigger]
                old(self).homes(record) && distinct(final(self)@) ==> final(self).homes(
                    noted(record, notes@),
                ),
    {
        let ghost p = self.place(cursor);
        proof {
            self.lemma_place(cursor);
            self.lemma_entries_ok();
            item.lemma_len_bound();
            assert(self.leaves@[cursor.node.0 as int].sound());
        }
        if self.leaves[cursor.node.0].num_entries == 0 {
            let (_, notes) = self.insert_entry(cursor.node, 0, item);
            assert(self@ =~= seq![item]);
            return notes;
        }
        let mut c = cursor;
        if c.offset == 0 {
            if c.idx > 0 {
                c.idx = c.idx - 1;
            } else {
                let ghost r = self.shape@.rank[c.node.0 as int];
                assert(self.shape@.order[r] == c.node.0);
                match self.prev_leaf(c.node) {
                    Some(prev) => {
                        proof {
                            let q = r - 1;
                            assert(self.shape@.order[q] == prev.0);
                            assert(self.leaves@[prev.0 as int].sound());
                            if self.leaves@[prev.0 as int].num_entries == 0 {
                                assert(self.root == NodePtr::Leaf(prev));
                                assert(self.span_of(self.root) == (q, q + 1));
                            }
                            lemma_chain_start_next(self.parts(), q);
                        }
                        c = Cursor {
                            node: prev,
                            idx: self.leaves[prev.0].num_entries - 1,
                            offset: 0,
                        };
                    },
                    None => {
                        assert(chain_start(self.parts(), r) == 0) by {
                            lemma_chain_start_next(self.parts(), r);
                        }
                        let (_, notes) = self.insert_entry(c.node, 0, item);
                        return notes;
                    },
                }
            }
            proof {
                self.lemma_place(c);
                assert(entry_ok(self@[self.place(c).entry]));
            }
            c.offset = c.get_entry(self).len();
        }
        let ghost g = self.place(c).entry;
        proof {
            self.lemma_place(c);
            assert(entry_ok(self@[g]));
            assert(inserted(self@, p, item) == inserted(self@, self.place(c), item));
            lemma_items_len_update(self@, g, self@[g]);
            assert(self.leaves@[c.node.0 as int].sound());
        }
        let mut entry = c.get_entry(self);
        if c.offset == entry.len() {
            if can_glue(&entry, &item) {
                let ghost was = entry;
                proof {
                    entry.lemma_join(&item);
                    entry.lemma_join_items(&item);
                    entry.lemma_append_ok(&item);
                }
                entry.append(item);
                self.set_entry(c.node, c.idx, entry);
                let mut notes: Vec<(E, LeafPtr)> = Vec::new();
                notes.push((item, c.node));
                proof {
                    self.lemma_homes_joined(*old(self), c, was, item);
                    assert(notes@ =~= seq![(item, c.node)]);
                }
                notes
            } else {
                let (_, notes) = self.insert_entry(c.node, c.idx + 1, item);
                notes
            }
        } else {
            let (at, mut notes) = self.split_entry(c);
            let ghost mid = *self;
            let ghost moved = notes@;
            proof {
                let whole = old(self)@[g];
                whole.lemma_split_items(c.offset as int);
                whole.lemma_split(c.offset as int);
                lemma_items_len_update(old(self)@, g, whole.left_of(c.offset as int));
                lemma_items_len_insert(
                    old(self)@.update(g, whole.left_of(c.offset as int)),
                    g + 1,
                    whole.right_of(c.offset as int),
                );
                self.lemma_place(at);
                assert(self.leaves@[at.node.0 as int].sound());
            }
            let (_, mut more) = self.insert_entry(at.node, at.idx, item);
            let ghost new = more@;
            notes.append(&mut more);
            proof {
                assert(notes@ =~= moved + new);
                lemma_parts_distinct(mid@, g + 1, item);
                lemma_holds_cut(old(self)@, g, c.offset as int);
                let others = notes@.drop_last();
                assert(others =~= moved + new.drop_last());
                assert forall|j: int| 0 <= j < others.len() implies entry_ok(
                    (#[trigger] others[j]).0,
                ) by {
                    if j < moved.len() {
                        assert(entry_ok(moved[j].0));
                    } else {
                        assert(entry_ok(new.drop_last()[j - moved.len()].0));
                    }
                }
                assert forall|j: int, x: E::Item|
                    0 <= j < others.len() && #[trigger] has_item(others[j].0, x) implies holds(
                    old(self)@,
                    x,
                ) by {
                    if j < moved.len() {
                        assert(has_item(moved[j].0, x));
                    } else {
                        assert(has_item(new.drop_last()[j - moved.len()].0, x));
                    }
                    assert(holds(mid@, x));
                }
                assert forall|record: spec_fn(E::Item) -> LeafPtr| #[trigger]
                    old(self).homes(record) && distinct(self@) implies self.homes(
                    noted(record, notes@),
                ) by {
                    assert(mid.homes(noted(record, moved)));
                    lemma_noted_add(record, moved, new);
                }
            }
            notes
        }
    }

    /// After an entry was glued to another one, the record of homes is right with the
    /// former noted down.
    proof fn lemma_homes_joined(&self, before: Self, c: Cursor, was: E, item: E)
        requires
            before.wf(),
            self.wf(),
            before.cursor_ok(c),
            c.idx < before.entries_at(c).len(),
            before.entries_at(c)[c.idx as int] == was,
            entry_ok(was),
            entry_ok(item),
            glues(was, item),
            self.leaves@.len() == before.leaves@.len(),
            self.shape == before.shape,
            self.entries_at(c) == before.entries_at(c).update(c.idx as int, was.joined(&item)),
            forall|x: int|
                0 <= x < self.leaves@.len() && x != c.node.0 ==> #[trigger] self.leaves@[x]
                    == before.leaves@[x],
        ensures
            notes_of_insert(seq![(item, c.node)], item, before@),
            forall|record: spec_fn(E::Item) -> LeafPtr| #[trigger]
                before.homes(record) && distinct(self@) ==> self.homes(
                    noted(record, seq![(item, c.node)]),
                ),
    {
        let notes = seq![(item, c.node)];
        let whole = was.joined(&item);
        let r = self.shape@.rank[c.node.0 as int];
        assert(self.shape@.order[r] == c.node.0);
        was.lemma_join(&item);
        was.lemma_join_items(&item);
        assert forall|x: E::Item| has_item(item, x) implies #[trigger] has_item(whole, x) by {
            let k = choose|k: int| 0 <= k < item.span_len() && #[trigger] item.item_at(k) == x;
            assert(whole.item_at(was.span_len() + k) == x);
        }
        assert forall|x: E::Item| #[trigger] has_item(whole, x) implies has_item(was, x)
            || has_item(item, x) by {
            let k = choose|k: int| 0 <= k < whole.span_len() && #[trigger] whole.item_at(k) == x;
            if k < was.span_len() {
                assert(was.item_at(k) == x);
            } else {
                assert(item.item_at(k - was.span_len()) == x);
            }
        }
        assert forall|record: spec_fn(E::Item) -> LeafPtr| #[trigger]
            before.homes(record) && distinct(self@) implies self.homes(noted(record, notes)) by {
            assert(notes.drop_last() =~= Seq::empty());
            assert(noted(record, notes.drop_last()) == record);
            let now = noted(record, notes);
            assert forall|l: int, x: E::Item|
                0 <= l < self.leaves@.len() && #[trigger] holds(
                    self.leaves@[l].entries(),
                    x,
                ) implies now(x) == LeafPtr(l as usize) by {
                let j = choose|j: int|
                    0 <= j < self.leaves@[l].entries().len() && #[trigger] has_item(
                        self.leaves@[l].entries()[j],
                        x,
                    );
                if has_item(item, x) {
                    assert(has_item(whole, x));
                    self.lemma_one_home(l, j, c.node.0 as int, c.idx as int, x);
                } else {
                    if l == c.node.0 && j == c.idx {
                        assert(has_item(was, x));
                        assert(has_item(before.leaves@[l].entries()[j], x));
                    } else {
                        assert(has_item(before.leaves@[l].entries()[j], x));
                    }
                    assert(holds(before.leaves@[l].entries(), x));
                }
            }
        }
    }
}

/// The row of entries with a new one inserted behind the entry `g`, or glued to it.
pub open spec fn inserted_behind<E: EntryTraits>(entries: Seq<E>, g: int, item: E) -> Seq<E> {
    if glues(entries[g], item) {
        entries.update(g, entries[g].joined(&item))
    } else {
        entries.insert(g + 1, item)
    }
}

/// The row of entries with a new one inserted at a place.
pub open spec fn inserted<E: EntryTraits>(entries: Seq<E>, p: Place, item: E) -> Seq<E> {
    if entries.len() == 0 {
        seq![item]
    } else if p.offset == 0 && p.entry == 0 {
        entries.insert(0, item)
    } else if p.offset == 0 {
        inserted_behind(entries, p.entry - 1, item)
    } else if p.offset == entries[p.entry].span_len() {
        inserted_behind(entries, p.entry, item)
    } else {
        cut_entry(entries, p.entry, p.offset).insert(p.entry + 1, item)
    }
}

/// The row of entries with the entry `g` cut in two.
pub open spec fn cut_entry<E: EntryTraits>(entries: Seq<E>, g: int, at: int) -> Seq<E> {
    entries.update(g, entries[g].left_of(at)).insert(g + 1, entries[g].right_of(at))
}

/// Replacing an entry changes what the entries count for accordingly.
proof fn lemma_total_update<E: EntryTraits, I: TreeIndex<E>>(entries: Seq<E>, g: int, entry: E)
    requires
        0 <= g < entries.len(),
    ensures
        total::<E, I>(entries.update(g, entry)) == total::<E, I>(entries).minus(
            I::extent(entries[g]),
        ).plus(I::extent(entry)),
{
    let a = entries.take(g);
    let b = entries.skip(g + 1);
    let was = seq![entries[g]];
    let now = seq![entry];
    assert(entries =~= a + was + b);
    assert(entries.update(g, entry) =~= a + now + b);
    lemma_total_add::<E, I>(a, was);
    lemma_total_add::<E, I>(a + was, b);
    lemma_total_add::<E, I>(a, now);
    lemma_total_add::<E, I>(a + now, b);
    lemma_total_one::<E, I>(entries[g]);
    lemma_total_one::<E, I>(entry);
}

/// Inserting an entry adds what it counts for.
proof fn lemma_total_insert<E: EntryTraits, I: TreeIndex<E>>(entries: Seq<E>, g: int, entry: E)
    requires
        0 <= g <= entries.len(),
    ensures
        total::<E, I>(entries.insert(g, entry)) == total::<E, I>(entries).plus(I::extent(entry)),
{
    let a = entries.take(g);
    let b = entries.skip(g);
    let new = seq![entry];
    assert(entries =~= a + b);
    assert(entries.insert(g, entry) =~= a + new + b);
    lemma_total_add::<E, I>(a, b);
    lemma_total_add::<E, I>(a, new);
    lemma_total_add::<E, I>(a + new, b);
    lemma_total_one::<E, I>(entry);
}

/// Cutting an entry leaves what the entries count for as it is.
pub proof fn law_cut_keeps_count<E: EntryTraits, I: TreeIndex<E>>(
    entries: Seq<E>,
    g: int,
    at: int,
)
    requires
        entries_ok(entries),
        0 <= g < entries.len(),
        0 < at < entries[g].span_len(),
    ensures
        total::<E, I>(cut_entry(entries, g, at)) == total::<E, I>(entries),
{
    assert(entry_ok(entries[g]));
    let left = entries[g].left_of(at);
    I::lemma_split_extent(entries[g], at);
    lemma_total_update::<E, I>(entries, g, left);
    lemma_total_insert::<E, I>(entries.update(g, left), g + 1, entries[g].right_of(at));
}

/// Wherever an entry is inserted, and whether it is glued to another one or not, the
/// entries count for what it counts for more than before.
pub proof fn law_insert_adds_count<E: EntryTraits, I: TreeIndex<E>>(
    entries: Seq<E>,
    p: Place,
    item: E,
)
    requires
        entries_ok(entries),
        p.within(entries),
        entry_ok(item),
    ensures
        total::<E, I>(inserted(entries, p, item)) == total::<E, I>(entries).plus(I::extent(item)),
{
    if entries.len() == 0 {
        assert(entries.insert(0, item) =~= seq![item]);
        lemma_total_insert::<E, I>(entries, 0, item);
    } else if p.offset == 0 && p.entry == 0 {
        lemma_total_insert::<E, I>(entries, 0, item);
    } else if p.offset == 0 || p.offset == entries[p.entry].span_len() {
        let g = if p.offset == 0 { p.entry - 1 } else { p.entry };
        assert(inserted(entries, p, item) == inserted_behind(entries, g, item));
        assert(entry_ok(entries[g]));
        if glues(entries[g], item) {
            I::lemma_join_extent(entries[g], item);
            lemma_total_update::<E, I>(entries, g, entries[g].joined(&item));
        } else {
            lemma_total_insert::<E, I>(entries, g + 1, item);
        }
    } else {
        law_cut_keeps_count::<E, I>(entries, p.entry, p.offset);
        lemma_total_insert::<E, I>(cut_entry(entries, p.entry, p.offset), p.entry + 1, item);
    }
}

/// Replacing an entry changes the number of items accordingly.
pub proof fn lemma_items_len_update<E: EntryTraits>(entries: Seq<E>, g: int, entry: E)
    requires
        0 <= g < entries.len(),
    ensures
        items_len(entries.update(g, entry)) == items_len(entries) - entries[g].span_len()
            + entry.span_len(),
        entries[g].span_len() <= items_len(entries),
{
    let a = entries.take(g);
    let b = entries.skip(g + 1);
    assert(entries =~= a + seq![entries[g]] + b);
    assert(entries.update(g, entry) =~= a + seq![entry] + b);
    lemma_items_len_add(a, seq![entries[g]]);
    lemma_items_len_add(a + seq![entries[g]], b);
    lemma_items_len_add(a, seq![entry]);
    lemma_items_len_add(a + seq![entry], b);
    lemma_items_len_one(entry);
    lemma_items_len_one(entries[g]);
}

/// Inserting an entry adds its items.
pub proof fn lemma_items_len_insert<E: EntryTraits>(entries: Seq<E>, g: int, entry: E)
    requires
        0 <= g <= entries.len(),
    ensures
        items_len(entries.insert(g, entry)) == items_len(entries) + entry.span_len(),
{
    let a = entries.take(g);
    let b = entries.skip(g);
    assert(entries =~= a + b);
    assert(entries.insert(g, entry) =~= a + seq![entry] + b);
    lemma_items_len_add(a, b);
    lemma_items_len_add(a, seq![entry]);
    lemma_items_len_add(a + seq![entry], b);
    lemma_items_len_one(entry);
}

/// Inserting an entry keeps what is held, and adds what the entry has.
proof fn lemma_holds_insert<E: EntryTraits>(entries: Seq<E>, at: int, entry: E)
    requires
        0 <= at <= entries.len(),
    ensures
        forall|x: E::Item| #[trigger]
            holds(entries.insert(at, entry), x) == (holds(entries, x) || has_item(entry, x)),
{
    let all = entries.insert(at, entry);
    assert forall|x: E::Item| #[trigger]
        holds(all, x) == (holds(entries, x) || has_item(entry, x)) by {
        if holds(entries, x) {
            let i = choose|i: int| 0 <= i < entries.len() && #[trigger] has_item(entries[i], x);
            let i2 = if i < at { i } else { i + 1 };
            assert(has_item(all[i2], x));
        }
        if has_item(entry, x) {
            assert(has_item(all[at], x));
        }
        if holds(all, x) {
            let i = choose|i: int| 0 <= i < all.len() && #[trigger] has_item(all[i], x);
            if i != at {
                let i2 = if i < at { i } else { i - 1 };
                assert(has_item(entries[i2], x));
            }
        }
    }
}

/// Notes of an insertion are of items that the tree holds afterwards.
proof fn lemma_notes_of_insert<E: EntryTraits>(
    notes: Seq<(E, LeafPtr)>,
    item: E,
    before: Seq<E>,
    after: Seq<E>,
)
    requires
        notes_of_insert(notes, item, before),
        entry_ok(item),
        forall|x: E::Item| #[trigger]
            holds(after, x) == (holds(before, x) || has_item(item, x)),
    ensures
        notes_ok(notes, after),
{
    let others = notes.drop_last();
    let n = notes.len() - 1;
    assert forall|j: int| 0 <= j < notes.len() implies entry_ok((#[trigger] notes[j]).0) by {
        if j < n {
            assert(entry_ok(others[j].0));
        }
    }
    assert forall|j: int, x: E::Item|
        0 <= j < notes.len() && #[trigger] has_item(notes[j].0, x) implies holds(after, x) by {
        if j < n {
            assert(has_item(others[j].0, x));
        }
    }
}

/// Cutting an entry adds no items.
proof fn lemma_holds_cut<E: EntryTraits>(entries: Seq<E>, g: int, at: int)
    requires
        0 <= g < entries.len(),
        entry_ok(entries[g]),
        0 < at < entries[g].span_len(),
    ensures
        forall|x: E::Item| #[trigger] holds(cut_entry(entries, g, at), x) ==> holds(entries, x),
{
    let now = cut_entry(entries, g, at);
    let whole = entries[g];
    whole.lemma_split_items(at);
    whole.lemma_split(at);
    assert forall|x: E::Item| #[trigger] holds(now, x) implies holds(entries, x) by {
        let i = choose|i: int| 0 <= i < now.len() && #[trigger] has_item(now[i], x);
        if i < g {
            assert(has_item(entries[i], x));
        } else if i > g + 1 {
            assert(has_item(entries[i - 1], x));
        } else if i == g {
            let left = whole.left_of(at);
            let k = choose|k: int| 0 <= k < left.span_len() && #[trigger] left.item_at(k) == x;
            assert(whole.item_at(k) == x);
            assert(has_item(entries[g], x));
        } else {
            let right = whole.right_of(at);
            let k = choose|k: int| 0 <= k < right.span_len() && #[trigger] right.item_at(k) == x;
            assert(whole.item_at(at + k) == x);
            assert(has_item(entries[g], x));
        }
    }
}

/// Entries without duplicates are without duplicates also when one of them is left out.
proof fn lemma_parts_distinct<E: EntryTraits>(entries: Seq<E>, at: int, entry: E)
    requires
        0 <= at <= entries.len(),
    ensures
        distinct(entries.insert(at, entry)) ==> distinct(entries),
{
    let all = entries.insert(at, entry);
    if distinct(all) {
        assert forall|i: int, j: int, x: E::Item|
            0 <= i < entries.len() && 0 <= j < entries.len() && #[trigger] has_item(entries[i], x)
                && #[trigger] has_item(entries[j], x) implies i == j by {
            let i2 = if i < at { i } else { i + 1 };
            let j2 = if j < at { j } else { j + 1 };
            assert(all[i2] == entries[i]);
            assert(all[j2] == entries[j]);
        }
    }
}

} // verus!
