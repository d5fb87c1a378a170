//! Carrying a change of a leaf's count up to the root.

use crate::range_tree::entry::EntryTraits;
use crate::range_tree::index::{Extent, TreeIndex};
use crate::range_tree::node::{LeafPtr, NodePtr, ParentPtr};
use crate::range_tree::tree::RangeTree;
use vstd::prelude::*;

verus! {

impl<E: EntryTraits, I: TreeIndex<E>> RangeTree<E, I> {
    /// What the node hangs from.
    pub(crate) fn get_parent(&self, p: NodePtr) -> (parent: ParentPtr)
        requires
            self.ptr_ok(p),
        ensures
            parent == self.parent_of(p),
    {
        match p {
            NodePtr::Leaf(l) => self.leaves[l.0].parent,
            NodePtr::Internal(n) => self.nodes[n].parent,
        }
    }

    /// Which child of the inner node `n` the node `p` is.
    pub(crate) fn find_child(&self, n: usize, p: NodePtr) -> (idx: usize)
        requires
            n < self.nodes@.len(),
            exists|i: int|
                0 <= i < self.num_children(n as int) && #[trigger] self.child(n as int, i) == p,
        ensures
            idx < self.num_children(n as int),
            self.child(n as int, idx as int) == p,
    {
        let len = self.nodes[n].data.len();
        let mut idx: usize = 0;
        while idx < len
            invariant
                idx <= len,
                len == self.num_children(n as int),
                n < self.nodes@.len(),
                exists|i: int|
                    0 <= i < self.num_children(n as int) && #[trigger] self.child(n as int, i) == p,
                forall|i: int| 0 <= i < idx ==> #[trigger] self.child(n as int, i) != p,
            decreases len - idx,
        {
            if self.nodes[n].data[idx].1 == p {
                return idx;
            }
            assert(self.child(n as int, idx as int) != p);
            idx += 1;
        }
        assert(false);
        idx
    }

    /// Adds a pending change to all counts above a leaf.
    pub(crate) fn flush(&mut self, leaf: LeafPtr, marker: I::IndexUpdate)
        requires
            leaf.0 < old(self).leaves@.len(),
            old(self).pending(old(self).shape@.rank[leaf.0 as int], I::update_extent(marker)),
            I::update_extent(marker).fits_update(),
            old(self).range_total((0, old(self).shape@.order.len() as int)).fits(),
        ensures
            final(self).wf(),
            final(self).leaves == old(self).leaves,
            final(self).shape == old(self).shape,
            final(self).root == old(self).root,
            final(self)@ == old(self)@,
    {
        let ghost r = self.shape@.rank[leaf.0 as int];
        let ghost d = I::update_extent(marker);
        let mut p = NodePtr::Leaf(leaf);
        let ghost mut h: int = 0;
        loop
            invariant
                self.shape_ok(),
                self.leaves_ok(),
                self.counts_ok(r, h, d),
                self.leaves == old(self).leaves,
                self.shape == old(self).shape,
                self.root == old(self).root,
                0 <= r < self.shape@.order.len(),
                d == I::update_extent(marker),
                d.fits_update(),
                self.ptr_ok(p),
                self.height_of(p) == h,
                self.spans_rank(p, r),
                h >= 0,
                self.range_total((0, self.shape@.order.len() as int)).fits(),
            decreases self.height_of(self.root) - h,
        {
            assert(self.hangs_ok(p));
            match self.get_parent(p) {
                ParentPtr::Internal(g) => {
                    let i = self.find_child(g, p);
                    let ghost before = *self;
                    let mut count = self.nodes[g].data[i].0;
                    proof {
                        assert(self.node_ok(g as int));
                        assert(self.child_ok(g as int, i as int));
                        assert(self.child_count(g as int, i as int) == I::offset_extent(count));
                        self.lemma_range_total_fits(self.span_of(p));
                    }
                    I::update_offset_by_marker(&mut count, &marker);
                    self.nodes[g].data[i] = (count, p);
                    proof {
                        self.lemma_same_nodes(before);
                        assert forall|n: int, j: int|
                            0 <= n < self.nodes@.len() && 0 <= j < self.num_children(
                                n,
                            ) implies (#[trigger] self.child_count(n, j)).plus(
                            self.missing_at(self.child(n, j), r, h + 1, d),
                        ) == self.range_total(self.span_of(self.child(n, j))) by {
                            let c = self.child(n, j);
                            assert(c == before.child(n, j));
                            assert(before.child_count(n, j).plus(before.missing_at(c, r, h, d))
                                == before.range_total(before.span_of(c)));
                            assert(before.node_ok(n));
                            assert(before.child_ok(n, j));
                            if n == g && j == i {
                            } else {
                                assert(self.child_count(n, j) == before.child_count(n, j));
                                if self.spans_rank(c, r) && self.height_of(c) == h {
                                    before.lemma_level_unique(c, p, r);
                                    assert(before.span_of(before.child(g as int, i as int))
                                        == before.span_of(c));
                                    if n == g {
                                        if j < i {
                                            assert(before.span_of(before.child(n, j)).1
                                                <= before.span_of(before.child(n, i as int)).0);
                                        } else {
                                            assert(before.span_of(before.child(n, i as int)).1
                                                <= before.span_of(before.child(n, j)).0);
                                        }
                                    }
                                }
                            }
                        }
                        h = h + 1;
                    }
                    p = NodePtr::Internal(g);
                },
                ParentPtr::Root => {
                    let ghost before = *self;
                    let mut count = self.count;
                    I::update_offset_by_marker(&mut count, &marker);
                    self.count = count;
                    proof {
                        self.lemma_same_nodes(before);
                        assert forall|n: int, j: int|
                            0 <= n < self.nodes@.len() && 0 <= j < self.num_children(
                                n,
                            ) implies (#[trigger] self.child_count(n, j)).plus(
                            self.missing_at(self.child(n, j), 0, 0, Extent::zero()),
                        ) == self.range_total(self.span_of(self.child(n, j))) by {
                            assert(before.node_ok(n));
                            assert(before.child_ok(n, j));
                            assert(before.child_count(n, j).plus(
                                before.missing_at(before.child(n, j), r, h, d),
                            ) == before.range_total(before.span_of(before.child(n, j))));
                        }
                    }
                    return;
                },
            }
        }
    }

    /// Changing stored counts changes nothing else.
    proof fn lemma_same_nodes(&self, before: Self)
        requires
            before.shape_ok(),
            before.leaves_ok(),
            self.leaves == before.leaves,
            self.shape == before.shape,
            self.root == before.root,
            self.nodes@.len() == before.nodes@.len(),
            forall|n: int|
                0 <= n < self.nodes@.len() ==> (#[trigger] self.nodes@[n]).parent
                    == before.nodes@[n].parent && self.nodes@[n].data@.len()
                    == before.nodes@[n].data@.len(),
            forall|n: int, j: int|
                0 <= n < self.nodes@.len() && 0 <= j < self.num_children(n)
                    ==> #[trigger] self.child(n, j) == before.child(n, j),
        ensures
            self.shape_ok(),
            self.leaves_ok(),
            self.parts() == before.parts(),
            self@ == before@,
    {
        assert(self.parts() =~= before.parts());
        assert forall|n: int| 0 <= n < self.nodes@.len() implies #[trigger] self.node_ok(n) by {
            assert(before.node_ok(n));
            assert forall|j: int| 0 <= j < self.num_children(n) implies #[trigger] self.child_ok(
                n,
                j,
            ) by {
                assert(before.child_ok(n, j));
                assert(self.child(n, j) == before.child(n, j));
            }
            assert(self.child(n, 0) == before.child(n, 0));
            assert(self.child(n, self.num_children(n) - 1) == before.child(
                n,
                self.num_children(n) - 1,
            ));
        }
        assert forall|q: NodePtr| #[trigger] self.ptr_ok(q) implies self.hangs_ok(q) by {
            assert(before.ptr_ok(q));
            assert(before.hangs_ok(q));
            match before.parent_of(q) {
                ParentPtr::Internal(k) => {
                    let j = choose|j: int|
                        0 <= j < before.num_children(k as int) && #[trigger] before.child(
                            k as int,
                            j,
                        ) == q;
                    assert(self.child(k as int, j) == q);
                },
                ParentPtr::Root => {},
            }
        }
    }
}

} // verus!
