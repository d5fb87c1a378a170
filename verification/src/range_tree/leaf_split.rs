//! Splitting a full leaf.

use crate::range_tree::entry::EntryTraits;
use crate::range_tree::growth::place_before;
use crate::range_tree::index::{Extent, TreeIndex};
use crate::range_tree::node::{LeafPtr, NodePtr, ParentPtr, LEAF_ENTRIES, NODE_CHILDREN};
use crate::range_tree::runs::{
    chain_start, entry_ok, lemma_chain_cut, lemma_chain_one, lemma_chain_start_next,
    lemma_total_add, lemma_total_nonneg, lemma_total_one, total,
};
use crate::range_tree::tree::{RangeTree, Shape};
use vstd::prelude::*;

verus! {

/// The rank that `x` becomes when a leaf is added behind rank `r`.
spec fn shifted(x: int, r: int) -> int {
    if x > r {
        x + 1
    } else {
        x
    }
}

impl<E: EntryTraits, I: TreeIndex<E>> RangeTree<E, I> {
    /// What the entries of a leaf from `from` up to `to` count for together.
    pub(crate) fn leaf_total(&self, leaf: LeafPtr, from: usize, to: usize) -> (count:
        I::IndexOffset)
        requires
            leaf.0 < self.leaves@.len(),
            self.leaves@[leaf.0 as int].sound(),
            from <= to <= self.leaves@[leaf.0 as int].num_entries,
            total::<E, I>(self.leaves@[leaf.0 as int].entries()).fits(),
        ensures
            I::offset_extent(count) == total::<E, I>(
                self.leaves@[leaf.0 as int].entries().subrange(from as int, to as int),
            ),
    {
        let ghost all = self.leaves@[leaf.0 as int].entries();
        let mut count = I::zero_offset();
        let mut i: usize = from;
        assert(all.subrange(from as int, from as int) =~= Seq::<E>::empty());
        while i < to
            invariant
                leaf.0 < self.leaves@.len(),
                self.leaves@[leaf.0 as int].sound(),
                all == self.leaves@[leaf.0 as int].entries(),
                from <= i <= to <= all.len(),
                total::<E, I>(all).fits(),
                I::offset_extent(count) == total::<E, I>(
                    all.subrange(from as int, i as int),
                ),
            decreases to - i,
        {
            proof {
                let done = all.subrange(from as int, i as int);
                let one = seq![all[i as int]];
                let more = all.subrange(from as int, i + 1);
                let pre = all.take(from as int);
                let post = all.skip(i + 1);
                assert(more =~= done + one);
                lemma_total_add::<E, I>(done, one);
                lemma_total_one::<E, I>(all[i as int]);
                assert(all =~= pre + more + post);
                lemma_total_add::<E, I>(pre, more);
                lemma_total_add::<E, I>(pre + more, post);
                assert(entry_ok(all[i as int]));
                assert forall|j: int| 0 <= j < pre.len() implies entry_ok(#[trigger] pre[j]) by {
                    assert(entry_ok(all[j]));
                }
                assert forall|j: int| 0 <= j < post.len() implies entry_ok(#[trigger] post[j]) by {
                    assert(entry_ok(all[i + 1 + j]));
                }
                assert forall|j: int| 0 <= j < more.len() implies entry_ok(#[trigger] more[j]) by {
                    assert(entry_ok(all[from + j]));
                }
                lemma_total_nonneg::<E, I>(pre);
                lemma_total_nonneg::<E, I>(more);
                lemma_total_nonneg::<E, I>(post);
            }
            I::increment_offset(&mut count, &self.leaves[leaf.0].data[i]);
            i += 1;
        }
        count
    }

    /// The tree is `before` with the leaf `l`, child `at` of `g`, split: the new leaf
    /// takes its entries from `half` on.
    spec fn is_leaf_split(
        &self,
        before: Self,
        l: int,
        g: int,
        at: int,
        left: I::IndexOffset,
        right: I::IndexOffset,
    ) -> bool {
        let half = (LEAF_ENTRIES / 2) as int;
        let m = before.leaves@.len() as int;
        let r = before.shape@.rank[l];
        let was = before.leaves@[l].entries();
        &&& before.shape_ok()
        &&& 0 <= l < m
        &&& 0 <= g < before.nodes@.len()
        &&& before.num_children(g) < NODE_CHILDREN
        &&& 0 <= at < before.num_children(g)
        &&& before.child(g, at) == NodePtr::Leaf(LeafPtr(l as usize))
        &&& m < usize::MAX
        &&& self.count == before.count
        &&& self.root == before.root
        &&& self.nodes@.len() == before.nodes@.len()
        &&& self.leaves@.len() == m + 1
        &&& forall|k: int|
            0 <= k < self.nodes@.len() ==> (#[trigger] self.nodes@[k]).parent
                == before.nodes@[k].parent && (k != g ==> self.nodes@[k].data
                == before.nodes@[k].data)
        &&& self.nodes@[g].data@ == before.nodes@[g].data@.update(
            at,
            (left, NodePtr::Leaf(LeafPtr(l as usize))),
        ).insert(at + 1, (right, NodePtr::Leaf(LeafPtr(m as usize))))
        &&& forall|x: int|
            0 <= x < m ==> (#[trigger] self.leaves@[x]).parent == before.leaves@[x].parent && (x
                != l ==> self.leaves@[x] == before.leaves@[x])
        &&& self.leaves@[m].parent == ParentPtr::Internal(g as usize)
        &&& was.len() == LEAF_ENTRIES
        &&& self.leaves@[l].entries() == was.take(half)
        &&& self.leaves@[m].entries() == was.skip(half)
        &&& self.shape@.order == before.shape@.order.insert(r + 1, m)
        &&& self.shape@.rank == Seq::new(
            (m + 1) as nat,
            |x: int|
                if x == m {
                    r + 1
                } else {
                    shifted(before.shape@.rank[x], r)
                },
        )
        &&& self.shape@.spans == Seq::new(
            before.nodes@.len(),
            |k: int|
                (shifted(before.shape@.spans[k].0, r), shifted(before.shape@.spans[k].1, r)),
        )
        &&& self.shape@.heights == before.shape@.heights
        &&& I::offset_extent(left) == total::<E, I>(was.take(half))
        &&& I::offset_extent(right) == total::<E, I>(was.skip(half))
    }

    /// What a leaf split leaves as it was, and where spans end up.
    proof fn lemma_leaf_split_frame(
        &self,
        before: Self,
        l: int,
        g: int,
        at: int,
        left: I::IndexOffset,
        right: I::IndexOffset,
    )
        requires
            self.is_leaf_split(before, l, g, at, left, right),
        ensures
            self.order_ok(),
            self.parts() == before.parts().update(
                before.shape@.rank[l],
                before.leaves@[l].entries().take((LEAF_ENTRIES / 2) as int),
            ).insert(
                before.shape@.rank[l] + 1,
                before.leaves@[l].entries().skip((LEAF_ENTRIES / 2) as int),
            ),
            self@ == before@,
            forall|q: NodePtr| #[trigger]
                before.ptr_ok(q) ==> {
                    &&& self.height_of(q) == before.height_of(q)
                    &&& self.parent_of(q) == before.parent_of(q)
                    &&& q != NodePtr::Leaf(LeafPtr(l as usize)) ==> self.span_of(q) == (
                        shifted(before.span_of(q).0, before.shape@.rank[l]),
                        shifted(before.span_of(q).1, before.shape@.rank[l]),
                    )
                },
            forall|k: int, j: int|
                0 <= k < before.nodes@.len() && 0 <= j < before.num_children(k) ==> {
                    let c = #[trigger] before.child(k, j);
                    &&& before.ptr_ok(c)
                    &&& before.child_ok(k, j)
                    &&& (c == NodePtr::Leaf(LeafPtr(l as usize)) ==> k == g && j == at)
                },
    {
        let half = (LEAF_ENTRIES / 2) as int;
        let m = before.leaves@.len() as int;
        let r = before.shape@.rank[l];
        let was = before.leaves@[l].entries();
        let order = self.shape@.order;
        assert forall|x: int| 0 <= x < order.len() implies 0 <= #[trigger] order[x]
            < self.leaves@.len() && self.shape@.rank[order[x]] == x by {
            if x <= r {
                assert(order[x] == before.shape@.order[x]);
            } else if x > r + 1 {
                assert(order[x] == before.shape@.order[x - 1]);
            }
        }
        assert forall|x: int| 0 <= x < self.leaves@.len() implies 0
            <= #[trigger] self.shape@.rank[x] < order.len() && order[self.shape@.rank[x]] == x by {
            if x < m {
                assert(before.shape@.order[before.shape@.rank[x]] == x);
            }
        }
        let cut = before.parts().update(r, was.take(half)).insert(r + 1, was.skip(half));
        assert(self.parts().len() == cut.len());
        assert forall|x: int| 0 <= x < cut.len() implies self.parts()[x] == cut[x] by {
            if x < r {
                assert(order[x] == before.shape@.order[x]);
                assert(before.shape@.rank[before.shape@.order[x]] == x);
            } else if x == r {
                assert(order[x] == l);
            } else if x > r + 1 {
                assert(order[x] == before.shape@.order[x - 1]);
                assert(before.shape@.rank[before.shape@.order[x - 1]] == x - 1);
            }
        }
        assert(self.parts() =~= cut);
        assert(before.parts()[r] =~= was.take(half) + was.skip(half));
        lemma_chain_cut(before.parts(), r, was.take(half), was.skip(half));
        assert forall|q: NodePtr| #[trigger] before.ptr_ok(q) implies {
            &&& self.height_of(q) == before.height_of(q)
            &&& self.parent_of(q) == before.parent_of(q)
            &&& q != NodePtr::Leaf(LeafPtr(l as usize)) ==> self.span_of(q) == (
                shifted(before.span_of(q).0, before.shape@.rank[l]),
                shifted(before.span_of(q).1, before.shape@.rank[l]),
            )
        } by {
            match q {
                NodePtr::Leaf(x) => {
                    assert(before.shape@.order[before.shape@.rank[x.0 as int]] == x.0);
                    assert(self.leaves@[x.0 as int].parent == before.leaves@[x.0 as int].parent);
                },
                NodePtr::Internal(k) => {
                    assert(self.nodes@[k as int].parent == before.nodes@[k as int].parent);
                },
            }
        }
        assert forall|k: int, j: int|
            0 <= k < before.nodes@.len() && 0 <= j < before.num_children(k) implies {
            let c = #[trigger] before.child(k, j);
            &&& before.ptr_ok(c)
            &&& before.child_ok(k, j)
            &&& (c == NodePtr::Leaf(LeafPtr(l as usize)) ==> k == g && j == at)
        } by {
            assert(before.node_ok(k));
            assert(before.node_ok(g));
            assert(before.child_ok(k, j));
            assert(before.child_ok(g, at));
            if before.child(k, j) == NodePtr::Leaf(LeafPtr(l as usize)) {
                if j < at {
                    assert(before.span_of(before.child(k, j)).1 <= before.span_of(
                        before.child(g, at),
                    ).0);
                } else if j > at {
                    assert(before.span_of(before.child(g, at)).1 <= before.span_of(
                        before.child(k, j),
                    ).0);
                }
            }
        }
    }

    proof fn lemma_leaf_split_above(
        &self,
        before: Self,
        l: int,
        g: int,
        at: int,
        left: I::IndexOffset,
        right: I::IndexOffset,
    )
        requires
            self.is_leaf_split(before, l, g, at, left, right),
        ensures
            self.node_ok(g),
    {
        self.lemma_leaf_split_frame(before, l, g, at, left, right);
        let m = before.leaves@.len() as int;
        let r = before.shape@.rank[l];
        let old_l = NodePtr::Leaf(LeafPtr(l as usize));
        let new_m = NodePtr::Leaf(LeafPtr(m as usize));
        assert(before.node_ok(g));
        assert(before.ptr_ok(before.root));
        assert(before.span_of(before.child(g, at)) == (r, r + 1));
        assert(self.child(g, at + 1) == new_m);
        assert(self.child(g, at) == old_l);
        assert(self.span_of(new_m) == (r + 1, r + 2));
        assert(self.span_of(old_l) == (r, r + 1));
        assert forall|i: int| 0 <= i < self.num_children(g) && i != at + 1 implies
        #[trigger] self.child(g, i) == before.child(g, place_before(i, at)) && (i != at
            ==> self.span_of(self.child(g, i)) == (
            shifted(before.span_of(before.child(g, place_before(i, at))).0, r),
            shifted(before.span_of(before.child(g, place_before(i, at))).1, r),
        )) by {
            assert(before.ptr_ok(before.child(g, place_before(i, at))));
        }
        assert forall|i: int| 0 <= i < self.num_children(g) implies #[trigger] self.child_ok(
            g,
            i,
        ) by {
            assert(before.child_ok(g, place_before(i, at)));
            if i != at + 1 {
                assert(self.child(g, i) == before.child(g, place_before(i, at)));
                assert(before.ptr_ok(self.child(g, i)));
            }
        }
        assert forall|i: int, j: int| 0 <= i < j < self.num_children(g) implies self.span_of(
            #[trigger] self.child(g, i),
        ).1 <= self.span_of(#[trigger] self.child(g, j)).0 && (j == i + 1 ==> self.span_of(
            self.child(g, i),
        ).1 == self.span_of(self.child(g, j)).0) by {
            assert(before.child_ok(g, place_before(i, at)));
            assert(before.child_ok(g, place_before(j, at)));
            if place_before(i, at) < place_before(j, at) {
                assert(before.span_of(before.child(g, place_before(i, at))).1 <= before.span_of(
                    before.child(g, place_before(j, at)),
                ).0);
            }
        }
        assert(self.child(g, 0) == before.child(g, 0));
        let last = self.num_children(g) - 1;
        if at + 1 < last {
            assert(self.child(g, last) == before.child(g, last - 1));
        }
    }

    proof fn lemma_leaf_split_others(
        &self,
        before: Self,
        l: int,
        g: int,
        at: int,
        left: I::IndexOffset,
        right: I::IndexOffset,
        k: int,
    )
        requires
            self.is_leaf_split(before, l, g, at, left, right),
            0 <= k < before.nodes@.len(),
            k != g,
        ensures
            self.node_ok(k),
    {
        self.lemma_leaf_split_frame(before, l, g, at, left, right);
        let r = before.shape@.rank[l];
        assert(before.ptr_ok(before.root));
        assert(before.node_ok(k));
        assert(self.nodes@[k].data == before.nodes@[k].data);
        assert forall|i: int| 0 <= i < self.num_children(k) implies #[trigger] self.child(k, i)
            == before.child(k, i) && self.span_of(self.child(k, i)) == (
            shifted(before.span_of(before.child(k, i)).0, r),
            shifted(before.span_of(before.child(k, i)).1, r),
        ) by {
            assert(before.ptr_ok(before.child(k, i)));
        }
        assert forall|i: int| 0 <= i < self.num_children(k) implies #[trigger] self.child_ok(
            k,
            i,
        ) by {
            assert(before.child_ok(k, i));
            assert(self.child(k, i) == before.child(k, i));
            assert(before.ptr_ok(self.child(k, i)));
        }
        assert forall|i: int, j: int| 0 <= i < j < self.num_children(k) implies self.span_of(
            #[trigger] self.child(k, i),
        ).1 <= self.span_of(#[trigger] self.child(k, j)).0 && (j == i + 1 ==> self.span_of(
            self.child(k, i),
        ).1 == self.span_of(self.child(k, j)).0) by {
            assert(before.span_of(before.child(k, i)).1 <= before.span_of(before.child(k, j)).0);
        }
        assert(self.child(k, 0) == before.child(k, 0));
        assert(self.child(k, self.num_children(k) - 1) == before.child(
            k,
            self.num_children(k) - 1,
        ));
    }

    /// Leaves count for as much as they did.
    proof fn lemma_leaf_split_total(
        &self,
        before: Self,
        l: int,
        g: int,
        at: int,
        left: I::IndexOffset,
        right: I::IndexOffset,
        span: (int, int),
    )
        requires
            self.is_leaf_split(before, l, g, at, left, right),
            0 <= span.0 <= span.1 <= before.shape@.order.len(),
        ensures
            self.range_total(
                (shifted(span.0, before.shape@.rank[l]), shifted(span.1, before.shape@.rank[l])),
            ) == before.range_total(span),
    {
        self.lemma_leaf_split_frame(before, l, g, at, left, right);
        let half = (LEAF_ENTRIES / 2) as int;
        let r = before.shape@.rank[l];
        let was = before.leaves@[l].entries();
        assert(before.shape@.order[r] == l);
        let some = before.parts().subrange(span.0, span.1);
        let now = self.parts().subrange(shifted(span.0, r), shifted(span.1, r));
        if span.1 <= r || r < span.0 {
            assert(now =~= some);
        } else {
            assert(now =~= some.update(r - span.0, was.take(half)).insert(
                r - span.0 + 1,
                was.skip(half),
            ));
            assert(some[r - span.0] =~= was.take(half) + was.skip(half));
            lemma_chain_cut(some, r - span.0, was.take(half), was.skip(half));
        }
    }

    proof fn lemma_leaf_split_counts(
        &self,
        before: Self,
        l: int,
        g: int,
        at: int,
        left: I::IndexOffset,
        right: I::IndexOffset,
        k: int,
        i: int,
    )
        requires
            self.is_leaf_split(before, l, g, at, left, right),
            before.counts_ok(0, 0, Extent::zero()),
            0 <= k < self.nodes@.len(),
            0 <= i < self.num_children(k),
        ensures
            self.child_count(k, i) == self.range_total(self.span_of(self.child(k, i))),
    {
        self.lemma_leaf_split_frame(before, l, g, at, left, right);
        let m = before.leaves@.len() as int;
        let r = before.shape@.rank[l];
        if k == g && (i == at || i == at + 1) {
            let x = if i == at {
                r
            } else {
                r + 1
            };
            assert(self.child(k, i) == NodePtr::Leaf(
                LeafPtr(
                    if i == at {
                        l
                    } else {
                        m
                    } as usize,
                ),
            ));
            assert(self.span_of(self.child(k, i)) == (x, x + 1));
            let one = self.parts().subrange(x, x + 1);
            assert(one =~= seq![self.parts()[x]]);
            lemma_chain_one(self.parts()[x]);
        } else {
            let i2 = if k == g && i > at {
                i - 1
            } else {
                i
            };
            assert(before.child_count(k, i2).plus(
                before.missing_at(before.child(k, i2), 0, 0, Extent::zero()),
            ) == before.range_total(before.span_of(before.child(k, i2))));
            if k != g {
                assert(self.nodes@[k].data == before.nodes@[k].data);
            }
            assert(self.child(k, i) == before.child(k, i2));
            assert(before.ptr_ok(before.child(k, i2)));
            assert(before.child_ok(k, i2));
            assert(before.node_ok(k));
            self.lemma_leaf_split_total(
                before,
                l,
                g,
                at,
                left,
                right,
                before.span_of(before.child(k, i2)),
            );
        }
    }

    proof fn lemma_leaf_split(
        &self,
        before: Self,
        l: int,
        g: int,
        at: int,
        left: I::IndexOffset,
        right: I::IndexOffset,
    )
        requires
            before.wf(),
            self.is_leaf_split(before, l, g, at, left, right),
            self.leaves@[l].sound(),
            self.leaves@[before.leaves@.len() as int].sound(),
        ensures
            self.wf(),
            self@ == before@,
    {
        self.lemma_leaf_split_frame(before, l, g, at, left, right);
        let m = before.leaves@.len() as int;
        assert(before.ptr_ok(before.root));
        assert(before.child_ok(g, at));
        assert(before.root != NodePtr::Leaf(LeafPtr(l as usize)));
        assert forall|k: int| 0 <= k < self.nodes@.len() implies #[trigger] self.node_ok(k) by {
            if k == g {
                self.lemma_leaf_split_above(before, l, g, at, left, right);
            } else {
                self.lemma_leaf_split_others(before, l, g, at, left, right, k);
            }
        }
        assert forall|q: NodePtr| #[trigger] self.ptr_ok(q) implies self.hangs_ok(q) by {
            if q == NodePtr::Leaf(LeafPtr(m as usize)) {
                assert(self.child(g, at + 1) == q);
            } else {
                assert(before.ptr_ok(q));
                assert(before.hangs_ok(q));
                match before.parent_of(q) {
                    ParentPtr::Internal(k) => {
                        let i = choose|i: int|
                            0 <= i < before.num_children(k as int) && #[trigger] before.child(
                                k as int,
                                i,
                            ) == q;
                        if k == g {
                            if i <= at {
                                assert(self.child(g, i) == q);
                            } else {
                                assert(self.child(g, i + 1) == q);
                            }
                        } else {
                            assert(self.nodes@[k as int].data == before.nodes@[k as int].data);
                            assert(self.child(k as int, i) == q);
                        }
                    },
                    ParentPtr::Root => {},
                }
            }
        }
        assert forall|x: int| 0 <= x < self.leaves@.len() implies {
            &&& (#[trigger] self.leaves@[x]).sound()
            &&& self.leaves@[x].num_entries == 0 ==> self.root == NodePtr::Leaf(
                LeafPtr(x as usize),
            )
        } by {
            if x != l && x != m {
                assert(before.leaves@[x].sound());
            } else {
                assert(self.leaves@[x].entries().len() == LEAF_ENTRIES / 2);
            }
        }
        assert forall|k: int, i: int|
            0 <= k < self.nodes@.len() && 0 <= i < self.num_children(k) implies (
        #[trigger] self.child_count(k, i)).plus(
            self.missing_at(self.child(k, i), 0, 0, Extent::zero()),
        ) == self.range_total(self.span_of(self.child(k, i))) by {
            self.lemma_leaf_split_counts(before, l, g, at, left, right, k, i);
        }
        self.lemma_leaf_split_total(before, l, g, at, left, right, before.span_of(before.root));
    }

    /// Splits a full leaf: the second half of its entries move to a new leaf, which
    /// becomes the next child of what the leaf hangs from.
    pub(crate) fn split_leaf(&mut self, leaf: LeafPtr, g: usize) -> (new: LeafPtr)
        requires
            old(self).wf(),
            leaf.0 < old(self).leaves@.len(),
            old(self).leaves@[leaf.0 as int].num_entries == LEAF_ENTRIES,
            old(self).parent_of(NodePtr::Leaf(leaf)) == ParentPtr::Internal(g),
            old(self).num_children(g as int) < NODE_CHILDREN,
        ensures
            final(self).wf(),
            final(self)@ == old(self)@,
            new.0 == old(self).leaves@.len(),
            final(self).leaves@.len() == new.0 + 1,
            final(self).leaves@[leaf.0 as int].entries() == old(
                self,
            ).leaves@[leaf.0 as int].entries().take((LEAF_ENTRIES / 2) as int),
            final(self).leaves@[new.0 as int].entries() == old(
                self,
            ).leaves@[leaf.0 as int].entries().skip((LEAF_ENTRIES / 2) as int),
            forall|x: int|
                0 <= x < new.0 && x != leaf.0 ==> (#[trigger] final(self).leaves@[x]).entries()
                    == old(self).leaves@[x].entries(),
            final(self).shape@.rank[leaf.0 as int] == old(self).shape@.rank[leaf.0 as int],
            final(self).shape@.rank[new.0 as int] == old(self).shape@.rank[leaf.0 as int] + 1,
            chain_start(final(self).parts(), old(self).shape@.rank[leaf.0 as int]) == chain_start(
                old(self).parts(),
                old(self).shape@.rank[leaf.0 as int],
            ),
            chain_start(final(self).parts(), old(self).shape@.rank[leaf.0 as int] + 1)
                == chain_start(old(self).parts(), old(self).shape@.rank[leaf.0 as int])
                + LEAF_ENTRIES / 2,
    {
        let half: usize = LEAF_ENTRIES / 2;
        let m = self.leaves.len();
        let ghost was = self.leaves@[leaf.0 as int].entries();
        let ghost r = self.shape@.rank[leaf.0 as int];
        proof {
            assert(self.ptr_ok(NodePtr::Leaf(leaf)));
            assert(self.hangs_ok(NodePtr::Leaf(leaf)));
            assert(self.leaves@[leaf.0 as int].sound());
            I::lemma_offset_fits(self.count);
            assert(self.ptr_ok(self.root));
            self.lemma_range_total_fits((r, r + 1));
            assert(self.shape@.order[r] == leaf.0);
            let one = self.parts().subrange(r, r + 1);
            assert(one =~= seq![was]);
            lemma_chain_one(was);
        }
        let at = self.find_child(g, NodePtr::Leaf(leaf));
        let left = self.leaf_total(leaf, 0, half);
        let right = self.leaf_total(leaf, half, LEAF_ENTRIES);
        assert(was.subrange(0, half as int) =~= was.take(half as int));
        assert(was.subrange(half as int, LEAF_ENTRIES as int) =~= was.skip(half as int));
        let rest = self.leaves[leaf.0].split_off(half);
        self.leaves.push(rest);
        self.nodes[g].data[at] = (left, NodePtr::Leaf(leaf));
        self.nodes[g].data.insert(at + 1, (right, NodePtr::Leaf(LeafPtr(m))));
        self.shape = Ghost(
            Shape {
                order: self.shape@.order.insert(r + 1, m as int),
                rank: Seq::new(
                    (m + 1) as nat,
                    |x: int|
                        if x == m {
                            r + 1
                        } else {
                            shifted(old(self).shape@.rank[x], r)
                        },
                ),
                spans: Seq::new(
                    old(self).nodes@.len(),
                    |k: int|
                        (
                            shifted(old(self).shape@.spans[k].0, r),
                            shifted(old(self).shape@.spans[k].1, r),
                        ),
                ),
                heights: self.shape@.heights,
            },
        );
        proof {
            assert(self.leaves.len() == m + 1);
            self.lemma_leaf_split(*old(self), leaf.0 as int, g as int, at as int, left, right);
            self.lemma_leaf_split_frame(
                *old(self),
                leaf.0 as int,
                g as int,
                at as int,
                left,
                right,
            );
            assert(self.parts().take(r) =~= old(self).parts().take(r));
            lemma_chain_start_next(self.parts(), r);
        }
        LeafPtr(m)
    }
}

} // verus!
