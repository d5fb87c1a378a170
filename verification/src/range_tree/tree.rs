//! The tree and what holds of it at all times.

use crate::range_tree::entry::EntryTraits;
use crate::range_tree::index::{Extent, TreeIndex};
use crate::range_tree::node::{LeafPtr, NodeInternal, NodeLeaf, NodePtr, ParentPtr, NODE_CHILDREN};
use crate::range_tree::runs::{
    chain, entries_ok, entry_ok, lemma_chain_add, lemma_chain_find, lemma_chain_index,
    lemma_total_add, lemma_total_nonneg, total,
};
use vstd::prelude::*;

verus! {

/// How the nodes of a tree are arranged. Leaves are numbered from left to right by
/// their rank, and each inner node spans the leaves from rank `.0` up to rank `.1`.
pub struct Shape {
    /// The leaves by their rank.
    pub order: Seq<int>,
    /// The rank of each leaf.
    pub rank: Seq<int>,
    /// The ranks that each inner node spans.
    pub spans: Seq<(int, int)>,
    /// How far each inner node is from the leaves.
    pub heights: Seq<int>,
}

/// A balanced tree of entries.
pub struct RangeTree<E: EntryTraits, I: TreeIndex<E>> {
    pub count: I::IndexOffset,
    pub root: NodePtr,
    pub leaves: Vec<NodeLeaf<E>>,
    pub nodes: Vec<NodeInternal<E, I>>,
    pub shape: Ghost<Shape>,
}

impl<E: EntryTraits, I: TreeIndex<E>> View for RangeTree<E, I> {
    type V = Seq<E>;

    /// The entries from left to right.
    open spec fn view(&self) -> Seq<E> {
        chain(self.parts())
    }
}

impl<E: EntryTraits, I: TreeIndex<E>> RangeTree<E, I> {
    /// The entries of each leaf, from left to right.
    pub open spec fn parts(&self) -> Seq<Seq<E>> {
        Seq::new(
            self.shape@.order.len(),
            |r: int| self.leaves@[self.shape@.order[r]].entries(),
        )
    }

    pub open spec fn ptr_ok(&self, p: NodePtr) -> bool {
        match p {
            NodePtr::Leaf(l) => l.0 < self.leaves@.len(),
            NodePtr::Internal(n) => n < self.nodes@.len(),
        }
    }

    pub open spec fn parent_of(&self, p: NodePtr) -> ParentPtr {
        match p {
            NodePtr::Leaf(l) => self.leaves@[l.0 as int].parent,
            NodePtr::Internal(n) => self.nodes@[n as int].parent,
        }
    }

    /// The ranks of the leaves below a node.
    pub open spec fn span_of(&self, p: NodePtr) -> (int, int) {
        match p {
            NodePtr::Leaf(l) => (
                self.shape@.rank[l.0 as int],
                self.shape@.rank[l.0 as int] + 1,
            ),
            NodePtr::Internal(n) => self.shape@.spans[n as int],
        }
    }

    pub open spec fn height_of(&self, p: NodePtr) -> int {
        match p {
            NodePtr::Leaf(_) => 0,
            NodePtr::Internal(n) => self.shape@.heights[n as int],
        }
    }

    pub open spec fn spans_rank(&self, p: NodePtr, r: int) -> bool {
        self.span_of(p).0 <= r < self.span_of(p).1
    }

    pub open spec fn num_children(&self, n: int) -> int {
        self.nodes@[n].data@.len() as int
    }

    pub open spec fn child(&self, n: int, i: int) -> NodePtr {
        self.nodes@[n].data@[i].1
    }

    pub open spec fn child_count(&self, n: int, i: int) -> Extent {
        I::offset_extent(self.nodes@[n].data@[i].0)
    }

    /// What the leaves of some ranks count for.
    pub open spec fn range_total(&self, span: (int, int)) -> Extent {
        total::<E, I>(chain(self.parts().subrange(span.0, span.1)))
    }

    /// Ranks and leaves correspond one to one.
    pub open spec fn order_ok(&self) -> bool {
        let order = self.shape@.order;
        let rank = self.shape@.rank;
        &&& order.len() == self.leaves@.len()
        &&& rank.len() == self.leaves@.len()
        &&& order.len() > 0
        &&& forall|r: int|
            0 <= r < order.len() ==> 0 <= #[trigger] order[r] < self.leaves@.len()
                && rank[order[r]] == r
        &&& forall|l: int|
            0 <= l < self.leaves@.len() ==> 0 <= #[trigger] rank[l] < order.len()
                && order[rank[l]] == l
    }

    /// The child `i` of the inner node `n` hangs from it, one level lower.
    pub open spec fn child_ok(&self, n: int, i: int) -> bool {
        let c = self.child(n, i);
        &&& self.ptr_ok(c)
        &&& self.height_of(c) == self.shape@.heights[n] - 1
        &&& self.parent_of(c) == ParentPtr::Internal(n as usize)
        &&& self.span_of(c).0 < self.span_of(c).1
        &&& self.shape@.spans[n].0 <= self.span_of(c).0
        &&& self.span_of(c).1 <= self.shape@.spans[n].1
    }

    /// The children of the inner node `n` share its leaves out among them, in order.
    pub open spec fn node_ok(&self, n: int) -> bool {
        let k = self.num_children(n);
        &&& 1 <= k <= NODE_CHILDREN
        &&& 1 <= self.shape@.heights[n] <= self.height_of(self.root)
        &&& 0 <= self.shape@.spans[n].0 < self.shape@.spans[n].1 <= self.shape@.order.len()
        &&& forall|i: int| 0 <= i < k ==> #[trigger] self.child_ok(n, i)
        &&& self.span_of(self.child(n, 0)).0 == self.shape@.spans[n].0
        &&& self.span_of(self.child(n, k - 1)).1 == self.shape@.spans[n].1
        &&& forall|i: int, j: int|
            0 <= i < j < k ==> self.span_of(#[trigger] self.child(n, i)).1 <= self.span_of(
                #[trigger] self.child(n, j),
            ).0
        &&& forall|i: int, j: int|
            0 <= i < k && j == i + 1 && j < k ==> self.span_of(#[trigger] self.child(n, i)).1
                == self.span_of(#[trigger] self.child(n, j)).0
    }

    /// The node is the root, or a child of what it says it hangs from.
    pub open spec fn hangs_ok(&self, p: NodePtr) -> bool {
        match self.parent_of(p) {
            ParentPtr::Root => p == self.root,
            ParentPtr::Internal(g) => {
                &&& g < self.nodes@.len()
                &&& exists|i: int|
                    0 <= i < self.num_children(g as int) && #[trigger] self.child(g as int, i) == p
            },
        }
    }

    /// The nodes form a balanced tree.
    pub open spec fn shape_ok(&self) -> bool {
        &&& self.order_ok()
        &&& self.shape@.spans.len() == self.nodes@.len()
        &&& self.shape@.heights.len() == self.nodes@.len()
        &&& self.nodes@.len() <= usize::MAX
        &&& self.leaves@.len() <= usize::MAX
        &&& self.ptr_ok(self.root)
        &&& self.parent_of(self.root) == ParentPtr::Root
        &&& self.span_of(self.root) == (0int, self.shape@.order.len() as int)
        &&& forall|n: int| 0 <= n < self.nodes@.len() ==> #[trigger] self.node_ok(n)
        &&& forall|p: NodePtr| #[trigger] self.ptr_ok(p) ==> self.hangs_ok(p)
    }

    /// Leaves are sound, and none but the root is empty.
    pub open spec fn leaves_ok(&self) -> bool {
        forall|l: int|
            0 <= l < self.leaves@.len() ==> {
                &&& (#[trigger] self.leaves@[l]).sound()
                &&& self.leaves@[l].num_entries == 0 ==> self.root == NodePtr::Leaf(
                    LeafPtr(l as usize),
                )
            }
    }

    /// The part of a count that is still missing: `missing`, for the nodes above the
    /// leaf of rank `r` that are at least `h` levels high.
    pub open spec fn missing_at(&self, p: NodePtr, r: int, h: int, missing: Extent) -> Extent {
        if self.spans_rank(p, r) && self.height_of(p) >= h {
            missing
        } else {
            Extent::zero()
        }
    }

    /// Every count is right, but for the missing part.
    pub open spec fn counts_ok(&self, r: int, h: int, missing: Extent) -> bool {
        &&& forall|n: int, i: int|
            0 <= n < self.nodes@.len() && 0 <= i < self.num_children(n) ==> (
            #[trigger] self.child_count(n, i)).plus(
                self.missing_at(self.child(n, i), r, h, missing),
            ) == self.range_total(self.span_of(self.child(n, i)))
        &&& I::offset_extent(self.count).plus(self.missing_at(self.root, r, h, missing))
            == self.range_total(self.span_of(self.root))
    }

    /// The tree is sound, but `missing` has not been added yet to the counts above the
    /// leaf of rank `r`.
    pub open spec fn pending(&self, r: int, missing: Extent) -> bool {
        &&& self.shape_ok()
        &&& self.leaves_ok()
        &&& 0 <= r < self.shape@.order.len()
        &&& self.counts_ok(r, 0, missing)
    }

    /// The tree is sound.
    pub open spec fn wf(&self) -> bool {
        &&& self.shape_ok()
        &&& self.leaves_ok()
        &&& self.counts_ok(0, 0, Extent::zero())
    }

    /// All entries of a sound tree are sound.
    pub proof fn lemma_entries_ok(&self)
        requires
            self.order_ok(),
            self.leaves_ok(),
        ensures
            entries_ok(self@),
            forall|lo: int, hi: int|
                0 <= lo <= hi <= self.parts().len() ==> entries_ok(
                    chain(#[trigger] self.parts().subrange(lo, hi)),
                ),
    {
        assert forall|lo: int, hi: int| 0 <= lo <= hi <= self.parts().len() implies entries_ok(
            chain(#[trigger] self.parts().subrange(lo, hi)),
        ) by {
            let some = self.parts().subrange(lo, hi);
            assert forall|g: int| 0 <= g < chain(some).len() implies entry_ok(
                #[trigger] chain(some)[g],
            ) by {
                let (r, i) = lemma_chain_find(some, g);
                lemma_chain_index(some, r, i);
                let l = self.shape@.order[lo + r];
                assert(self.leaves@[l].sound());
                assert(entry_ok(self.leaves@[l].entries()[i]));
            }
        }
        assert(self.parts().subrange(0, self.parts().len() as int) =~= self.parts());
    }

    /// Leaves count for no more than all leaves do.
    pub proof fn lemma_range_total_fits(&self, span: (int, int))
        requires
            self.order_ok(),
            self.leaves_ok(),
            0 <= span.0 <= span.1 <= self.shape@.order.len(),
            self.range_total((0, self.shape@.order.len() as int)).fits(),
        ensures
            self.range_total(span).fits(),
    {
        let parts = self.parts();
        let n = parts.len() as int;
        self.lemma_entries_ok();
        let a = parts.subrange(0, span.0);
        let b = parts.subrange(span.0, span.1);
        let c = parts.subrange(span.1, n);
        assert(parts.subrange(0, n) =~= a + b + c);
        lemma_chain_add(a, b);
        lemma_chain_add(a + b, c);
        lemma_total_add::<E, I>(chain(a), chain(b));
        lemma_total_add::<E, I>(chain(a) + chain(b), chain(c));
        lemma_total_nonneg::<E, I>(chain(a));
        lemma_total_nonneg::<E, I>(chain(b));
        lemma_total_nonneg::<E, I>(chain(c));
    }

    /// What adjoining leaves count for adds up.
    pub proof fn lemma_range_total_add(&self, a: int, b: int, c: int)
        requires
            0 <= a <= b <= c <= self.shape@.order.len(),
        ensures
            self.range_total((a, c)) == self.range_total((a, b)).plus(self.range_total((b, c))),
    {
        let parts = self.parts();
        assert(parts.subrange(a, c) =~= parts.subrange(a, b) + parts.subrange(b, c));
        lemma_chain_add(parts.subrange(a, b), parts.subrange(b, c));
        lemma_total_add::<E, I>(chain(parts.subrange(a, b)), chain(parts.subrange(b, c)));
    }

    /// The leaves are as they were, but for what they hang from.
    pub open spec fn same_leaves(&self, before: Self) -> bool {
        &&& self.shape@.order == before.shape@.order
        &&& self.shape@.rank == before.shape@.rank
        &&& self.leaves@.len() == before.leaves@.len()
        &&& forall|l: int|
            0 <= l < self.leaves@.len() ==> (#[trigger] self.leaves@[l]).num_entries
                == before.leaves@[l].num_entries && self.leaves@[l].data
                == before.leaves@[l].data
    }

    pub proof fn lemma_same_leaves(&self, before: Self)
        requires
            self.same_leaves(before),
            before.order_ok(),
        ensures
            self.order_ok(),
            self.parts() == before.parts(),
            self@ == before@,
            before.leaves_ok() && (self.root == before.root || self.root is Internal && forall|
                l: int,
            |
                0 <= l < before.leaves@.len() ==> (#[trigger] before.leaves@[l]).num_entries > 0)
                ==> self.leaves_ok(),
    {
        assert forall|l: int| 0 <= l < self.leaves@.len() implies (
        #[trigger] self.leaves@[l]).entries() == before.leaves@[l].entries()
            && self.leaves@[l].sound() == before.leaves@[l].sound() by {
            assert(self.leaves@[l].entries() =~= before.leaves@[l].entries());
        }
        assert(self.parts() =~= before.parts());
    }

    /// No two nodes of one height share a leaf.
    pub proof fn lemma_level_unique(&self, p: NodePtr, q: NodePtr, r: int)
        requires
            self.shape_ok(),
            self.ptr_ok(p),
            self.ptr_ok(q),
            self.height_of(p) == self.height_of(q),
            self.spans_rank(p, r),
            self.spans_rank(q, r),
        ensures
            p == q,
        decreases self.height_of(self.root) - self.height_of(p),
    {
        assert(self.hangs_ok(p));
        assert(self.hangs_ok(q));
        match (self.parent_of(p), self.parent_of(q)) {
            (ParentPtr::Internal(g), ParentPtr::Internal(k)) => {
                let i = choose|i: int|
                    0 <= i < self.num_children(g as int) && #[trigger] self.child(g as int, i) == p;
                let j = choose|j: int|
                    0 <= j < self.num_children(k as int) && #[trigger] self.child(k as int, j) == q;
                assert(self.node_ok(g as int));
                assert(self.node_ok(k as int));
                assert(self.child_ok(g as int, i));
                assert(self.child_ok(k as int, j));
                self.lemma_level_unique(NodePtr::Internal(g), NodePtr::Internal(k), r);
            },
            (ParentPtr::Root, ParentPtr::Root) => {},
            (ParentPtr::Root, ParentPtr::Internal(k)) => {
                let j = choose|j: int|
                    0 <= j < self.num_children(k as int) && #[trigger] self.child(k as int, j) == q;
                assert(self.node_ok(k as int));
                assert(self.child_ok(k as int, j));
            },
            (ParentPtr::Internal(g), ParentPtr::Root) => {
                let i = choose|i: int|
                    0 <= i < self.num_children(g as int) && #[trigger] self.child(g as int, i) == p;
                assert(self.node_ok(g as int));
                assert(self.child_ok(g as int, i));
            },
        }
    }
}

} // verus!
