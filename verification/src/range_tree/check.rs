//! Checking that a tree is sound.

use crate::range_tree::entry::EntryTraits;
use crate::range_tree::index::{Extent, TreeIndex};
use crate::range_tree::node::{LeafPtr, NodePtr, ParentPtr};
use crate::range_tree::runs::{entry_ok, lemma_chain_one, lemma_total_add, total};
use crate::range_tree::tree::RangeTree;
use vstd::prelude::*;

verus! {

/// What the first entries count for is a part of what all entries count for.
proof fn lemma_total_prefix<E: EntryTraits, I: TreeIndex<E>>(entries: Seq<E>, k: int)
    requires
        0 <= k <= entries.len(),
        forall|i: int| 0 <= i < entries.len() ==> (#[trigger] entries[i]).span_ok(),
    ensures
        total::<E, I>(entries.take(k)).len <= total::<E, I>(entries).len,
        total::<E, I>(entries.take(k)).content <= total::<E, I>(entries).content,
        total::<E, I>(entries).len >= 0,
        total::<E, I>(entries).content >= 0,
    decreases entries.len(),
{
    if entries.len() > 0 {
        let n = entries.len() - 1;
        I::lemma_extent_bound(entries[n]);
        if k <= n {
            lemma_total_prefix::<E, I>(entries.drop_last(), k);
            assert(entries.drop_last().take(k) =~= entries.take(k));
        } else {
            lemma_total_prefix::<E, I>(entries.drop_last(), n);
            assert(entries.take(k) =~= entries);
        }
    } else {
        assert(entries.take(k) =~= entries);
    }
}

impl<E: EntryTraits, I: TreeIndex<E>> RangeTree<E, I> {
    /// The pointers from inner nodes to their children are good, and lead ever further
    /// down.
    pub open spec fn leads_down(&self) -> bool {
        &&& self.ptr_ok(self.root)
        &&& self.shape@.heights.len() == self.nodes@.len()
        &&& forall|n: int| 0 <= n < self.nodes@.len() ==> 0 < #[trigger] self.shape@.heights[n]
        &&& forall|n: int, i: int|
            0 <= n < self.nodes@.len() && 0 <= i < self.num_children(n) ==> self.ptr_ok(
                #[trigger] self.child(n, i),
            ) && self.height_of(self.child(n, i)) < self.shape@.heights[n]
        &&& forall|l: int, i: int|
            0 <= l < self.leaves@.len() && 0 <= i < self.leaves@[l].data@.len() ==> (
            #[trigger] self.leaves@[l].data@[i]).span_ok()
    }

    /// The leaf hangs from what is expected, its entries come first and hold items, there
    /// are as many as it says, and at least one where the leaf is not the root.
    pub open spec fn leaf_passes(&self, l: int, expected_parent: ParentPtr) -> bool {
        let leaf = self.leaves@[l];
        &&& leaf.parent == expected_parent
        &&& leaf.num_entries <= leaf.data@.len()
        &&& forall|i: int|
            0 <= i < leaf.data@.len() ==> #[trigger] leaf.data@[i].valid() == (i
                < leaf.num_entries)
        &&& forall|i: int|
            0 <= i < leaf.num_entries ==> #[trigger] leaf.data@[i].span_len() > 0
        &&& expected_parent is Internal ==> leaf.num_entries > 0
        &&& total::<E, I>(leaf.entries()).fits()
    }

    /// One more than the children of a node.
    pub open spec fn steps_below(&self, p: NodePtr) -> int {
        match p {
            NodePtr::Leaf(_) => 0,
            NodePtr::Internal(n) => self.num_children(n as int) + 1,
        }
    }

    /// What a node counts for by the entries below it, unless something there is wrong.
    pub open spec fn checked(&self, p: NodePtr, expected_parent: ParentPtr) -> Option<Extent>
        decreases self.height_of(p), self.steps_below(p),
    {
        match p {
            NodePtr::Leaf(l) => if self.leaf_passes(l.0 as int, expected_parent) {
                Some(total::<E, I>(self.leaves@[l.0 as int].entries()))
            } else {
                None
            },
            NodePtr::Internal(n) => if self.nodes@[n as int].parent == expected_parent {
                self.checked_children(n as int, self.num_children(n as int))
            } else {
                None
            },
        }
    }

    /// What the first `k` children of a node count for, unless something is wrong with
    /// one of them: all are of the same kind, and each counts for what the node says.
    pub open spec fn checked_children(&self, n: int, k: int) -> Option<Extent>
        decreases self.shape@.heights[n], k,
    {
        if k <= 0 {
            Some(Extent::zero())
        } else {
            let c = self.child(n, k - 1);
            match self.checked_children(n, k - 1) {
                Some(sum) => if 0 <= self.height_of(c) < self.shape@.heights[n] && (c is Leaf)
                    == (self.child(n, 0) is Leaf) {
                    match self.checked(c, ParentPtr::Internal(n as usize)) {
                        Some(count) => if self.child_count(n, k - 1) == count && sum.plus(
                            count,
                        ).fits() {
                            Some(sum.plus(count))
                        } else {
                            None
                        },
                        None => None,
                    }
                } else {
                    None
                },
                None => None,
            }
        }
    }

    /// The tree passes: every node does, and the tree counts for what its root does.
    pub open spec fn passes(&self) -> bool {
        self.checked(self.root, ParentPtr::Root) == Some(I::offset_extent(self.count))
    }

    /// What the leaf counts for, if it passes.
    pub(crate) fn check_leaf(&self, leaf: LeafPtr, expected_parent: ParentPtr) -> (size: Option<
        I::IndexOffset,
    >)
        requires
            self.leads_down(),
            leaf.0 < self.leaves@.len(),
        ensures
            size is Some == self.leaf_passes(leaf.0 as int, expected_parent),
            size is Some ==> I::offset_extent(size->0) == total::<E, I>(
                self.leaves@[leaf.0 as int].entries(),
            ),
    {
        let node = &self.leaves[leaf.0];
        if node.parent != expected_parent {
            return None;
        }
        let mut count = I::zero_offset();
        let mut done = false;
        let mut num: usize = 0;
        let mut i: usize = 0;
        assert(node.data@.take(0) =~= Seq::empty());
        while i < node.data.len()
            invariant
                self.leads_down(),
                leaf.0 < self.leaves@.len(),
                *node == self.leaves@[leaf.0 as int],
                i <= node.data@.len(),
                num <= i,
                !done ==> num == i,
                done ==> num < i && !node.data@[num as int].valid(),
                forall|j: int|
                    0 <= j < i ==> #[trigger] node.data@[j].valid() == (j < num),
                forall|j: int| 0 <= j < num ==> #[trigger] node.data@[j].span_len() > 0,
                I::offset_extent(count) == total::<E, I>(node.data@.take(num as int)),
            decreases node.data@.len() - i,
        {
            let e = node.data[i];
            assert(self.leaves@[leaf.0 as int].data@[i as int].span_ok());
            if e.is_valid() {
                // An entry in use behind an unused one is a gap.
                if done {
                    assert(!self.leaf_passes(leaf.0 as int, expected_parent)) by {
                        assert(node.data@[i as int].valid());
                        assert(!node.data@[num as int].valid());
                    }
                    return None;
                }
                if e.len() == 0 {
                    assert(!self.leaf_passes(leaf.0 as int, expected_parent)) by {
                        assert(node.data@[i as int].valid());
                        assert(node.data@[i as int].span_len() == 0);
                    }
                    return None;
                }
                let ghost upto = node.data@.take(i + 1);
                proof {
                    assert(upto.drop_last() =~= node.data@.take(i as int));
                    assert(upto.last() == e);
                    if self.leaf_passes(leaf.0 as int, expected_parent) {
                        assert(node.data@[i as int].valid());
                        assert(node.entries().take(i + 1) =~= upto);
                        lemma_total_prefix::<E, I>(node.entries(), i + 1);
                        lemma_total_prefix::<E, I>(upto, 0);
                    }
                }
                if !I::increment_offset(&mut count, &e) {
                    return None;
                }
                num = num + 1;
            } else {
                done = true;
            }
            i = i + 1;
        }
        if let ParentPtr::Internal(_) = node.parent {
            if num == 0 {
                proof {
                    if self.leaf_passes(leaf.0 as int, expected_parent) {
                        assert(node.data@[0].valid());
                    }
                }
                return None;
            }
        }
        if num != node.num_entries {
            proof {
                if self.leaf_passes(leaf.0 as int, expected_parent) {
                    if num < node.num_entries {
                        assert(node.data@[num as int].valid());
                    } else {
                        assert(node.data@[node.num_entries as int].valid());
                    }
                }
            }
            return None;
        }
        proof {
            I::lemma_offset_fits(count);
        }
        Some(count)
    }

    /// What the inner node counts for, if it and everything below it passes.
    pub(crate) fn check_internal(&self, node: usize, expected_parent: ParentPtr) -> (size: Option<
        I::IndexOffset,
    >)
        requires
            self.leads_down(),
            node < self.nodes@.len(),
        ensures
            size is Some == self.checked(NodePtr::Internal(node), expected_parent) is Some,
            size is Some ==> Some(I::offset_extent(size->0)) == self.checked(
                NodePtr::Internal(node),
                expected_parent,
            ),
        decreases self.shape@.heights[node as int],
    {
        if self.nodes[node].parent != expected_parent {
            return None;
        }
        let mut count_total = I::zero_offset();
        let mut i: usize = 0;
        while i < self.nodes[node].data.len()
            invariant
                self.leads_down(),
                node < self.nodes@.len(),
                self.nodes@[node as int].parent == expected_parent,
                i <= self.num_children(node as int),
                self.checked_children(node as int, i as int) == Some(
                    I::offset_extent(count_total),
                ),
            decreases self.num_children(node as int) - i,
        {
            let (child_count_expected, child) = self.nodes[node].data[i];
            proof {
                assert(child == self.child(node as int, i as int));
                assert(self.ptr_ok(self.child(node as int, i as int)));
                if i + 1 <= self.num_children(node as int) {
                    self.lemma_checked_rest(node as int, i + 1, self.num_children(node as int));
                }
            }
            // All children are of the same kind.
            let first = self.nodes[node].data[0].1;
            let same_kind = match (first, child) {
                (NodePtr::Leaf(_), NodePtr::Leaf(_)) => true,
                (NodePtr::Internal(_), NodePtr::Internal(_)) => true,
                _ => false,
            };
            if !same_kind {
                return None;
            }
            let count_actual = match child {
                NodePtr::Leaf(leaf) => self.check_leaf(leaf, ParentPtr::Internal(node)),
                NodePtr::Internal(n) => self.check_internal(n, ParentPtr::Internal(node)),
            };
            match count_actual {
                None => {
                    return None;
                },
                Some(count) => {
                    if !I::same_offset(child_count_expected, count) {
                        proof {
                            if I::offset_extent(child_count_expected) == I::offset_extent(count) {
                                I::lemma_offset_injective(child_count_expected, count);
                            }
                        }
                        return None;
                    }
                    if !I::add_offset(&mut count_total, count) {
                        return None;
                    }
                },
            }
            i = i + 1;
        }
        Some(count_total)
    }

    /// Where something is wrong with the first children, something is with all of them.
    proof fn lemma_checked_rest(&self, n: int, k: int, all: int)
        requires
            k <= all,
        ensures
            self.checked_children(n, k) is None ==> self.checked_children(n, all) is None,
        decreases all - k,
    {
        if 0 < all && k < all {
            self.lemma_checked_rest(n, k, all - 1);
        }
    }

    /// Whether every node hangs from its parent, every leaf is in order, and every count
    /// up and down the tree is right.
    pub fn check(&self) -> (passes: bool)
        requires
            self.leads_down(),
        ensures
            passes == self.passes(),
            passes ==> self.in_order(self.root, ParentPtr::Root) && I::offset_extent(self.count)
                == total::<E, I>(self.row_below(self.root)),
    {
        proof {
            if self.passes() {
                self.law_passing_tree_is_in_order();
            }
        }
        let expected_size = match self.root {
            NodePtr::Internal(n) => self.check_internal(n, ParentPtr::Root),
            NodePtr::Leaf(leaf) => self.check_leaf(leaf, ParentPtr::Root),
        };
        match expected_size {
            None => false,
            Some(size) => {
                proof {
                    if I::offset_extent(self.count) == I::offset_extent(size) {
                        I::lemma_offset_injective(self.count, size);
                    }
                }
                I::same_offset(self.count, size)
            },
        }
    }

    /// What a node of a sound tree counts for by the entries below it is what the leaves
    /// that it spans count for.
    proof fn lemma_sound_checked(&self, p: NodePtr)
        requires
            self.wf(),
            self.ptr_ok(p),
        ensures
            self.checked(p, self.parent_of(p)) == Some(self.range_total(self.span_of(p))),
        decreases self.height_of(p), self.steps_below(p),
    {
        assert(self.hangs_ok(p));
        I::lemma_offset_fits(self.count);
        assert(self.range_total((0, self.shape@.order.len() as int)).fits());
        match p {
            NodePtr::Leaf(l) => {
                let r = self.shape@.rank[l.0 as int];
                let leaf = self.leaves@[l.0 as int];
                assert(self.shape@.order[r] == l.0);
                assert(leaf.sound());
                assert(self.parts().subrange(r, r + 1) =~= seq![leaf.entries()]);
                lemma_chain_one(leaf.entries());
                self.lemma_range_total_fits((r, r + 1));
                assert forall|i: int| 0 <= i < leaf.data@.len() implies #[trigger] leaf.data@[
                    i
                ].valid() == (i < leaf.num_entries) by {
                    if i < leaf.num_entries {
                        assert(entry_ok(leaf.entries()[i]));
                    }
                }
                assert forall|i: int| 0 <= i < leaf.num_entries implies #[trigger] leaf.data@[
                    i
                ].span_len() > 0 by {
                    assert(entry_ok(leaf.entries()[i]));
                }
            },
            NodePtr::Internal(n) => {
                assert(self.node_ok(n as int));
                self.lemma_sound_children(n as int, self.num_children(n as int));
            },
        }
    }

    proof fn lemma_sound_children(&self, n: int, k: int)
        requires
            self.wf(),
            0 <= n < self.nodes@.len(),
            0 < k <= self.num_children(n),
        ensures
            self.checked_children(n, k) == Some(
                self.range_total((self.shape@.spans[n].0, self.span_of(self.child(n, k - 1)).1)),
            ),
        decreases self.shape@.heights[n], k,
    {
        assert(self.node_ok(n));
        let lo = self.shape@.spans[n].0;
        let c = self.child(n, k - 1);
        assert(self.child_ok(n, k - 1));
        assert(self.child_ok(n, 0));
        match c {
            NodePtr::Internal(m) => {
                assert(self.node_ok(m as int));
            },
            NodePtr::Leaf(_) => {},
        }
        match self.child(n, 0) {
            NodePtr::Internal(m) => {
                assert(self.node_ok(m as int));
            },
            NodePtr::Leaf(_) => {},
        }
        self.lemma_sound_checked(c);
        assert(self.child_count(n, k - 1) == self.range_total(self.span_of(c)));
        I::lemma_offset_fits(self.count);
        assert(self.range_total((0, self.shape@.order.len() as int)).fits());
        self.lemma_range_total_fits((lo, self.span_of(c).1));
        self.lemma_range_total_add(lo, self.span_of(c).0, self.span_of(c).1);
        if k > 1 {
            self.lemma_sound_children(n, k - 1);
            assert(self.span_of(self.child(n, k - 2)).1 == self.span_of(self.child(n, k - 1)).0);
        } else {
            assert(self.checked_children(n, 0) == Some(Extent::zero()));
            assert(self.parts().subrange(lo, lo) =~= Seq::empty());
        }
    }

    /// The entries of the leaves below a node, from left to right.
    pub open spec fn row_below(&self, p: NodePtr) -> Seq<E>
        decreases self.height_of(p), self.steps_below(p),
    {
        match p {
            NodePtr::Leaf(l) => self.leaves@[l.0 as int].entries(),
            NodePtr::Internal(n) => self.row_below_children(n as int, self.num_children(n as int)),
        }
    }

    /// The entries of the leaves below the first `k` children of a node.
    pub open spec fn row_below_children(&self, n: int, k: int) -> Seq<E>
        decreases self.shape@.heights[n], k,
    {
        if k <= 0 {
            Seq::empty()
        } else {
            let c = self.child(n, k - 1);
            self.row_below_children(n, k - 1) + if 0 <= self.height_of(c)
                < self.shape@.heights[n] {
                self.row_below(c)
            } else {
                Seq::empty()
            }
        }
    }

    /// Everything at and below a node is in order: nodes name the node that they hang from;
    /// the slots in use come first in a leaf and hold items, and only the root may be an empty
    /// leaf; the children of a node are of one kind, and it says of each what the entries below
    /// it count for.
    pub open spec fn in_order(&self, p: NodePtr, parent: ParentPtr) -> bool
        decreases self.height_of(p),
    {
        match p {
            NodePtr::Leaf(l) => {
                let leaf = self.leaves@[l.0 as int];
                &&& leaf.parent == parent
                &&& leaf.num_entries <= leaf.data@.len()
                &&& forall|i: int|
                    0 <= i < leaf.data@.len() ==> #[trigger] leaf.data@[i].valid() == (i
                        < leaf.num_entries)
                &&& forall|i: int|
                    0 <= i < leaf.num_entries ==> #[trigger] leaf.data@[i].span_len() > 0
                &&& parent is Internal ==> leaf.num_entries > 0
            },
            NodePtr::Internal(n) => {
                &&& self.nodes@[n as int].parent == parent
                &&& forall|i: int|
                    0 <= i < self.num_children(n as int) ==> {
                        let c = #[trigger] self.child(n as int, i);
                        &&& 0 <= self.height_of(c) < self.shape@.heights[n as int]
                        &&& (c is Leaf) == (self.child(n as int, 0) is Leaf)
                        &&& self.child_count(n as int, i) == total::<E, I>(self.row_below(c))
                        &&& self.in_order(c, ParentPtr::Internal(n))
                    }
            },
        }
    }

    proof fn lemma_passing(&self, p: NodePtr, parent: ParentPtr)
        requires
            self.leads_down(),
            self.ptr_ok(p),
            self.checked(p, parent) is Some,
        ensures
            self.in_order(p, parent),
            self.checked(p, parent) == Some(total::<E, I>(self.row_below(p))),
        decreases self.height_of(p), self.steps_below(p),
    {
        match p {
            NodePtr::Leaf(l) => {},
            NodePtr::Internal(n) => {
                self.lemma_passing_children(n as int, self.num_children(n as int));
            },
        }
    }

    proof fn lemma_passing_children(&self, n: int, k: int)
        requires
            self.leads_down(),
            0 <= n < self.nodes@.len(),
            n <= usize::MAX,
            0 <= k <= self.num_children(n),
            self.checked_children(n, k) is Some,
        ensures
            forall|i: int|
                0 <= i < k ==> {
                    let c = #[trigger] self.child(n, i);
                    &&& 0 <= self.height_of(c) < self.shape@.heights[n]
                    &&& (c is Leaf) == (self.child(n, 0) is Leaf)
                    &&& self.child_count(n, i) == total::<E, I>(self.row_below(c))
                    &&& self.in_order(c, ParentPtr::Internal(n as usize))
                },
            self.checked_children(n, k) == Some(total::<E, I>(self.row_below_children(n, k))),
        decreases self.shape@.heights[n], k,
    {
        if k > 0 {
            let c = self.child(n, k - 1);
            assert(self.ptr_ok(self.child(n, k - 1)));
            self.lemma_passing_children(n, k - 1);
            self.lemma_passing(c, ParentPtr::Internal(n as usize));
            lemma_total_add::<E, I>(self.row_below_children(n, k - 1), self.row_below(c));
        }
    }

    /// A tree that passes is in order from the root down, and counts for what the entries of
    /// its leaves count for.
    pub proof fn law_passing_tree_is_in_order(&self)
        requires
            self.leads_down(),
            self.passes(),
        ensures
            self.in_order(self.root, ParentPtr::Root),
            I::offset_extent(self.count) == total::<E, I>(self.row_below(self.root)),
    {
        self.lemma_passing(self.root, ParentPtr::Root);
    }

    /// Every sound tree passes.
    pub proof fn law_sound_tree_passes(&self)
        requires
            self.wf(),
        ensures
            self.leads_down(),
            self.passes(),
    {
        assert(self.ptr_ok(self.root));
        self.lemma_sound_checked(self.root);
        assert forall|n: int| 0 <= n < self.nodes@.len() implies 0
            < #[trigger] self.shape@.heights[n] by {
            assert(self.node_ok(n));
        }
        assert forall|n: int, i: int|
            0 <= n < self.nodes@.len() && 0 <= i < self.num_children(n) implies self.ptr_ok(
            #[trigger] self.child(n, i),
        ) && self.height_of(self.child(n, i)) < self.shape@.heights[n] by {
            assert(self.node_ok(n));
            assert(self.child_ok(n, i));
        }
        assert forall|l: int, i: int|
            0 <= l < self.leaves@.len() && 0 <= i < self.leaves@[l].data@.len() implies (
        #[trigger] self.leaves@[l].data@[i]).span_ok() by {
            assert(self.leaves@[l].sound());
            if i < self.leaves@[l].num_entries {
                assert(entry_ok(self.leaves@[l].entries()[i]));
            }
        }
    }
}

} // verus!
