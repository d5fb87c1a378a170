//! Making room for more leaves: new roots and split nodes.

use crate::range_tree::entry::EntryTraits;
use crate::range_tree::index::{Extent, TreeIndex};
use crate::range_tree::node::{NodeInternal, NodePtr, ParentPtr, NODE_CHILDREN};
use crate::range_tree::tree::{RangeTree, Shape};
use vstd::prelude::*;

verus! {

/// Where the child at `i` was before a child was added behind the one at `at`.
pub open spec fn place_before(i: int, at: int) -> int {
    if i <= at {
        i
    } else {
        i - 1
    }
}

impl<E: EntryTraits, I: TreeIndex<E>> RangeTree<E, I> {
    /// Hangs a node from another one.
    fn set_parent(&mut self, p: NodePtr, parent: ParentPtr)
        requires
            old(self).ptr_ok(p),
        ensures
            final(self).count == old(self).count,
            final(self).root == old(self).root,
            final(self).shape == old(self).shape,
            final(self).same_leaves(*old(self)),
            final(self).nodes@.len() == old(self).nodes@.len(),
            forall|n: int|
                0 <= n < old(self).nodes@.len() ==> (#[trigger] final(self).nodes@[n]).data == old(
                    self,
                ).nodes@[n].data,
            final(self).parent_of(p) == parent,
            forall|q: NodePtr|
                old(self).ptr_ok(q) && q != p ==> #[trigger] final(self).parent_of(q) == old(
                    self,
                ).parent_of(q),
    {
        match p {
            NodePtr::Leaf(l) => {
                self.leaves[l.0].parent = parent;
            },
            NodePtr::Internal(n) => {
                self.nodes[n].parent = parent;
            },
        }
    }

    /// Up to height `h` the inner nodes are as they were, and below it so is what the
    /// nodes hang from.
    pub open spec fn below_same(&self, before: Self, h: int) -> bool {
        &&& self.nodes@.len() >= before.nodes@.len()
        &&& forall|n: int|
            0 <= n < before.nodes@.len() ==> (#[trigger] self.shape@.heights[n])
                == before.shape@.heights[n]
        &&& forall|n: int|
            0 <= n < before.nodes@.len() && before.shape@.heights[n] <= h ==> (
            #[trigger] self.nodes@[n]).data == before.nodes@[n].data
        &&& forall|q: NodePtr|
            before.ptr_ok(q) && before.height_of(q) < h ==> #[trigger] self.parent_of(q)
                == before.parent_of(q)
    }

    /// Puts a new root above the old one.
    fn grow_root(&mut self)
        requires
            old(self).wf(),
            forall|l: int|
                0 <= l < old(self).leaves@.len() ==> (#[trigger] old(self).leaves@[l]).num_entries
                    > 0,
        ensures
            final(self).wf(),
            final(self).same_leaves(*old(self)),
            final(self)@ == old(self)@,
            final(self).root is Internal,
            final(self).parent_of(old(self).root) is Internal,
            final(self).num_children(final(self).parent_of(old(self).root)->Internal_0 as int) == 1,
            final(self).parent_of(old(self).root)->Internal_0 < final(self).nodes@.len(),
            final(self).below_same(*old(self), old(self).height_of(old(self).root)),
    {
        let top = self.nodes.len();
        let old_root = self.root;
        self.set_parent(old_root, ParentPtr::Internal(top));
        let ghost hung = *self;
        let mut data: Vec<(I::IndexOffset, NodePtr)> = Vec::with_capacity(
            NODE_CHILDREN,
        );
        data.push((self.count, old_root));
        self.nodes.push(NodeInternal { parent: ParentPtr::Root, data });
        self.root = NodePtr::Internal(top);
        self.shape = Ghost(
            Shape {
                spans: self.shape@.spans.push((0, self.shape@.order.len() as int)),
                heights: self.shape@.heights.push(old(self).height_of(old_root) + 1),
                ..self.shape@
            },
        );
        proof {
            assert(self.nodes.len() == top + 1);
            assert forall|q: NodePtr| old(self).ptr_ok(q) && q != old_root implies
            #[trigger] self.parent_of(q) == old(self).parent_of(q) by {
                assert(self.parent_of(q) == hung.parent_of(q));
            }
            self.lemma_grown_root(*old(self));
        }
    }

    proof fn lemma_grown_root(&self, before: Self)
        requires
            before.wf(),
            forall|l: int|
                0 <= l < before.leaves@.len() ==> (#[trigger] before.leaves@[l]).num_entries > 0,
            self.same_leaves(before),
            self.count == before.count,
            self.nodes@.len() == before.nodes@.len() + 1,
            self.root == NodePtr::Internal(before.nodes@.len() as usize),
            before.nodes@.len() < usize::MAX,
            self.nodes@.last().parent == ParentPtr::Root,
            self.nodes@.last().data@ == seq![(before.count, before.root)],
            forall|n: int|
                0 <= n < before.nodes@.len() ==> (#[trigger] self.nodes@[n]).data
                    == before.nodes@[n].data,
            self.parent_of(before.root) == ParentPtr::Internal(before.nodes@.len() as usize),
            forall|q: NodePtr|
                before.ptr_ok(q) && q != before.root ==> #[trigger] self.parent_of(q)
                    == before.parent_of(q),
            self.shape@.spans == before.shape@.spans.push((0, before.shape@.order.len() as int)),
            self.shape@.heights == before.shape@.heights.push(before.height_of(before.root) + 1),
        ensures
            self.wf(),
            self@ == before@,
    {
        self.lemma_same_leaves(before);
        let top = before.nodes@.len() as int;
        assert forall|q: NodePtr| #[trigger] before.ptr_ok(q) implies self.span_of(q)
            == before.span_of(q) && self.height_of(q) == before.height_of(q) by {}
        assert(self.child(top, 0) == before.root);
        assert(before.ptr_ok(before.root));
        assert forall|n: int| 0 <= n < self.nodes@.len() implies #[trigger] self.node_ok(n) by {
            if n < top {
                assert(before.node_ok(n));
                assert forall|i: int| 0 <= i < self.num_children(n) implies #[trigger] self.child(
                    n,
                    i,
                ) == before.child(n, i) && self.span_of(self.child(n, i)) == before.span_of(
                    before.child(n, i),
                ) by {
                    assert(before.child_ok(n, i));
                    assert(before.ptr_ok(before.child(n, i)));
                }
                assert forall|i: int| 0 <= i < self.num_children(n) implies #[trigger] self.child_ok(
                    n,
                    i,
                ) by {
                    assert(before.child_ok(n, i));
                    assert(before.ptr_ok(before.child(n, i)));
                }
                assert(before.child_ok(n, 0));
                assert(before.child_ok(n, self.num_children(n) - 1));
            } else {
                match before.root {
                    NodePtr::Internal(k) => {
                        assert(before.node_ok(k as int));
                    },
                    NodePtr::Leaf(_) => {},
                }
                assert(self.child_ok(top, 0));
            }
        }
        assert forall|q: NodePtr| #[trigger] self.ptr_ok(q) implies self.hangs_ok(q) by {
            if before.ptr_ok(q) {
                assert(before.hangs_ok(q));
                if q == before.root {
                    assert(self.child(top, 0) == q);
                } else {
                    let g = before.parent_of(q)->Internal_0;
                    let i = choose|i: int|
                        0 <= i < before.num_children(g as int) && #[trigger] before.child(
                            g as int,
                            i,
                        ) == q;
                    assert(self.child(g as int, i) == q);
                }
            } else {
                assert(q == self.root);
            }
        }
        assert forall|n: int, i: int|
            0 <= n < self.nodes@.len() && 0 <= i < self.num_children(n) implies (
        #[trigger] self.child_count(n, i)).plus(
            self.missing_at(self.child(n, i), 0, 0, Extent::zero()),
        ) == self.range_total(self.span_of(self.child(n, i))) by {
            if n < top {
                assert(before.node_ok(n));
                assert(before.child_ok(n, i));
                assert(before.child_count(n, i).plus(
                    before.missing_at(before.child(n, i), 0, 0, Extent::zero()),
                ) == before.range_total(before.span_of(before.child(n, i))));
                assert(before.ptr_ok(before.child(n, i)));
            }
        }
    }

    /// What the children from `from` up to `to` of an inner node count for together.
    fn subtotal(&self, n: usize, from: usize, to: usize) -> (count: I::IndexOffset)
        requires
            self.wf(),
            n < self.nodes@.len(),
            from < to <= self.num_children(n as int),
        ensures
            I::offset_extent(count) == self.range_total(
                (
                    self.span_of(self.child(n as int, from as int)).0,
                    self.span_of(self.child(n as int, to - 1)).1,
                ),
            ),
    {
        let ghost lo = self.span_of(self.child(n as int, from as int)).0;
        proof {
            assert(self.node_ok(n as int));
            assert(self.child_ok(n as int, from as int));
            I::lemma_offset_fits(self.count);
        }
        let mut count = self.nodes[n].data[from].0;
        let mut i: usize = from + 1;
        assert(self.child_count(n as int, from as int).plus(
            self.missing_at(self.child(n as int, from as int), 0, 0, Extent::zero()),
        ) == self.range_total(self.span_of(self.child(n as int, from as int))));
        while i < to
            invariant
                self.wf(),
                n < self.nodes@.len(),
                from < i <= to <= self.num_children(n as int),
                lo == self.span_of(self.child(n as int, from as int)).0,
                I::offset_extent(count) == self.range_total(
                    (lo, self.span_of(self.child(n as int, i - 1)).1),
                ),
                self.range_total((0, self.shape@.order.len() as int)).fits(),
            decreases to - i,
        {
            proof {
                let c = self.child(n as int, i as int);
                let b = self.child(n as int, i - 1);
                assert(self.node_ok(n as int));
                assert(self.child_ok(n as int, i as int));
                assert(self.child_ok(n as int, from as int));
                assert(self.child_ok(n as int, i - 1));
                assert(self.span_of(b).1 == self.span_of(c).0);
                assert(self.child_count(n as int, i as int).plus(
                    self.missing_at(c, 0, 0, Extent::zero()),
                ) == self.range_total(self.span_of(c)));
                if from < i - 1 {
                    assert(self.span_of(self.child(n as int, from as int)).1 <= self.span_of(b).0);
                }
                self.lemma_range_total_add(lo, self.span_of(c).0, self.span_of(c).1);
                self.lemma_range_total_fits((lo, self.span_of(c).1));
            }
            I::add_offset(&mut count, self.nodes[n].data[i].0);
            i += 1;
        }
        count
    }

    /// The node is one of the children of `n` from `half` on.
    spec fn moves(&self, n: int, half: int, q: NodePtr) -> bool {
        exists|j: int| half <= j < self.num_children(n) && #[trigger] self.child(n, j) == q
    }

    /// Splits an inner node: the second half of its children move to a new node, which
    /// becomes the next child of what the node hangs from.
    fn split_internal(&mut self, n: usize, g: usize)
        requires
            old(self).wf(),
            n < old(self).nodes@.len(),
            g < old(self).nodes@.len(),
            old(self).num_children(n as int) == NODE_CHILDREN,
            old(self).parent_of(NodePtr::Internal(n)) == ParentPtr::Internal(g),
            old(self).num_children(g as int) < NODE_CHILDREN,
        ensures
            final(self).wf(),
            final(self).same_leaves(*old(self)),
            final(self)@ == old(self)@,
            final(self).root == old(self).root,
            forall|q: NodePtr|
                old(self).ptr_ok(q) && old(self).parent_of(q) == ParentPtr::Internal(n) ==> {
                    &&& #[trigger] final(self).parent_of(q) is Internal
                    &&& final(self).parent_of(q)->Internal_0 < final(self).nodes@.len()
                    &&& final(self).num_children(final(self).parent_of(q)->Internal_0 as int)
                        < NODE_CHILDREN
                },
            final(self).below_same(*old(self), old(self).shape@.heights[n as int] - 1),
    {
        let m = self.nodes.len();
        let half: usize = NODE_CHILDREN / 2;
        proof {
            assert(self.ptr_ok(NodePtr::Internal(n)));
            assert(self.hangs_ok(NodePtr::Internal(n)));
            assert(self.node_ok(n as int));
            assert(self.node_ok(g as int));
        }
        let at = self.find_child(g, NodePtr::Internal(n));
        let left = self.subtotal(n, 0, half);
        let right = self.subtotal(n, half, NODE_CHILDREN);
        let mut i: usize = half;
        while i < NODE_CHILDREN
            invariant
                half <= i <= NODE_CHILDREN,
                old(self).wf(),
                n < old(self).nodes@.len(),
                old(self).num_children(n as int) == NODE_CHILDREN,
                m == old(self).nodes@.len(),
                self.count == old(self).count,
                self.root == old(self).root,
                self.shape == old(self).shape,
                self.same_leaves(*old(self)),
                self.nodes@.len() == old(self).nodes@.len(),
                forall|k: int|
                    0 <= k < old(self).nodes@.len() ==> (#[trigger] self.nodes@[k]).data == old(
                        self,
                    ).nodes@[k].data,
                forall|j: int|
                    half <= j < i ==> self.parent_of(#[trigger] old(self).child(n as int, j))
                        == ParentPtr::Internal(m),
                forall|q: NodePtr|
                    old(self).ptr_ok(q) ==> #[trigger] self.parent_of(q) == old(self).parent_of(q)
                        || (old(self).moves(n as int, half as int, q) && self.parent_of(q)
                        == ParentPtr::Internal(m)),
            decreases NODE_CHILDREN - i,
        {
            let c = self.nodes[n].data[i].1;
            proof {
                assert(old(self).node_ok(n as int));
                assert(old(self).child_ok(n as int, i as int));
                assert(old(self).child(n as int, i as int) == c);
            }
            let ghost earlier = *self;
            self.set_parent(c, ParentPtr::Internal(m));
            proof {
                assert forall|q: NodePtr| old(self).ptr_ok(q) implies #[trigger] self.parent_of(q)
                    == old(self).parent_of(q) || (old(self).moves(n as int, half as int, q)
                    && self.parent_of(q) == ParentPtr::Internal(m)) by {
                    assert(earlier.ptr_ok(q));
                    if q != c {
                        assert(self.parent_of(q) == earlier.parent_of(q));
                    }
                }
                assert forall|j: int| half <= j < i + 1 implies self.parent_of(
                    #[trigger] old(self).child(n as int, j),
                ) == ParentPtr::Internal(m) by {
                    assert(old(self).child_ok(n as int, j));
                    let q = old(self).child(n as int, j);
                    assert(earlier.ptr_ok(q));
                    if q != c {
                        assert(self.parent_of(q) == earlier.parent_of(q));
                    }
                }
            }
            i += 1;
        }
        let ghost hung = *self;
        let moved = self.nodes[n].data.split_off(half);
        self.nodes[g].data[at] = (left, NodePtr::Internal(n));
        self.nodes[g].data.insert(at + 1, (right, NodePtr::Internal(m)));
        self.nodes.push(NodeInternal { parent: ParentPtr::Internal(g), data: moved });
        self.shape = Ghost(
            {
                let span = self.shape@.spans[n as int];
                let mid = old(self).span_of(old(self).child(n as int, half as int)).0;
                Shape {
                    spans: self.shape@.spans.update(n as int, (span.0, mid)).push((mid, span.1)),
                    heights: self.shape@.heights.push(self.shape@.heights[n as int]),
                    ..self.shape@
                }
            },
        );
        proof {
            assert(self.nodes.len() == m + 1);
            assert forall|q: NodePtr| old(self).ptr_ok(q) implies #[trigger] self.parent_of(q)
                == hung.parent_of(q) by {}
            assert forall|j: int| half <= j < NODE_CHILDREN implies self.parent_of(
                #[trigger] old(self).child(n as int, j),
            ) == ParentPtr::Internal(m) by {
                assert(old(self).child_ok(n as int, j));
                assert(old(self).ptr_ok(old(self).child(n as int, j)));
            }
            assert(old(self).child_ok(n as int, half as int));
            assert(old(self).child_ok(n as int, half - 1));
            assert(old(self).child_ok(g as int, at as int));
            assert(old(self).span_of(old(self).child(n as int, half - 1)).1 == old(self).span_of(
                old(self).child(n as int, half as int),
            ).0);
            self.lemma_split_internal(*old(self), n as int, g as int, at as int, left, right);
            assert forall|q: NodePtr|
                old(self).ptr_ok(q) && old(self).height_of(q) < old(self).shape@.heights[n as int]
                    - 1 implies #[trigger] self.parent_of(q) == old(self).parent_of(q) by {
                if old(self).moves(n as int, half as int, q) {
                    let j = choose|j: int|
                        half <= j < old(self).num_children(n as int) && #[trigger] old(self).child(
                            n as int,
                            j,
                        ) == q;
                    assert(old(self).child_ok(n as int, j));
                }
            }
        }
    }

    /// The tree is `before` with the inner node `n`, child `at` of `g`, split: the new
    /// node takes the second half of its children.
    spec fn is_split(
        &self,
        before: Self,
        n: int,
        g: int,
        at: int,
        left: I::IndexOffset,
        right: I::IndexOffset,
    ) -> bool {
        let half = (NODE_CHILDREN / 2) as int;
        let span = before.shape@.spans[n];
        let mid = before.span_of(before.child(n, half)).0;
        let m = before.nodes@.len() as int;
        &&& before.shape_ok()
        &&& 0 <= n < m
        &&& 0 <= g < m
        &&& n != g
        &&& before.num_children(n) == NODE_CHILDREN
        &&& before.parent_of(NodePtr::Internal(n as usize)) == ParentPtr::Internal(g as usize)
        &&& before.num_children(g) < NODE_CHILDREN
        &&& 0 <= at < before.num_children(g)
        &&& before.child(g, at) == NodePtr::Internal(n as usize)
        &&& m < usize::MAX
        &&& self.same_leaves(before)
        &&& self.count == before.count
        &&& self.root == before.root
        &&& self.nodes@.len() == m + 1
        &&& forall|k: int|
            0 <= k < m && k != n && k != g ==> (#[trigger] self.nodes@[k]).data
                == before.nodes@[k].data
        &&& self.nodes@[n].data@ == before.nodes@[n].data@.take(half)
        &&& self.nodes@[m].data@ == before.nodes@[n].data@.skip(half)
        &&& self.nodes@[m].parent == ParentPtr::Internal(g as usize)
        &&& self.nodes@[g].data@ == before.nodes@[g].data@.update(
            at,
            (left, NodePtr::Internal(n as usize)),
        ).insert(at + 1, (right, NodePtr::Internal(m as usize)))
        &&& forall|q: NodePtr|
            before.ptr_ok(q) ==> #[trigger] self.parent_of(q) == before.parent_of(q) || (
            before.moves(n, half, q) && self.parent_of(q) == ParentPtr::Internal(m as usize))
        &&& forall|j: int|
            half <= j < NODE_CHILDREN ==> self.parent_of(#[trigger] before.child(n, j))
                == ParentPtr::Internal(m as usize)
        &&& self.shape@.spans == before.shape@.spans.update(n, (span.0, mid)).push((mid, span.1))
        &&& self.shape@.heights == before.shape@.heights.push(before.shape@.heights[n])
        &&& I::offset_extent(left) == before.range_total((span.0, mid))
        &&& I::offset_extent(right) == before.range_total((mid, span.1))
    }

    /// What a split leaves as it was.
    proof fn lemma_split_frame(
        &self,
        before: Self,
        n: int,
        g: int,
        at: int,
        left: I::IndexOffset,
        right: I::IndexOffset,
    )
        requires
            self.is_split(before, n, g, at, left, right),
        ensures
            forall|q: NodePtr| #[trigger]
                before.ptr_ok(q) && q != NodePtr::Internal(n as usize) ==> self.span_of(q)
                    == before.span_of(q) && self.height_of(q) == before.height_of(q),
            forall|k: int, j: int|
                0 <= k < before.nodes@.len() && 0 <= j < before.num_children(k) ==> {
                    let c = #[trigger] before.child(k, j);
                    &&& before.ptr_ok(c)
                    &&& before.child_ok(k, j)
                    &&& (c == NodePtr::Internal(n as usize) ==> k == g && j == at)
                    &&& (!(k == n && j >= NODE_CHILDREN / 2) ==> self.parent_of(c)
                        == ParentPtr::Internal(k as usize))
                },
    {
        let half = (NODE_CHILDREN / 2) as int;
        assert(before.node_ok(n));
        assert(before.node_ok(g));
        assert(before.child_ok(g, at));
        assert forall|k: int, j: int|
            0 <= k < before.nodes@.len() && 0 <= j < before.num_children(k) implies {
            let c = #[trigger] before.child(k, j);
            &&& before.ptr_ok(c)
            &&& before.child_ok(k, j)
            &&& (c == NodePtr::Internal(n as usize) ==> k == g && j == at)
            &&& (!(k == n && j >= NODE_CHILDREN / 2) ==> self.parent_of(c) == ParentPtr::Internal(
                k as usize,
            ))
        } by {
            assert(before.node_ok(k));
            assert(before.child_ok(k, j));
            let q = before.child(k, j);
            if q == NodePtr::Internal(n as usize) {
                if j < at {
                    assert(before.span_of(before.child(k, j)).1 <= before.span_of(
                        before.child(g, at),
                    ).0);
                } else if j > at {
                    assert(before.span_of(before.child(g, at)).1 <= before.span_of(
                        before.child(k, j),
                    ).0);
                }
            }
            if !(k == n && j >= half) && before.moves(n, half, q) {
                let j2 = choose|j2: int|
                    half <= j2 < before.num_children(n) && #[trigger] before.child(n, j2) == q;
                assert(before.child_ok(n, j2));
                assert(before.span_of(before.child(n, j)).1 <= before.span_of(
                    before.child(n, j2),
                ).0);
            }
            assert(self.parent_of(q) == before.parent_of(q) || before.moves(n, half, q));
        }
    }

    proof fn lemma_split_halves(
        &self,
        before: Self,
        n: int,
        g: int,
        at: int,
        left: I::IndexOffset,
        right: I::IndexOffset,
    )
        requires
            self.is_split(before, n, g, at, left, right),
        ensures
            self.node_ok(n),
            self.node_ok(before.nodes@.len() as int),
    {
        self.lemma_split_frame(before, n, g, at, left, right);
        let half = (NODE_CHILDREN / 2) as int;
        let m = before.nodes@.len() as int;
        assert(before.node_ok(n));
        assert(before.child_ok(n, half));
        assert(before.child_ok(n, half - 1));
        assert(before.span_of(before.child(n, half - 1)).1 == before.span_of(
            before.child(n, half),
        ).0);
        assert forall|i: int| 0 <= i < half implies #[trigger] self.child(n, i) == before.child(
            n,
            i,
        ) && self.span_of(self.child(n, i)) == before.span_of(before.child(n, i)) by {}
        assert forall|i: int| 0 <= i < half implies #[trigger] self.child_ok(n, i) by {
            assert(before.child_ok(n, i));
            assert(self.child(n, i) == before.child(n, i));
            if i < half - 1 {
                assert(before.span_of(before.child(n, i)).1 <= before.span_of(
                    before.child(n, half - 1),
                ).0);
            }
        }
        assert(self.child(n, 0) == before.child(n, 0));
        assert(self.child(n, half - 1) == before.child(n, half - 1));
        assert forall|i: int| 0 <= i < half implies #[trigger] self.child(m, i) == before.child(
            n,
            half + i,
        ) && self.span_of(self.child(m, i)) == before.span_of(before.child(n, half + i)) by {}
        assert forall|i: int| 0 <= i < half implies #[trigger] self.child_ok(m, i) by {
            assert(before.child_ok(n, half + i));
            assert(self.child(m, i) == before.child(n, half + i));
            assert(self.parent_of(before.child(n, half + i)) == ParentPtr::Internal(m as usize));
            if i > 0 {
                assert(before.span_of(before.child(n, half)).1 <= before.span_of(
                    before.child(n, half + i),
                ).0);
            }
        }
        assert(self.child(m, 0) == before.child(n, half));
        assert(self.child(m, half - 1) == before.child(n, 2 * half - 1));
    }

    #[verifier::rlimit(40)]
    proof fn lemma_split_above(
        &self,
        before: Self,
        n: int,
        g: int,
        at: int,
        left: I::IndexOffset,
        right: I::IndexOffset,
    )
        requires
            self.is_split(before, n, g, at, left, right),
        ensures
            self.node_ok(g),
    {
        self.lemma_split_frame(before, n, g, at, left, right);
        let half = (NODE_CHILDREN / 2) as int;
        let m = before.nodes@.len() as int;
        let span = before.shape@.spans[n];
        let mid = before.span_of(before.child(n, half)).0;
        let old_n = NodePtr::Internal(n as usize);
        let new_m = NodePtr::Internal(m as usize);
        assert(before.node_ok(g));
        assert(before.node_ok(n));
        assert(before.child_ok(n, half));
        assert(before.child_ok(n, half - 1));
        assert(before.child_ok(n, 0));
        assert(before.span_of(before.child(n, half - 1)).1 == mid);
        assert(before.span_of(before.child(n, 0)).1 <= mid);
        assert(before.span_of(before.child(g, at)) == span);
        assert(self.child(g, at + 1) == new_m);
        assert(self.span_of(new_m) == (mid, span.1));
        assert(self.span_of(old_n) == (span.0, mid));
        assert forall|i: int| 0 <= i < self.num_children(g) && i != at + 1 implies
        #[trigger] self.child(g, i) == before.child(g, place_before(i, at)) && (i != at ==> self.span_of(
            self.child(g, i),
        ) == before.span_of(before.child(g, place_before(i, at)))) by {
            assert(before.ptr_ok(before.child(g, place_before(i, at))));
        }
        assert forall|i: int| 0 <= i < self.num_children(g) implies #[trigger] self.child_ok(
            g,
            i,
        ) by {
            assert(before.child_ok(g, place_before(i, at)));
            if i != at + 1 {
                assert(self.child(g, i) == before.child(g, place_before(i, at)));
            }
        }
        assert forall|i: int, j: int| 0 <= i < j < self.num_children(g) implies self.span_of(
            #[trigger] self.child(g, i),
        ).1 <= self.span_of(#[trigger] self.child(g, j)).0 && (j == i + 1 ==> self.span_of(
            self.child(g, i),
        ).1 == self.span_of(self.child(g, j)).0) by {
            assert(before.child_ok(g, place_before(i, at)));
            assert(before.child_ok(g, place_before(j, at)));
            if place_before(i, at) < place_before(j, at) {
                assert(before.span_of(before.child(g, place_before(i, at))).1 <= before.span_of(
                    before.child(g, place_before(j, at)),
                ).0);
            }
        }
        assert(self.child(g, 0) == before.child(g, 0));
        let last = self.num_children(g) - 1;
        if at + 1 < last {
            assert(self.child(g, last) == before.child(g, last - 1));
        }
    }

    proof fn lemma_split_others(
        &self,
        before: Self,
        n: int,
        g: int,
        at: int,
        left: I::IndexOffset,
        right: I::IndexOffset,
        k: int,
    )
        requires
            self.is_split(before, n, g, at, left, right),
            0 <= k < before.nodes@.len(),
            k != n,
            k != g,
        ensures
            self.node_ok(k),
    {
        self.lemma_split_frame(before, n, g, at, left, right);
        assert(before.ptr_ok(before.root));
        assert(before.root != NodePtr::Internal(n as usize));
        assert(before.node_ok(k));
        assert forall|i: int| 0 <= i < self.num_children(k) implies #[trigger] self.child(k, i)
            == before.child(k, i) && self.span_of(self.child(k, i)) == before.span_of(
            before.child(k, i),
        ) by {}
        assert forall|i: int| 0 <= i < self.num_children(k) implies #[trigger] self.child_ok(
            k,
            i,
        ) by {
            assert(before.child_ok(k, i));
            assert(self.child(k, i) == before.child(k, i));
        }
        assert(self.child(k, 0) == before.child(k, 0));
        assert(self.child(k, self.num_children(k) - 1) == before.child(
            k,
            self.num_children(k) - 1,
        ));
    }

    proof fn lemma_split_hangs(
        &self,
        before: Self,
        n: int,
        g: int,
        at: int,
        left: I::IndexOffset,
        right: I::IndexOffset,
        q: NodePtr,
    )
        requires
            self.is_split(before, n, g, at, left, right),
            self.ptr_ok(q),
        ensures
            self.hangs_ok(q),
    {
        let half = (NODE_CHILDREN / 2) as int;
        let m = before.nodes@.len() as int;
        if q == NodePtr::Internal(m as usize) {
            assert(self.child(g, at + 1) == q);
        } else {
            assert(before.ptr_ok(q));
            assert(before.hangs_ok(q));
            if before.moves(n, half, q) {
                let j = choose|j: int|
                    half <= j < before.num_children(n) && #[trigger] before.child(n, j) == q;
                assert(self.parent_of(before.child(n, j)) == ParentPtr::Internal(m as usize));
                assert(self.child(m, j - half) == q);
            } else {
                assert(self.parent_of(q) == before.parent_of(q));
                match before.parent_of(q) {
                    ParentPtr::Internal(k) => {
                        let i = choose|i: int|
                            0 <= i < before.num_children(k as int) && #[trigger] before.child(
                                k as int,
                                i,
                            ) == q;
                        if k == g {
                            if i <= at {
                                assert(self.child(g, i) == q);
                            } else {
                                assert(self.child(g, i + 1) == q);
                            }
                        } else {
                            assert(k == n ==> i < half);
                            assert(self.child(k as int, i) == q);
                        }
                    },
                    ParentPtr::Root => {},
                }
            }
        }
    }

    proof fn lemma_split_counts(
        &self,
        before: Self,
        n: int,
        g: int,
        at: int,
        left: I::IndexOffset,
        right: I::IndexOffset,
        k: int,
        i: int,
    )
        requires
            self.is_split(before, n, g, at, left, right),
            before.counts_ok(0, 0, Extent::zero()),
            self.parts() == before.parts(),
            0 <= k < self.nodes@.len(),
            0 <= i < self.num_children(k),
        ensures
            self.child_count(k, i) == self.range_total(self.span_of(self.child(k, i))),
    {
        self.lemma_split_frame(before, n, g, at, left, right);
        let half = (NODE_CHILDREN / 2) as int;
        let m = before.nodes@.len() as int;
        if k == g && (i == at || i == at + 1) {
            assert(self.child(k, i) == if i == at {
                NodePtr::Internal(n as usize)
            } else {
                NodePtr::Internal(m as usize)
            });
        } else {
            let (k2, i2) = if k == m {
                (n, half + i)
            } else if k == g && i > at {
                (k, i - 1)
            } else {
                (k, i)
            };
            assert(before.child_count(k2, i2).plus(
                before.missing_at(before.child(k2, i2), 0, 0, Extent::zero()),
            ) == before.range_total(before.span_of(before.child(k2, i2))));
            assert(self.child(k, i) == before.child(k2, i2));
        }
    }

    proof fn lemma_split_internal(
        &self,
        before: Self,
        n: int,
        g: int,
        at: int,
        left: I::IndexOffset,
        right: I::IndexOffset,
    )
        requires
            before.wf(),
            self.is_split(before, n, g, at, left, right),
        ensures
            self.wf(),
            self@ == before@,
            forall|q: NodePtr|
                before.ptr_ok(q) && before.parent_of(q) == ParentPtr::Internal(n as usize) ==> {
                    &&& #[trigger] self.parent_of(q) is Internal
                    &&& self.parent_of(q)->Internal_0 < self.nodes@.len()
                    &&& self.num_children(self.parent_of(q)->Internal_0 as int) < NODE_CHILDREN
                },
    {
        self.lemma_same_leaves(before);
        assert(before.ptr_ok(before.root));
        assert(before.root != NodePtr::Internal(n as usize));
        assert(self.parent_of(before.root) == ParentPtr::Root) by {
            self.lemma_split_frame(before, n, g, at, left, right);
        }
        assert forall|k: int| 0 <= k < self.nodes@.len() implies #[trigger] self.node_ok(k) by {
            if k == g {
                self.lemma_split_above(before, n, g, at, left, right);
            } else if k == n || k == before.nodes@.len() {
                self.lemma_split_halves(before, n, g, at, left, right);
            } else {
                self.lemma_split_others(before, n, g, at, left, right, k);
            }
        }
        assert forall|q: NodePtr| #[trigger] self.ptr_ok(q) implies self.hangs_ok(q) by {
            self.lemma_split_hangs(before, n, g, at, left, right, q);
        }
        assert forall|k: int, i: int|
            0 <= k < self.nodes@.len() && 0 <= i < self.num_children(k) implies (
        #[trigger] self.child_count(k, i)).plus(
            self.missing_at(self.child(k, i), 0, 0, Extent::zero()),
        ) == self.range_total(self.span_of(self.child(k, i))) by {
            self.lemma_split_counts(before, n, g, at, left, right, k, i);
        }
    }

    /// Makes sure that the node hangs from an inner node with room for one more child.
    pub(crate) fn make_room(&mut self, p: NodePtr)
        requires
            old(self).wf(),
            forall|l: int|
                0 <= l < old(self).leaves@.len() ==> (#[trigger] old(self).leaves@[l]).num_entries
                    > 0,
            old(self).ptr_ok(p),
        ensures
            final(self).wf(),
            final(self).same_leaves(*old(self)),
            final(self)@ == old(self)@,
            final(self).parent_of(p) is Internal,
            final(self).parent_of(p)->Internal_0 < final(self).nodes@.len(),
            final(self).num_children(final(self).parent_of(p)->Internal_0 as int) < NODE_CHILDREN,
            final(self).below_same(*old(self), old(self).height_of(p)),
        decreases old(self).height_of(old(self).root) - old(self).height_of(p),
    {
        assert(self.hangs_ok(p));
        match self.get_parent(p) {
            ParentPtr::Root => {
                self.grow_root();
            },
            ParentPtr::Internal(g) => {
                proof {
                    assert(self.node_ok(g as int));
                    let i = choose|i: int|
                        0 <= i < self.num_children(g as int) && #[trigger] self.child(g as int, i)
                            == p;
                    assert(self.child_ok(g as int, i));
                }
                if self.nodes[g].data.len() == NODE_CHILDREN {
                    let ghost before = *self;
                    self.make_room(NodePtr::Internal(g));
                    let ghost roomy = *self;
                    assert(roomy.parent_of(p) == before.parent_of(p));
                    match self.get_parent(NodePtr::Internal(g)) {
                        ParentPtr::Internal(k) => {
                            self.split_internal(g, k);
                            proof {
                                assert(roomy.ptr_ok(p));
                                assert forall|q: NodePtr|
                                    before.ptr_ok(q) && before.height_of(q)
                                        < before.height_of(p) implies #[trigger] self.parent_of(q)
                                    == before.parent_of(q) by {
                                    assert(roomy.ptr_ok(q));
                                    assert(roomy.parent_of(q) == before.parent_of(q));
                                }
                                assert forall|n: int|
                                    0 <= n < before.nodes@.len() && before.shape@.heights[n]
                                        <= before.height_of(p) implies (
                                #[trigger] self.nodes@[n]).data == before.nodes@[n].data by {
                                    assert(roomy.shape@.heights[n] == before.shape@.heights[n]);
                                    assert(roomy.nodes@[n].data == before.nodes@[n].data);
                                }
                            }
                        },
                        ParentPtr::Root => {},
                    }
                }
            },
        }
    }
}

} // verus!
