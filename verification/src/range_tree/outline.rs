//! The nodes of a tree, listed from the root down.

use crate::range_tree::entry::EntryTraits;
use crate::range_tree::index::TreeIndex;
use crate::range_tree::node::{LeafPtr, NodePtr, ParentPtr, NODE_CHILDREN};
use crate::range_tree::tree::RangeTree;
use vstd::prelude::*;

verus! {

/// One line of the list of nodes.
#[derive(Clone, Copy, Debug, PartialEq, Eq, Structural)]
pub enum OutlineLine {
    /// An inner node; its children follow, one level deeper.
    Internal { depth: usize, node: usize, parent: ParentPtr },
    /// How many more children the node has room for.
    Unused { depth: usize, count: usize },
    /// A leaf, and how many of its slots are in use.
    Leaf { depth: usize, leaf: LeafPtr, parent: ParentPtr, filled: usize },
}

impl<E: EntryTraits, I: TreeIndex<E>> RangeTree<E, I> {
    /// A node and all nodes below it, each of them before those below it.
    pub open spec fn outline_of(&self, p: NodePtr, depth: int) -> Seq<OutlineLine>
        decreases self.height_of(p), self.steps_below(p),
    {
        match p {
            NodePtr::Leaf(leaf) => seq![
                OutlineLine::Leaf {
                    depth: depth as usize,
                    leaf,
                    parent: self.leaves@[leaf.0 as int].parent,
                    filled: self.leaves@[leaf.0 as int].num_entries,
                },
            ],
            NodePtr::Internal(n) => {
                let k = self.num_children(n as int);
                seq![
                    OutlineLine::Internal {
                        depth: depth as usize,
                        node: n,
                        parent: self.nodes@[n as int].parent,
                    },
                ] + self.outline_of_children(n as int, k, depth + 1) + if k < NODE_CHILDREN {
                    seq![
                        OutlineLine::Unused {
                            depth: (depth + 1) as usize,
                            count: (NODE_CHILDREN - k) as usize,
                        },
                    ]
                } else {
                    Seq::empty()
                }
            },
        }
    }

    /// The first `k` children of a node and all nodes below them.
    pub open spec fn outline_of_children(&self, n: int, k: int, depth: int) -> Seq<OutlineLine>
        decreases self.shape@.heights[n], k,
    {
        if k <= 0 {
            Seq::empty()
        } else {
            let c = self.child(n, k - 1);
            self.outline_of_children(n, k - 1, depth) + if 0 <= self.height_of(c)
                < self.shape@.heights[n] {
                self.outline_of(c, depth)
            } else {
                Seq::empty()
            }
        }
    }

    /// Lists a node and all nodes below it.
    fn outline_node(&self, node: NodePtr, depth: usize, lines: &mut Vec<OutlineLine>)
        requires
            self.wf(),
            self.ptr_ok(node),
            depth + self.height_of(node) < usize::MAX,
        ensures
            final(lines)@ == old(lines)@ + self.outline_of(node, depth as int),
        decreases self.height_of(node),
    {
        let ghost before = lines@;
        match node {
            NodePtr::Leaf(leaf) => {
                let parent = self.leaves[leaf.0].parent;
                let filled = self.leaves[leaf.0].len_entries();
                lines.push(OutlineLine::Leaf { depth, leaf, parent, filled });
                assert(lines@ =~= before + self.outline_of(node, depth as int));
            },
            NodePtr::Internal(n) => {
                assert(self.node_ok(n as int));
                let parent = self.nodes[n].parent;
                let line = OutlineLine::Internal { depth, node: n, parent };
                lines.push(line);
                let len = self.nodes[n].data.len();
                let mut i: usize = 0;
                assert(lines@ =~= before + seq![line] + self.outline_of_children(
                    n as int,
                    0,
                    depth + 1,
                ));
                while i < len
                    invariant
                        self.wf(),
                        n < self.nodes@.len(),
                        self.node_ok(n as int),
                        len == self.num_children(n as int),
                        i <= len,
                        node == NodePtr::Internal(n),
                        depth + self.height_of(node) < usize::MAX,
                        lines@ == before + seq![line] + self.outline_of_children(
                            n as int,
                            i as int,
                            depth + 1,
                        ),
                    decreases len - i,
                {
                    let ghost upto = self.outline_of_children(n as int, i as int, depth + 1);
                    proof {
                        assert(self.child_ok(n as int, i as int));
                        match self.child(n as int, i as int) {
                            NodePtr::Internal(m) => {
                                assert(self.node_ok(m as int));
                            },
                            NodePtr::Leaf(_) => {},
                        }
                    }
                    let child = self.nodes[n].data[i].1;
                    self.outline_node(child, depth + 1, lines);
                    proof {
                        let below = self.outline_of(child, depth + 1);
                        assert(before + seq![line] + upto + below =~= before + seq![line] + (upto
                            + below));
                    }
                    i = i + 1;
                }
                if len < NODE_CHILDREN {
                    lines.push(
                        OutlineLine::Unused { depth: depth + 1, count: NODE_CHILDREN - len },
                    );
                }
                assert(lines@ =~= before + self.outline_of(node, depth as int));
            },
        }
    }

    /// All nodes, from the root down.
    pub fn outline(&self) -> (lines: Vec<OutlineLine>)
        requires
            self.wf(),
            self.height_of(self.root) < usize::MAX - 1,
        ensures
            lines@ == self.outline_of(self.root, 1),
    {
        let mut lines: Vec<OutlineLine> = Vec::new();
        self.outline_node(self.root, 1, &mut lines);
        assert(lines@ =~= self.outline_of(self.root, 1));
        lines
    }
}

/// The leaves that a list of nodes names, in their order there.
pub open spec fn leaves_listed(lines: Seq<OutlineLine>) -> Seq<int>
    decreases lines.len(),
{
    if lines.len() == 0 {
        Seq::empty()
    } else {
        let head = leaves_listed(lines.drop_last());
        match lines.last() {
            OutlineLine::Leaf { leaf, .. } => head.push(leaf.0 as int),
            _ => head,
        }
    }
}

/// How many inner nodes a list names.
pub open spec fn inner_listed(lines: Seq<OutlineLine>) -> int
    decreases lines.len(),
{
    if lines.len() == 0 {
        0
    } else {
        inner_listed(lines.drop_last()) + if lines.last() is Internal {
            1int
        } else {
            0
        }
    }
}

/// How many more children the nodes of a list have room for, together.
pub open spec fn room_listed(lines: Seq<OutlineLine>) -> int
    decreases lines.len(),
{
    if lines.len() == 0 {
        0
    } else {
        room_listed(lines.drop_last()) + match lines.last() {
            OutlineLine::Unused { count, .. } => count as int,
            _ => 0,
        }
    }
}

proof fn lemma_listed_add(a: Seq<OutlineLine>, b: Seq<OutlineLine>)
    ensures
        leaves_listed(a + b) == leaves_listed(a) + leaves_listed(b),
        inner_listed(a + b) == inner_listed(a) + inner_listed(b),
        room_listed(a + b) == room_listed(a) + room_listed(b),
    decreases b.len(),
{
    if b.len() == 0 {
        assert(a + b =~= a);
        assert(leaves_listed(a) + leaves_listed(b) =~= leaves_listed(a));
    } else {
        lemma_listed_add(a, b.drop_last());
        assert((a + b).drop_last() =~= a + b.drop_last());
        assert((a + b).last() == b.last());
        assert(leaves_listed(a + b) =~= leaves_listed(a) + leaves_listed(b));
    }
}

proof fn lemma_listed_one(line: OutlineLine)
    ensures
        leaves_listed(seq![line]) == match line {
            OutlineLine::Leaf { leaf, .. } => seq![leaf.0 as int],
            _ => Seq::empty(),
        },
        inner_listed(seq![line]) == if line is Internal {
            1int
        } else {
            0
        },
        room_listed(seq![line]) == match line {
            OutlineLine::Unused { count, .. } => count as int,
            _ => 0,
        },
{
    let one = seq![line];
    let none = one.drop_last();
    assert(none.len() == 0 && one.last() == line);
    assert(leaves_listed(none) =~= Seq::empty());
    assert(inner_listed(none) == 0 && room_listed(none) == 0);
    assert(leaves_listed(one) =~= match line {
        OutlineLine::Leaf { leaf, .. } => seq![leaf.0 as int],
        _ => Seq::empty(),
    });
}

impl<E: EntryTraits, I: TreeIndex<E>> RangeTree<E, I> {
    /// A line of a list in which the root is at level `top`: it says what the node hangs from,
    /// and its level is that of the node; a leaf's line says how many of its slots are in use.
    pub open spec fn line_is_right(&self, line: OutlineLine, top: int) -> bool {
        match line {
            OutlineLine::Internal { depth, node, parent } => {
                &&& node < self.nodes@.len()
                &&& parent == self.nodes@[node as int].parent
                &&& depth == top + self.height_of(self.root) - self.shape@.heights[node as int]
            },
            OutlineLine::Unused { depth, count } => {
                &&& 1 <= count < NODE_CHILDREN
                &&& top < depth <= top + self.height_of(self.root)
            },
            OutlineLine::Leaf { depth, leaf, parent, filled } => {
                &&& leaf.0 < self.leaves@.len()
                &&& parent == self.leaves@[leaf.0 as int].parent
                &&& filled == self.leaves@[leaf.0 as int].num_entries
                &&& depth == top + self.height_of(self.root)
            },
        }
    }

    proof fn lemma_outline(&self, p: NodePtr, depth: int, top: int)
        requires
            self.wf(),
            self.ptr_ok(p),
            0 <= top,
            depth == top + self.height_of(self.root) - self.height_of(p),
            self.height_of(p) <= self.height_of(self.root),
            top + self.height_of(self.root) < usize::MAX,
        ensures
            ({
                let lines = self.outline_of(p, depth);
                &&& leaves_listed(lines) == self.shape@.order.subrange(
                    self.span_of(p).0,
                    self.span_of(p).1,
                )
                &&& NODE_CHILDREN * inner_listed(lines) == room_listed(lines) + inner_listed(lines)
                    + leaves_listed(lines).len() - 1
                &&& forall|j: int|
                    0 <= j < lines.len() ==> self.line_is_right(#[trigger] lines[j], top)
            }),
        decreases self.height_of(p), self.steps_below(p),
    {
        let lines = self.outline_of(p, depth);
        match p {
            NodePtr::Leaf(leaf) => {
                lemma_listed_one(lines[0]);
                assert(lines =~= seq![lines[0]]);
                let r = self.shape@.rank[leaf.0 as int];
                assert(self.shape@.order[r] == leaf.0);
                assert(self.shape@.order.subrange(r, r + 1) =~= seq![leaf.0 as int]);
            },
            NodePtr::Internal(n) => {
                assert(self.node_ok(n as int));
                let k = self.num_children(n as int);
                let line = OutlineLine::Internal {
                    depth: depth as usize,
                    node: n,
                    parent: self.nodes@[n as int].parent,
                };
                let below = self.outline_of_children(n as int, k, depth + 1);
                let rest = if k < NODE_CHILDREN {
                    seq![
                        OutlineLine::Unused {
                            depth: (depth + 1) as usize,
                            count: (NODE_CHILDREN - k) as usize,
                        },
                    ]
                } else {
                    Seq::empty()
                };
                assert(lines == seq![line] + below + rest);
                self.lemma_outline_children(n as int, k, depth + 1, top);
                lemma_listed_one(line);
                lemma_listed_add(seq![line], below);
                lemma_listed_add(seq![line] + below, rest);
                if k < NODE_CHILDREN {
                    lemma_listed_one(rest[0]);
                }
                assert(leaves_listed(lines) =~= leaves_listed(below));
                assert forall|j: int| 0 <= j < lines.len() implies self.line_is_right(
                    #[trigger] lines[j],
                    top,
                ) by {
                    if j == 0 {
                        assert(lines[j] == line);
                    } else if j < 1 + below.len() {
                        assert(lines[j] == below[j - 1]);
                    } else {
                        assert(lines[j] == rest[j - 1 - below.len()]);
                    }
                }
            },
        }
    }

    proof fn lemma_outline_children(&self, n: int, k: int, depth: int, top: int)
        requires
            self.wf(),
            0 <= n < self.nodes@.len(),
            0 <= k <= self.num_children(n),
            0 <= top,
            depth == top + self.height_of(self.root) - self.shape@.heights[n] + 1,
            top + self.height_of(self.root) < usize::MAX,
        ensures
            ({
                let lines = self.outline_of_children(n, k, depth);
                &&& leaves_listed(lines) == self.shape@.order.subrange(
                    self.shape@.spans[n].0,
                    if k == 0 {
                        self.shape@.spans[n].0
                    } else {
                        self.span_of(self.child(n, k - 1)).1
                    },
                )
                &&& NODE_CHILDREN * inner_listed(lines) == room_listed(lines) + inner_listed(lines)
                    + leaves_listed(lines).len() - k
                &&& forall|j: int|
                    0 <= j < lines.len() ==> self.line_is_right(#[trigger] lines[j], top)
            }),
        decreases self.shape@.heights[n], k,
    {
        let lines = self.outline_of_children(n, k, depth);
        let order = self.shape@.order;
        assert(self.node_ok(n));
        let lo = self.shape@.spans[n].0;
        if k == 0 {
            assert(order.subrange(lo, lo) =~= Seq::empty());
        } else {
            let c = self.child(n, k - 1);
            assert(self.child_ok(n, k - 1));
            match c {
                NodePtr::Internal(m) => {
                    assert(self.node_ok(m as int));
                },
                NodePtr::Leaf(_) => {},
            }
            self.lemma_outline_children(n, k - 1, depth, top);
            self.lemma_outline(c, depth, top);
            let head = self.outline_of_children(n, k - 1, depth);
            let below = self.outline_of(c, depth);
            lemma_listed_add(head, below);
            if k > 1 {
                assert(self.child_ok(n, k - 2));
                assert(self.span_of(self.child(n, k - 2)).1 == self.span_of(
                    self.child(n, k - 1),
                ).0);
            }
            assert(leaves_listed(lines) =~= order.subrange(lo, self.span_of(c).1));
            assert forall|j: int| 0 <= j < lines.len() implies self.line_is_right(
                #[trigger] lines[j],
                top,
            ) by {
                if j < head.len() {
                    assert(lines[j] == head[j]);
                } else {
                    assert(lines[j] == below[j - head.len()]);
                }
            }
        }
    }

    /// The list of all nodes names every leaf once, in the order of their entries, and says of
    /// every node what it hangs from and how deep it is; it accounts for the room of all inner
    /// nodes: each node but the root takes up room for a child, and the rest is listed.
    pub proof fn law_outline(&self, top: int)
        requires
            self.wf(),
            0 <= top,
            top + self.height_of(self.root) < usize::MAX,
        ensures
            ({
                let lines = self.outline_of(self.root, top);
                &&& leaves_listed(lines) == self.shape@.order
                &&& NODE_CHILDREN * inner_listed(lines) == room_listed(lines) + inner_listed(lines)
                    + leaves_listed(lines).len() - 1
                &&& forall|j: int|
                    0 <= j < lines.len() ==> self.line_is_right(#[trigger] lines[j], top)
            }),
    {
        self.lemma_outline(self.root, top, top);
        assert(self.shape@.order.subrange(0, self.shape@.order.len() as int)
            =~= self.shape@.order);
    }
}

} // verus!
