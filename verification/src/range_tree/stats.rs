//! What a tree is made of, and how much memory it takes.

use crate::range_tree::entry::EntryTraits;
use crate::range_tree::index::TreeIndex;
use crate::range_tree::node::{NodeInternal, NodeLeaf, NodePtr, LEAF_ENTRIES, NODE_CHILDREN};
use crate::range_tree::runs::{entries_ok, entry_ok};
use crate::range_tree::tree::RangeTree;
use crate::splitable_span::MergableSpan;
use humansize::{file_size_opts, FileSize};
use vstd::layout::{align_of, size_of};
use vstd::prelude::*;
use vstd::set_lib::{
    lemma_int_range, lemma_len_subset, lemma_set_disjoint_lens, lemma_set_subset_finite,
    set_int_range,
};

verus! {

/// What a tree is made of.
pub struct TreeStats {
    /// How many entries have each length.
    pub size_counts: Vec<usize>,
    pub num_entries: usize,
    pub num_internal_nodes: usize,
    pub internal_nodes_size: String,
    pub depth: usize,
    pub total_memory: String,
    /// What the entries alone would take.
    pub efficient_size: String,
    pub internal_node_size: usize,
    pub node_entry_size: usize,
    pub node_entry_align: usize,
    pub leaf_size: usize,
}

/// A number of bytes as a person writes it, as `FileSize::file_size` gives it with the
/// options `CONVENTIONAL`.
pub uninterp spec fn human_size(bytes: usize) -> Seq<char>;

/// `FileSize::file_size` with the options `CONVENTIONAL`: text that depends on the number
/// alone. For a number without sign there always is such a text.
#[verifier::external_body]
fn file_size(bytes: usize) -> (text: Result<String, String>)
    ensures
        text is Ok,
        text->Ok_0@ == human_size(bytes),
{
    bytes.file_size(file_size_opts::CONVENTIONAL)
}

/// How many entries have a length.
pub open spec fn count_of_len<E: MergableSpan>(entries: Seq<E>, len: int) -> nat
    decreases entries.len(),
{
    if entries.len() == 0 {
        0
    } else {
        count_of_len(entries.drop_last(), len) + if entries.last().span_len() == len {
            1nat
        } else {
            0
        }
    }
}

/// The length of the longest entry.
pub open spec fn longest<E: MergableSpan>(entries: Seq<E>) -> int
    decreases entries.len(),
{
    if entries.len() == 0 {
        -1
    } else if entries.last().span_len() > longest(entries.drop_last()) {
        entries.last().span_len() as int
    } else {
        longest(entries.drop_last())
    }
}

proof fn lemma_count_of_len<E: MergableSpan>(entries: Seq<E>, len: int)
    ensures
        count_of_len(entries, len) <= entries.len(),
        len > longest(entries) ==> count_of_len(entries, len) == 0,
    decreases entries.len(),
{
    if entries.len() > 0 {
        lemma_count_of_len(entries.drop_last(), len);
    }
}

/// As many entries are counted for a length as there are entries of that length.
pub proof fn law_lengths_are_counted<E: MergableSpan>(entries: Seq<E>, len: int)
    ensures
        ({
            let those = Set::new(
                |i: int| 0 <= i < entries.len() && entries[i].span_len() == len,
            );
            those.finite() && count_of_len(entries, len) == those.len()
        }),
    decreases entries.len(),
{
    let those = Set::new(|i: int| 0 <= i < entries.len() && entries[i].span_len() == len);
    if entries.len() == 0 {
        assert(those =~= Set::empty());
    } else {
        let head = entries.drop_last();
        let n = entries.len() - 1;
        let before = Set::new(|i: int| 0 <= i < head.len() && head[i].span_len() == len);
        law_lengths_are_counted(head, len);
        if entries[n].span_len() == len {
            assert(those =~= before.insert(n));
        } else {
            assert(those =~= before);
        }
    }
}

/// The longest entry is one of the entries, and none is longer.
pub proof fn law_longest_entry<E: MergableSpan>(entries: Seq<E>)
    ensures
        forall|i: int|
            0 <= i < entries.len() ==> (#[trigger] entries[i]).span_len() <= longest(entries),
        entries.len() > 0 ==> exists|i: int|
            0 <= i < entries.len() && (#[trigger] entries[i]).span_len() == longest(entries),
        entries.len() == 0 ==> longest(entries) == -1,
    decreases entries.len(),
{
    if entries.len() > 0 {
        let head = entries.drop_last();
        let n = entries.len() - 1;
        law_longest_entry(head);
        assert forall|i: int| 0 <= i < entries.len() implies (#[trigger] entries[i]).span_len()
            <= longest(entries) by {
            if i < n {
                assert(head[i] == entries[i]);
            }
        }
        if entries[n].span_len() > longest(head) {
            assert(entries[n].span_len() == longest(entries));
        } else {
            let i = choose|i: int|
                0 <= i < head.len() && (#[trigger] head[i]).span_len() == longest(head);
            assert(entries[i].span_len() == longest(entries));
        }
    }
}

impl<E: EntryTraits, I: TreeIndex<E>> RangeTree<E, I> {
    /// The inner nodes at and below a node.
    pub open spec fn nodes_below(&self, p: NodePtr) -> Set<int> {
        Set::new(
            |m: int|
                0 <= m < self.nodes@.len() && self.spans_rank(p, self.shape@.spans[m].0)
                    && self.shape@.heights[m] <= self.height_of(p),
        )
    }

    /// An inner node, with what is at and below its first `k` children.
    spec fn nodes_upto(&self, n: int, k: int) -> Set<int> {
        Set::new(
            |m: int|
                m == n || (0 <= m < self.nodes@.len() && self.shape@.heights[m]
                    < self.shape@.heights[n] && exists|i: int|
                    0 <= i < k && self.spans_rank(
                        #[trigger] self.child(n, i),
                        self.shape@.spans[m].0,
                    )),
        )
    }

    proof fn lemma_nodes_finite(&self, s: Set<int>)
        requires
            forall|m: int| #[trigger] s.contains(m) ==> 0 <= m < self.nodes@.len(),
        ensures
            s.finite(),
            s.len() <= self.nodes@.len(),
    {
        let all = set_int_range(0, self.nodes@.len() as int);
        lemma_int_range(0, self.nodes@.len() as int);
        assert(s.subset_of(all));
        lemma_set_subset_finite(all, s);
        lemma_len_subset(s, all);
    }

    /// Leaves have no inner nodes below them.
    proof fn lemma_nodes_below_leaf(&self, p: NodePtr)
        requires
            self.shape_ok(),
            p is Leaf,
        ensures
            self.nodes_below(p) =~= Set::empty(),
    {
        assert forall|m: int| !self.nodes_below(p).contains(m) by {
            if 0 <= m < self.nodes@.len() {
                assert(self.node_ok(m));
            }
        }
    }

    /// The next child brings what is at and below it.
    proof fn lemma_nodes_next(&self, n: int, k: int)
        requires
            self.shape_ok(),
            0 <= n < self.nodes@.len(),
            0 <= k < self.num_children(n),
        ensures
            self.nodes_upto(n, k + 1).len() == self.nodes_upto(n, k).len() + self.nodes_below(
                self.child(n, k),
            ).len(),
            self.nodes_upto(n, k + 1).len() <= self.nodes@.len(),
    {
        let a = self.nodes_upto(n, k);
        let b = self.nodes_below(self.child(n, k));
        let c = self.nodes_upto(n, k + 1);
        assert(self.node_ok(n));
        assert(self.child_ok(n, k));
        self.lemma_nodes_finite(a);
        self.lemma_nodes_finite(b);
        self.lemma_nodes_finite(c);
        assert forall|m: int| c.contains(m) == (a.contains(m) || b.contains(m)) by {
            if b.contains(m) {
                assert(self.spans_rank(self.child(n, k), self.shape@.spans[m].0));
            }
        }
        assert(c =~= a.union(b));
        assert forall|m: int| !(a.contains(m) && b.contains(m)) by {
            if a.contains(m) && b.contains(m) {
                if m != n {
                    let i = choose|i: int|
                        0 <= i < k && self.spans_rank(
                            #[trigger] self.child(n, i),
                            self.shape@.spans[m].0,
                        );
                    assert(self.span_of(self.child(n, i)).1 <= self.span_of(self.child(n, k)).0);
                }
            }
        }
        assert(a.disjoint(b));
        lemma_set_disjoint_lens(a, b);
    }

    /// An inner node and what is at and below its children is all that is at and below it.
    proof fn lemma_nodes_all(&self, n: int)
        requires
            self.shape_ok(),
            0 <= n < self.nodes@.len(),
        ensures
            self.nodes_upto(n, self.num_children(n)) == self.nodes_below(
                NodePtr::Internal(n as usize),
            ),
            self.nodes_upto(n, 0).len() == 1,
    {
        let p = NodePtr::Internal(n as usize);
        let k = self.num_children(n);
        assert(self.node_ok(n));
        assert(self.nodes_upto(n, 0) =~= Set::empty().insert(n));
        assert forall|m: int| self.nodes_upto(n, k).contains(m) == self.nodes_below(p).contains(
            m,
        ) by {
            if self.nodes_upto(n, k).contains(m) && m != n {
                let i = choose|i: int|
                    0 <= i < k && self.spans_rank(
                        #[trigger] self.child(n, i),
                        self.shape@.spans[m].0,
                    );
                assert(self.child_ok(n, i));
            }
            if self.nodes_below(p).contains(m) && m != n {
                let r = self.shape@.spans[m].0;
                assert(self.node_ok(m));
                if self.shape@.heights[m] == self.shape@.heights[n] {
                    assert(self.ptr_ok(NodePtr::Internal(m as usize)));
                    assert(self.ptr_ok(p));
                    self.lemma_level_unique(NodePtr::Internal(m as usize), p, r);
                }
                let i = self.lemma_child_spans(n, r, k);
                assert(self.spans_rank(self.child(n, i), r));
            }
        }
        assert(self.nodes_upto(n, k) =~= self.nodes_below(p));
    }

    /// The child that spans a rank.
    proof fn lemma_child_spans(&self, n: int, r: int, k: int) -> (i: int)
        requires
            self.shape_ok(),
            0 <= n < self.nodes@.len(),
            0 < k <= self.num_children(n),
            self.shape@.spans[n].0 <= r < self.span_of(self.child(n, k - 1)).1,
        ensures
            0 <= i < k,
            self.spans_rank(self.child(n, i), r),
        decreases k,
    {
        assert(self.node_ok(n));
        if self.span_of(self.child(n, k - 1)).0 <= r {
            k - 1
        } else {
            assert(k > 1);
            assert(self.span_of(self.child(n, k - 2)).1 == self.span_of(self.child(n, k - 1)).0);
            self.lemma_child_spans(n, r, k - 1)
        }
    }

    /// All inner nodes are below the root.
    proof fn lemma_nodes_root(&self)
        requires
            self.shape_ok(),
        ensures
            self.nodes_below(self.root).len() == self.nodes@.len(),
    {
        let all = set_int_range(0, self.nodes@.len() as int);
        lemma_int_range(0, self.nodes@.len() as int);
        assert forall|m: int| self.nodes_below(self.root).contains(m) == all.contains(m) by {
            if 0 <= m < self.nodes@.len() {
                assert(self.node_ok(m));
            }
        }
        assert(self.nodes_below(self.root) =~= all);
    }

    /// There are at least as many inner nodes at and below a node as levels of them.
    proof fn lemma_height_bound(&self, p: NodePtr)
        requires
            self.shape_ok(),
            self.ptr_ok(p),
        ensures
            self.height_of(p) <= self.nodes_below(p).len(),
        decreases self.height_of(p),
    {
        match p {
            NodePtr::Leaf(_) => {},
            NodePtr::Internal(n) => {
                assert(self.node_ok(n as int));
                assert(self.child_ok(n as int, 0));
                match self.child(n as int, 0) {
                    NodePtr::Internal(m) => {
                        assert(self.node_ok(m as int));
                    },
                    NodePtr::Leaf(_) => {},
                }
                self.lemma_height_bound(self.child(n as int, 0));
                self.lemma_nodes_all(n as int);
                self.lemma_nodes_next(n as int, 0);
                self.lemma_nodes_upto_mono(n as int, 1, self.num_children(n as int));
            },
        }
    }

    /// How many levels of inner nodes the tree has.
    pub(crate) fn get_depth(&self) -> (depth: usize)
        requires
            self.wf(),
        ensures
            depth == self.height_of(self.root),
    {
        let mut depth: usize = 0;
        let mut node = self.root;
        proof {
            self.lemma_height_bound(self.root);
            self.lemma_nodes_root();
        }
        loop
            invariant
                self.wf(),
                self.height_of(self.root) <= usize::MAX,
                self.ptr_ok(node),
                depth + self.height_of(node) == self.height_of(self.root),
            decreases self.height_of(node),
        {
            match node {
                NodePtr::Internal(n) => {
                    proof {
                        assert(self.node_ok(n as int));
                        assert(self.child_ok(n as int, 0));
                        match self.child(n as int, 0) {
                            NodePtr::Internal(m) => {
                                assert(self.node_ok(m as int));
                            },
                            NodePtr::Leaf(_) => {},
                        }
                    }
                    depth = depth + 1;
                    node = self.nodes[n].data[0].1;
                },
                NodePtr::Leaf(_) => {
                    return depth;
                },
            }
        }
    }

    /// The number of entries.
    pub(crate) fn count_entries(&self) -> (num: usize)
        requires
            self.wf(),
            self@.len() <= usize::MAX,
        ensures
            num == self@.len(),
    {
        let mut cursor = self.iter();
        proof {
            self.lemma_place(cursor);
        }
        if self.leaves[cursor.node.0].num_entries == 0 {
            assert(self.leaves@[cursor.node.0 as int].sound());
            return 0;
        }
        assert(self.leaves@[cursor.node.0 as int].sound());
        let mut num: usize = 1;
        loop
            invariant
                self.wf(),
                self@.len() <= usize::MAX,
                self.cursor_ok(cursor),
                num == self.place(cursor).entry + 1,
                num <= self@.len(),
            decreases self@.len() - num,
        {
            if !cursor.next_entry(self) {
                return num;
            }
            num = num + 1;
        }
    }

    fn count_internal_nodes_internal(&self, node: NodePtr, num: &mut usize)
        requires
            self.wf(),
            self.ptr_ok(node),
            *old(num) + self.nodes_below(node).len() <= usize::MAX,
        ensures
            *final(num) == *old(num) + self.nodes_below(node).len(),
        decreases self.height_of(node),
    {
        match node {
            NodePtr::Leaf(_) => {
                proof {
                    self.lemma_nodes_below_leaf(node);
                }
            },
            NodePtr::Internal(n) => {
                let ghost before = *num as int;
                proof {
                    assert(self.node_ok(n as int));
                    self.lemma_nodes_all(n as int);
                }
                let mut i: usize = 0;
                let len = self.nodes[n].data.len();
                proof {
                    self.lemma_nodes_upto_mono(n as int, 0, len as int);
                }
                *num = *num + 1;
                while i < len
                    invariant
                        self.wf(),
                        n < self.nodes@.len(),
                        node == NodePtr::Internal(n),
                        self.node_ok(n as int),
                        len == self.num_children(n as int),
                        i <= len,
                        *num == before + self.nodes_upto(n as int, i as int).len(),
                        before + self.nodes_upto(n as int, len as int).len() <= usize::MAX,
                    decreases len - i,
                {
                    proof {
                        assert(self.child_ok(n as int, i as int));
                        match self.child(n as int, i as int) {
                            NodePtr::Internal(m) => {
                                assert(self.node_ok(m as int));
                            },
                            NodePtr::Leaf(_) => {},
                        }
                        self.lemma_nodes_next(n as int, i as int);
                        self.lemma_nodes_upto_mono(n as int, i + 1, len as int);
                    }
                    self.count_internal_nodes_internal(self.nodes[n].data[i].1, num);
                    i = i + 1;
                }
            },
        }
    }

    proof fn lemma_nodes_upto_mono(&self, n: int, k: int, all: int)
        requires
            self.shape_ok(),
            0 <= n < self.nodes@.len(),
            0 <= k <= all <= self.num_children(n),
        ensures
            self.nodes_upto(n, k).len() <= self.nodes_upto(n, all).len(),
    {
        let a = self.nodes_upto(n, k);
        let b = self.nodes_upto(n, all);
        self.lemma_nodes_finite(b);
        assert(a.subset_of(b));
        lemma_len_subset(a, b);
    }

    /// The number of inner nodes.
    pub(crate) fn count_internal_nodes(&self) -> (num: usize)
        requires
            self.wf(),
        ensures
            num == self.nodes@.len(),
    {
        let mut num: usize = 0;
        proof {
            self.lemma_nodes_root();
        }
        self.count_internal_nodes_internal(self.root, &mut num);
        num
    }

    /// What some inner nodes and leaves take.
    pub open spec fn memory_of(num_nodes: int, num_leaves: int) -> int {
        num_nodes * Self::node_size() + num_leaves * Self::leaf_size()
    }

    /// What an inner node takes, with room for all children that it can have.
    pub open spec fn node_size() -> int {
        size_of::<NodeInternal<E, I>>() + NODE_CHILDREN * size_of::<(I::IndexOffset, NodePtr)>()
    }

    /// What a leaf takes, with all its slots.
    pub open spec fn leaf_size() -> int {
        size_of::<NodeLeaf<E>>() + LEAF_ENTRIES * size_of::<E>()
    }

    fn size_of_node() -> (size: usize)
        requires
            Self::node_size() <= usize::MAX,
        ensures
            size == Self::node_size(),
    {
        core::mem::size_of::<NodeInternal<E, I>>() + NODE_CHILDREN * core::mem::size_of::<
            (I::IndexOffset, NodePtr),
        >()
    }

    fn size_of_leaf() -> (size: usize)
        requires
            Self::leaf_size() <= usize::MAX,
        ensures
            size == Self::leaf_size(),
    {
        core::mem::size_of::<NodeLeaf<E>>() + LEAF_ENTRIES * core::mem::size_of::<E>()
    }

    proof fn lemma_memory_step(nodes: int, leaves: int, more_nodes: int, more_leaves: int)
        requires
            nodes >= 0,
            leaves >= 0,
            more_nodes >= 0,
            more_leaves >= 0,
        ensures
            Self::memory_of(nodes + more_nodes, leaves + more_leaves) == Self::memory_of(
                nodes,
                leaves,
            ) + Self::memory_of(more_nodes, more_leaves),
            Self::memory_of(more_nodes, more_leaves) >= 0,
    {
        let a = Self::node_size();
        let b = Self::leaf_size();
        assert((nodes + more_nodes) * a == nodes * a + more_nodes * a) by (nonlinear_arith);
        assert((leaves + more_leaves) * b == leaves * b + more_leaves * b) by (nonlinear_arith);
        assert(more_nodes * a >= 0) by (nonlinear_arith)
            requires
                more_nodes >= 0,
                a >= 0,
        ;
        assert(more_leaves * b >= 0) by (nonlinear_arith)
            requires
                more_leaves >= 0,
                b >= 0,
        ;
    }

    fn count_memory_internal(&self, node: NodePtr, size: &mut usize)
        requires
            self.wf(),
            self.ptr_ok(node),
            *old(size) + Self::memory_of(
                self.nodes_below(node).len() as int,
                self.span_of(node).1 - self.span_of(node).0,
            ) <= usize::MAX,
        ensures
            *final(size) == *old(size) + Self::memory_of(
                self.nodes_below(node).len() as int,
                self.span_of(node).1 - self.span_of(node).0,
            ),
        decreases self.height_of(node),
    {
        match node {
            NodePtr::Leaf(_) => {
                proof {
                    self.lemma_nodes_below_leaf(node);
                    assert(self.nodes_below(node).len() == 0);
                    assert(self.span_of(node).1 - self.span_of(node).0 == 1);
                    let a = Self::node_size();
                    let b = Self::leaf_size();
                    assert(0 * a + 1 * b == b) by (nonlinear_arith);
                    assert(Self::memory_of(0, 1) == b);
                }
                *size = *size + Self::size_of_leaf();
            },
            NodePtr::Internal(n) => {
                let ghost before = *size as int;
                let ghost lo = self.shape@.spans[n as int].0;
                let ghost hi = self.shape@.spans[n as int].1;
                let mut i: usize = 0;
                let len = self.nodes[n].data.len();
                proof {
                    assert(self.node_ok(n as int));
                    self.lemma_nodes_all(n as int);
                    self.lemma_nodes_upto_mono(n as int, 0, len as int);
                    assert(Self::memory_of(1, 0) == Self::node_size()) by {
                        let a = Self::node_size();
                        let b = Self::leaf_size();
                        assert(1 * a + 0 * b == a) by (nonlinear_arith);
                    }
                    Self::lemma_memory_step(
                        1,
                        0,
                        self.nodes_upto(n as int, len as int).len() - 1,
                        hi - lo,
                    );
                }
                *size = *size + Self::size_of_node();
                let ghost mut at = lo;
                while i < len
                    invariant
                        self.wf(),
                        n < self.nodes@.len(),
                        node == NodePtr::Internal(n),
                        self.node_ok(n as int),
                        len == self.num_children(n as int),
                        i <= len,
                        lo == self.shape@.spans[n as int].0,
                        hi == self.shape@.spans[n as int].1,
                        i < len ==> at == self.span_of(self.child(n as int, i as int)).0,
                        i == len ==> at == hi,
                        lo <= at,
                        *size == before + Self::memory_of(
                            self.nodes_upto(n as int, i as int).len() as int,
                            at - lo,
                        ),
                        before + Self::memory_of(
                            self.nodes_upto(n as int, len as int).len() as int,
                            hi - lo,
                        ) <= usize::MAX,
                    decreases len - i,
                {
                    let ghost c = self.child(n as int, i as int);
                    let ghost next = self.span_of(c).1;
                    proof {
                        assert(self.child_ok(n as int, i as int));
                        match c {
                            NodePtr::Internal(m) => {
                                assert(self.node_ok(m as int));
                            },
                            NodePtr::Leaf(_) => {},
                        }
                        self.lemma_nodes_next(n as int, i as int);
                        self.lemma_nodes_upto_mono(n as int, i + 1, len as int);
                        Self::lemma_memory_step(
                            self.nodes_upto(n as int, i as int).len() as int,
                            at - lo,
                            self.nodes_below(c).len() as int,
                            next - at,
                        );
                        Self::lemma_memory_step(
                            self.nodes_upto(n as int, i + 1).len() as int,
                            next - lo,
                            self.nodes_upto(n as int, len as int).len() - self.nodes_upto(
                                n as int,
                                i + 1,
                            ).len(),
                            hi - next,
                        );
                        if i + 1 < len {
                            assert(self.span_of(self.child(n as int, i as int)).1 == self.span_of(
                                self.child(n as int, i + 1),
                            ).0);
                        }
                    }
                    self.count_memory_internal(self.nodes[n].data[i].1, size);
                    i = i + 1;
                    proof {
                        at = next;
                    }
                }
            },
        }
    }

    /// What the tree takes in memory: the tree itself, its inner nodes with room for all
    /// children that they can have, and its leaves with all their slots.
    pub(crate) fn count_total_memory(&self) -> (size: usize)
        requires
            self.wf(),
            size_of::<RangeTree<E, I>>() + Self::memory_of(
                self.nodes@.len() as int,
                self.leaves@.len() as int,
            ) <= usize::MAX,
        ensures
            size == size_of::<RangeTree<E, I>>() + Self::memory_of(
                self.nodes@.len() as int,
                self.leaves@.len() as int,
            ),
    {
        let mut size = core::mem::size_of::<RangeTree<E, I>>();
        proof {
            self.lemma_nodes_root();
        }
        self.count_memory_internal(self.root, &mut size);
        size
    }

    /// How many entries have each length, up to the longest one.
    fn count_sizes(&self) -> (size_counts: Vec<usize>)
        requires
            self.wf(),
            self@.len() <= usize::MAX,
        ensures
            size_counts@.len() == longest(self@) + 1,
            forall|b: int|
                0 <= b < size_counts@.len() ==> #[trigger] size_counts@[b] == count_of_len(
                    self@,
                    b,
                ),
    {
        let mut size_counts: Vec<usize> = Vec::new();
        let mut cursor = self.iter();
        proof {
            self.lemma_place(cursor);
            self.lemma_entries_ok();
        }
        if self.leaves[cursor.node.0].num_entries == 0 {
            assert(self.leaves@[cursor.node.0 as int].sound());
            return size_counts;
        }
        assert(self.leaves@[cursor.node.0 as int].sound());
        let mut more = true;
        let ghost mut done: int = 0;
        assert(self@.take(0) =~= Seq::empty());
        while more
            invariant
                self.wf(),
                self@.len() <= usize::MAX,
                entries_ok(self@),
                self.cursor_ok(cursor),
                0 <= done <= self@.len(),
                more ==> done == self.place(cursor).entry && done < self@.len(),
                !more ==> done == self@.len(),
                size_counts@.len() == longest(self@.take(done)) + 1,
                forall|b: int|
                    0 <= b < size_counts@.len() ==> #[trigger] size_counts@[b] == count_of_len(
                        self@.take(done),
                        b,
                    ),
            decreases
                self@.len() - done,
        {
            let ghost upto = self@.take(done + 1);
            proof {
                assert(upto.drop_last() =~= self@.take(done));
                assert(upto.last() == self@[done]);
                assert(entry_ok(self@[done]));
            }
            let bucket = cursor.get_entry(self).len();
            while size_counts.len() <= bucket
                invariant
                    0 <= done <= self@.len(),
                    longest(self@.take(done)) + 1 <= size_counts@.len(),
                    longest(self@.take(done)) < bucket ==> size_counts@.len() <= bucket + 1,
                    longest(self@.take(done)) >= bucket ==> size_counts@.len() == longest(
                        self@.take(done),
                    ) + 1,
                    forall|b: int|
                        0 <= b < size_counts@.len() ==> #[trigger] size_counts@[b]
                            == count_of_len(self@.take(done), b),
                decreases bucket + 1 - size_counts@.len(),
            {
                proof {
                    lemma_count_of_len(self@.take(done), size_counts@.len() as int);
                }
                size_counts.push(0);
            }
            proof {
                lemma_count_of_len(self@.take(done), bucket as int);
            }
            let n = size_counts[bucket];
            size_counts[bucket] = n + 1;
            more = cursor.next_entry(self);
            proof {
                done = done + 1;
            }
        }
        assert(self@.take(self@.len() as int) =~= self@);
        size_counts
    }

    /// The tree's entries, and the memory that it takes, can be counted by the machine.
    pub open spec fn countable(&self) -> bool {
        &&& self@.len() <= usize::MAX
        &&& Self::node_size() <= usize::MAX
        &&& Self::leaf_size() <= usize::MAX
        &&& self.nodes@.len() * Self::node_size() <= usize::MAX
        &&& self@.len() * size_of::<E>() <= usize::MAX
        &&& size_of::<RangeTree<E, I>>() + Self::memory_of(
            self.nodes@.len() as int,
            self.leaves@.len() as int,
        ) <= usize::MAX
    }

    /// The number of entries, if the machine can count them.
    fn count_entries_checked(&self) -> (num: Option<usize>)
        requires
            self.wf(),
        ensures
            match num {
                Some(num) => num == self@.len(),
                None => self@.len() > usize::MAX,
            },
    {
        let mut cursor = self.iter();
        proof {
            self.lemma_place(cursor);
            assert(self.leaves@[cursor.node.0 as int].sound());
        }
        if self.leaves[cursor.node.0].num_entries == 0 {
            return Some(0);
        }
        let mut num: usize = 1;
        loop
            invariant
                self.wf(),
                self.cursor_ok(cursor),
                num == self.place(cursor).entry + 1,
                num <= self@.len(),
            decreases self@.len() - num,
        {
            if !cursor.next_entry(self) {
                return Some(num);
            }
            if num == usize::MAX {
                return None;
            }
            num = num + 1;
        }
    }

    /// `size + held * held_size`, if the machine can count that far.
    fn size_with(size: usize, held: usize, held_size: usize) -> (total: Option<usize>)
        ensures
            match total {
                Some(total) => total == size + held * held_size,
                None => size + held * held_size > usize::MAX,
            },
    {
        match held.checked_mul(held_size) {
            Some(all) => size.checked_add(all),
            None => None,
        }
    }

    /// Whether the tree's entries, and the memory that it takes, can be counted.
    pub fn can_be_counted(&self) -> (can: bool)
        requires
            self.wf(),
        ensures
            can == self.countable(),
    {
        let entries = match self.count_entries_checked() {
            Some(entries) => entries,
            None => {
                return false;
            },
        };
        let node = match Self::size_with(
            core::mem::size_of::<NodeInternal<E, I>>(),
            NODE_CHILDREN,
            core::mem::size_of::<(I::IndexOffset, NodePtr)>(),
        ) {
            Some(node) => node,
            None => {
                return false;
            },
        };
        let leaf = match Self::size_with(
            core::mem::size_of::<NodeLeaf<E>>(),
            LEAF_ENTRIES,
            core::mem::size_of::<E>(),
        ) {
            Some(leaf) => leaf,
            None => {
                return false;
            },
        };
        let tree = core::mem::size_of::<RangeTree<E, I>>();
        let nodes = self.nodes.len();
        let leaves = self.leaves.len();
        proof {
            assert(nodes * node >= 0) by (nonlinear_arith);
            assert(leaves * leaf >= 0) by (nonlinear_arith);
        }
        if entries.checked_mul(core::mem::size_of::<E>()).is_none() || nodes.checked_mul(
            node,
        ).is_none() {
            return false;
        }
        match Self::size_with(tree, nodes, node) {
            Some(size) => Self::size_with(size, leaves, leaf).is_some(),
            None => false,
        }
    }

    /// What the tree is made of.
    pub fn stats(&self) -> (stats: TreeStats)
        requires
            self.wf(),
            self.countable(),
        ensures
            stats.size_counts@.len() == longest(self@) + 1,
            forall|b: int|
                0 <= b < stats.size_counts@.len() ==> #[trigger] stats.size_counts@[b]
                    == count_of_len(self@, b),
            stats.num_entries == self@.len(),
            stats.num_internal_nodes == self.nodes@.len(),
            stats.internal_nodes_size@ == human_size(
                (self.nodes@.len() * Self::node_size()) as usize,
            ),
            stats.depth == self.height_of(self.root),
            stats.total_memory@ == human_size(
                (size_of::<RangeTree<E, I>>() + Self::memory_of(
                    self.nodes@.len() as int,
                    self.leaves@.len() as int,
                )) as usize,
            ),
            stats.efficient_size@ == human_size((self@.len() * size_of::<E>()) as usize),
            stats.internal_node_size == Self::node_size(),
            stats.node_entry_size == size_of::<Option<NodePtr>>(),
            stats.node_entry_align == align_of::<Option<NodePtr>>(),
            stats.leaf_size == Self::leaf_size(),
    {
        let size_counts = self.count_sizes();
        let num_internal_nodes = self.count_internal_nodes();
        let num_entries = self.count_entries();
        let internal_node_size = Self::size_of_node();
        let entry_size = core::mem::size_of::<E>();
        TreeStats {
            size_counts,
            num_entries,
            num_internal_nodes,
            internal_nodes_size: file_size(num_internal_nodes * internal_node_size).unwrap(),
            depth: self.get_depth(),
            total_memory: file_size(self.count_total_memory()).unwrap(),
            efficient_size: file_size(num_entries * entry_size).unwrap(),
            internal_node_size,
            node_entry_size: core::mem::size_of::<Option<NodePtr>>(),
            node_entry_align: core::mem::align_of::<Option<NodePtr>>(),
            leaf_size: Self::size_of_leaf(),
        }
    }
}

} // verus!
