//! Finding the entry that a position falls into.

use crate::range_tree::cursor::{Cursor, Place};
use crate::range_tree::entry::{EntryTraits, EntryWithContent};
use crate::range_tree::index::{ContentIndex, FullIndex, FullOffset, RawPositionIndex, TreeIndex};
use crate::range_tree::node::{LeafPtr, NodePtr};
use crate::range_tree::runs::{
    chain, chain_start, content_num, entries_ok, entry_ok, falls_into, lemma_chain_add,
    lemma_chain_one, lemma_chain_start_mono, lemma_chain_start_next, lemma_measure_add,
    lemma_measure_one, len_num, measure, total,
};
use crate::range_tree::tree::RangeTree;
use vstd::prelude::*;

verus! {

/// A position that falls into some entry.
pub open spec fn within_row<E>(
    entries: Seq<E>,
    num: spec_fn(E) -> int,
    pos: int,
    stick_end: bool,
) -> bool {
    entries.len() > 0 && falls_into(entries, num, pos, stick_end, entries.len() - 1)
}

/// The place of a position: in the first entry that it falls into.
pub open spec fn is_place_of<E>(
    p: Place,
    entries: Seq<E>,
    num: spec_fn(E) -> int,
    pos: int,
    stick_end: bool,
) -> bool {
    &&& 0 <= p.entry < entries.len()
    &&& falls_into(entries, num, pos, stick_end, p.entry)
    &&& forall|h: int|
        0 <= h < p.entry ==> !#[trigger] falls_into(entries, num, pos, stick_end, h)
    &&& p.offset == pos - measure(entries.take(p.entry), num)
}

/// The position falls into none of the first `at` entries, and is `off` behind them.
spec fn passed<E>(
    entries: Seq<E>,
    num: spec_fn(E) -> int,
    pos: int,
    stick_end: bool,
    at: int,
    off: int,
) -> bool {
    &&& off == pos - measure(entries.take(at), num)
    &&& forall|h: int| 0 <= h < at ==> !#[trigger] falls_into(entries, num, pos, stick_end, h)
}

/// The numbers of more entries add up to more.
proof fn lemma_measure_mono<E: EntryTraits>(
    entries: Seq<E>,
    num: spec_fn(E) -> int,
    a: int,
    b: int,
)
    requires
        entries_ok(entries),
        forall|i: int| 0 <= i < entries.len() ==> 0 <= num(#[trigger] entries[i]),
        0 <= a <= b <= entries.len(),
    ensures
        measure(entries.take(a), num) <= measure(entries.take(b), num),
    decreases b - a,
{
    if a < b {
        lemma_measure_mono(entries, num, a, b - 1);
        assert(entries.take(b).drop_last() =~= entries.take(b - 1));
        assert(entry_ok(entries[b - 1]));
        assert(entries.take(b).last() == entries[b - 1]);
        assert(num(entries[b - 1]) >= 0);
    }
}

/// Passing the entries from `a` to `b`, which count for `n`.
proof fn lemma_pass<E: EntryTraits>(
    entries: Seq<E>,
    num: spec_fn(E) -> int,
    pos: int,
    stick_end: bool,
    a: int,
    b: int,
    off: int,
    n: int,
)
    requires
        entries_ok(entries),
        forall|i: int| 0 <= i < entries.len() ==> 0 <= num(#[trigger] entries[i]),
        passed(entries, num, pos, stick_end, a, off),
        0 <= a < b <= entries.len(),
        n == measure(entries.take(b), num) - measure(entries.take(a), num),
    ensures
        off < n || (stick_end && off == n) ==> falls_into(entries, num, pos, stick_end, b - 1),
        !(off < n || (stick_end && off == n)) ==> passed(
            entries,
            num,
            pos,
            stick_end,
            b,
            off - n,
        ),
{
    if !(off < n || (stick_end && off == n)) {
        assert forall|h: int| 0 <= h < b implies !#[trigger] falls_into(
            entries,
            num,
            pos,
            stick_end,
            h,
        ) by {
            if h >= a {
                lemma_measure_mono(entries, num, h + 1, b);
            }
        }
    }
}

impl<E: EntryTraits, I: TreeIndex<E>> RangeTree<E, I> {
    /// One function can be asked for every count in the tree, the other one for every
    /// entry.
    pub open spec fn can_count<F: Fn(I::IndexOffset) -> usize, G: Fn(E) -> usize>(
        &self,
        offset_to_num: F,
        entry_to_num: G,
    ) -> bool {
        &&& forall|n: int, i: int|
            0 <= n < self.nodes@.len() && 0 <= i < self.num_children(n)
                ==> offset_to_num.requires(((#[trigger] self.nodes@[n].data@[i]).0,))
        &&& forall|g: int| 0 <= g < self@.len() ==> entry_to_num.requires((#[trigger] self@[g],))
    }

    /// The two functions count the entries of the tree by `num`: one tells the number of
    /// an entry, the other reads the sum of the numbers below a child from its count.
    pub open spec fn counts_by<F: Fn(I::IndexOffset) -> usize, G: Fn(E) -> usize>(
        &self,
        offset_to_num: F,
        entry_to_num: G,
        num: spec_fn(E) -> int,
    ) -> bool {
        &&& forall|g: int|
            0 <= g < self@.len() ==> 0 <= num(#[trigger] self@[g])
        &&& forall|g: int, r: usize|
            0 <= g < self@.len() && #[trigger] entry_to_num.ensures((self@[g],), r) ==> r == num(
                self@[g],
            )
        &&& forall|n: int, i: int, r: usize|
            0 <= n < self.nodes@.len() && 0 <= i < self.num_children(n)
                && #[trigger] offset_to_num.ensures((self.nodes@[n].data@[i].0,), r) ==> r
                == measure(self.entries_below(self.child(n, i)), num)
    }

    /// The entries below a node.
    pub open spec fn entries_below(&self, p: NodePtr) -> Seq<E> {
        chain(self.parts().subrange(self.span_of(p).0, self.span_of(p).1))
    }

    /// What the leaves of some ranks count for, by their entries' numbers.
    proof fn lemma_rank_measure(&self, num: spec_fn(E) -> int, lo: int, hi: int)
        requires
            0 <= lo <= hi <= self.parts().len(),
        ensures
            measure(chain(self.parts().subrange(lo, hi)), num) == measure(
                self@.take(chain_start(self.parts(), hi)),
                num,
            ) - measure(self@.take(chain_start(self.parts(), lo)), num),
            chain_start(self.parts(), lo) <= chain_start(self.parts(), hi) <= self@.len(),
    {
        let parts = self.parts();
        let a = parts.take(lo);
        let b = parts.subrange(lo, hi);
        let c = parts.skip(hi);
        assert(parts =~= parts.take(hi) + c);
        assert(parts.take(hi) =~= a + b);
        lemma_chain_add(parts.take(hi), c);
        lemma_chain_add(a, b);
        lemma_measure_add(chain(a), chain(b), num);
        assert(self@.take(chain_start(parts, hi)) =~= chain(parts.take(hi)));
        assert(self@.take(chain_start(parts, lo)) =~= chain(a));
    }

    /// Inner nodes span leaves with entries only.
    proof fn lemma_span_filled(&self, p: NodePtr)
        requires
            self.wf(),
            self@.len() > 0,
            self.ptr_ok(p),
        ensures
            0 <= self.span_of(p).0 < self.span_of(p).1 <= self.parts().len(),
            chain_start(self.parts(), self.span_of(p).0) < chain_start(
                self.parts(),
                self.span_of(p).1,
            ),
    {
        let lo = self.span_of(p).0;
        let hi = self.span_of(p).1;
        match p {
            NodePtr::Internal(n) => {
                assert(self.node_ok(n as int));
            },
            NodePtr::Leaf(_) => {},
        }
        let l = self.shape@.order[lo];
        assert(self.leaves@[l].sound());
        if self.leaves@[l].num_entries == 0 {
            assert(self.root == NodePtr::Leaf(LeafPtr(l as usize)));
            assert(self.span_of(self.root) == (lo, lo + 1));
            assert(self.parts() =~= seq![self.leaves@[l].entries()]);
            lemma_chain_one(self.leaves@[l].entries());
        }
        assert(self.parts()[lo].len() > 0);
        lemma_chain_start_mono(self.parts(), lo, hi);
    }

    /// The place that the search has come to: the position is `off` behind the entries
    /// left of the node, and falls into one of the entries below it.
    spec fn narrowed<F: Fn(I::IndexOffset) -> usize, G: Fn(E) -> usize>(
        &self,
        offset_to_num: F,
        entry_to_num: G,
        pos: int,
        stick_end: bool,
        from: int,
        to: int,
        off: int,
    ) -> bool {
        forall|num: spec_fn(E) -> int| #[trigger]
            self.counts_by(offset_to_num, entry_to_num, num) && within_row(
                self@,
                num,
                pos,
                stick_end,
            ) ==> passed(self@, num, pos, stick_end, from, off) && falls_into(
                self@,
                num,
                pos,
                stick_end,
                to - 1,
            )
    }

    /// A cursor at the first entry that the position falls into, where both functions
    /// count entries in the same way. Its offset is counted in that way, too; where the
    /// entry counts for no more than its items, the cursor is at a place of the tree. A position at the end of an entry falls into that
    /// entry if `stick_end` is set, and into a later one otherwise.
    pub fn cursor_at_query<F, G>(
        &self,
        raw_pos: usize,
        stick_end: bool,
        offset_to_num: F,
        entry_to_num: G,
    ) -> (cursor: Cursor) where F: Fn(I::IndexOffset) -> usize, G: Fn(E) -> usize
        requires
            self.wf(),
            self.can_count(offset_to_num, entry_to_num),
            exists|num: spec_fn(E) -> int| #[trigger]
                self.counts_by(offset_to_num, entry_to_num, num) && within_row(
                    self@,
                    num,
                    raw_pos as int,
                    stick_end,
                ),
        ensures
            cursor.node.0 < self.leaves@.len(),
            cursor.idx < self.entries_at(cursor).len(),
            forall|num: spec_fn(E) -> int| #[trigger]
                self.counts_by(offset_to_num, entry_to_num, num) && within_row(
                    self@,
                    num,
                    raw_pos as int,
                    stick_end,
                ) ==> is_place_of(self.place(cursor), self@, num, raw_pos as int, stick_end) && (
                num(self@[self.place(cursor).entry])
                    <= self@[self.place(cursor).entry].span_len() ==> self.cursor_ok(cursor)),
    {
        let ghost pos = raw_pos as int;
        let ghost parts = self.parts();
        let ghost num = choose|num: spec_fn(E) -> int| #[trigger]
            self.counts_by(offset_to_num, entry_to_num, num) && within_row(
                self@,
                num,
                raw_pos as int,
                stick_end,
            );
        let mut node = self.root;
        let mut off = raw_pos;
        proof {
            self.lemma_entries_ok();
            lemma_chain_start_next(parts, 0);
            lemma_chain_start_next(parts, parts.len() - 1);
            assert(self@.take(0) =~= Seq::empty());
        }
        loop
            invariant
                self.wf(),
                self@.len() > 0,
                entries_ok(self@),
                self.ptr_ok(node),
                self.can_count(offset_to_num, entry_to_num),
                self.counts_by(offset_to_num, entry_to_num, num),
                within_row(self@, num, pos, stick_end),
                pos == raw_pos,
                parts == self.parts(),
                self.narrowed(
                    offset_to_num,
                    entry_to_num,
                    pos,
                    stick_end,
                    chain_start(parts, self.span_of(node).0),
                    chain_start(parts, self.span_of(node).1),
                    off as int,
                ),
            decreases self.height_of(node),
        {
            proof {
                self.lemma_span_filled(node);
            }
            match node {
                NodePtr::Internal(n) => {
                    let ghost to = chain_start(parts, self.span_of(node).1);
                    assert(self.node_ok(n as int));
                    let len = self.nodes[n].data.len();
                    let mut i: usize = 0;
                    let mut next = self.nodes[n].data[0].1;
                    let mut found = false;
                    while !found
                        invariant
                            self.wf(),
                            self@.len() > 0,
                            entries_ok(self@),
                            n < self.nodes@.len(),
                            self.node_ok(n as int),
                            len == self.num_children(n as int),
                            self.can_count(offset_to_num, entry_to_num),
                            self.counts_by(offset_to_num, entry_to_num, num),
                            within_row(self@, num, pos, stick_end),
                            parts == self.parts(),
                            to == chain_start(parts, self.shape@.spans[n as int].1),
                            i < len,
                            next == self.child(n as int, i as int),
                            self.narrowed(
                                offset_to_num,
                                entry_to_num,
                                pos,
                                stick_end,
                                chain_start(parts, self.span_of(next).0),
                                if found {
                                    chain_start(parts, self.span_of(next).1)
                                } else {
                                    to
                                },
                                off as int,
                            ),
                        decreases
                            len - i,
                            if found {
                                0int
                            } else {
                                1
                            },
                    {
                        let ghost lo = self.span_of(next).0;
                        let ghost hi = self.span_of(next).1;
                        let ghost a = chain_start(parts, lo);
                        let ghost b = chain_start(parts, hi);
                        let ghost was = off as int;
                        let count = self.nodes[n].data[i].0;
                        proof {
                            assert(self.child_ok(n as int, i as int));
                            assert(I::offset_extent(count) == self.child_count(n as int, i as int));
                            self.lemma_span_filled(next);
                            self.lemma_entries_ok();
                            assert(count == self.nodes@[n as int].data@[i as int].0);
                            assert(self.entries_below(next) == chain(parts.subrange(lo, hi)));
                        }
                        let held = offset_to_num(count);
                        proof {
                            assert forall|num: spec_fn(E) -> int| #[trigger]
                                self.counts_by(offset_to_num, entry_to_num, num)
                                    && within_row(self@, num, pos, stick_end) implies {
                                &&& passed(self@, num, pos, stick_end, a, was)
                                &&& (was < held || (stick_end && was == held) ==> falls_into(
                                    self@,
                                    num,
                                    pos,
                                    stick_end,
                                    b - 1,
                                ))
                                &&& (!(was < held || (stick_end && was == held)) ==> passed(
                                    self@,
                                    num,
                                    pos,
                                    stick_end,
                                    b,
                                    was - held,
                                ))
                            } by {
                                self.lemma_rank_measure(num, lo, hi);
                                lemma_pass(self@, num, pos, stick_end, a, b, was, held as int);
                            }
                        }
                        if off < held || (stick_end && off == held) {
                            found = true;
                        } else {
                            off = off - held;
                            proof {
                                if i + 1 == len {
                                    assert(b == to);
                                    assert(passed(self@, num, pos, stick_end, b, was - held));
                                    assert(falls_into(self@, num, pos, stick_end, b - 1));
                                    assert(false);
                                }
                                assert(self.span_of(self.child(n as int, i as int)).1
                                    == self.span_of(self.child(n as int, i + 1)).0);
                            }
                            i = i + 1;
                            next = self.nodes[n].data[i].1;
                        }
                    }
                    proof {
                        assert(self.child_ok(n as int, i as int));
                        match next {
                            NodePtr::Internal(k) => {
                                assert(self.node_ok(k as int));
                            },
                            NodePtr::Leaf(_) => {},
                        }
                    }
                    node = next;
                },
                NodePtr::Leaf(leaf) => {
                    let ghost r = self.shape@.rank[leaf.0 as int];
                    let ghost start = chain_start(parts, r);
                    let ghost to = chain_start(parts, r + 1);
                    let mut idx: usize = 0;
                    proof {
                        assert(self.shape@.order[r] == leaf.0);
                        assert(self.leaves@[leaf.0 as int].sound());
                        lemma_chain_start_next(parts, r);
                    }
                    loop
                        invariant
                            self.wf(),
                            self@.len() > 0,
                            entries_ok(self@),
                            leaf.0 < self.leaves@.len(),
                            self.leaves@[leaf.0 as int].sound(),
                            r == self.shape@.rank[leaf.0 as int],
                            self.shape@.order[r] == leaf.0,
                            0 <= r < parts.len(),
                            self.can_count(offset_to_num, entry_to_num),
                            self.counts_by(offset_to_num, entry_to_num, num),
                            within_row(self@, num, pos, stick_end),
                            pos == raw_pos,
                            parts == self.parts(),
                            start == chain_start(parts, r),
                            to == start + self.leaves@[leaf.0 as int].num_entries,
                            to <= self@.len(),
                            idx < self.leaves@[leaf.0 as int].num_entries,
                            self.narrowed(
                                offset_to_num,
                                entry_to_num,
                                pos,
                                stick_end,
                                start + idx,
                                to,
                                off as int,
                            ),
                        decreases self.leaves@[leaf.0 as int].num_entries - idx,
                    {
                        let ghost a = start + idx;
                        let ghost was = off as int;
                        let cursor = Cursor { node: leaf, idx, offset: 0 };
                        let entry = self.leaves[leaf.0].data[idx];
                        proof {
                            self.lemma_place(cursor);
                            assert(entry == self@[a]);
                            assert(entry_ok(self@[a]));
                        }
                        let held = entry_to_num(entry);
                        proof {
                            assert forall|num: spec_fn(E) -> int| #[trigger]
                                self.counts_by(offset_to_num, entry_to_num, num)
                                    && within_row(self@, num, pos, stick_end) implies {
                                &&& passed(self@, num, pos, stick_end, a, was)
                                &&& held == num(entry)
                                &&& (was < held || (stick_end && was == held) ==> falls_into(
                                    self@,
                                    num,
                                    pos,
                                    stick_end,
                                    a,
                                ))
                                &&& (!(was < held || (stick_end && was == held)) ==> passed(
                                    self@,
                                    num,
                                    pos,
                                    stick_end,
                                    a + 1,
                                    was - held,
                                ))
                            } by {
                                assert(self@.take(a + 1).drop_last() =~= self@.take(a));
                                assert(self@.take(a + 1).last() == entry);
                                lemma_pass(self@, num, pos, stick_end, a, a + 1, was, held as int);
                            }
                        }
                        if off < held || (stick_end && off == held) {
                            return Cursor { node: leaf, idx, offset: off };
                        }
                        off = off - held;
                        proof {
                            if a + 1 == to {
                                assert(passed(self@, num, pos, stick_end, to, was - held));
                                assert(falls_into(self@, num, pos, stick_end, to - 1));
                                assert(false);
                            }
                        }
                        idx = idx + 1;
                    }
                },
            }
        }
    }
}

/// What an index counts in items is the number of items.
proof fn lemma_total_raw<E: EntryTraits>(entries: Seq<E>)
    ensures
        total::<E, RawPositionIndex>(entries).len == measure(entries, len_num()),
    decreases entries.len(),
{
    if entries.len() > 0 {
        lemma_total_raw(entries.drop_last());
    }
}

/// What an index counts in visible items is their number.
pub proof fn lemma_total_content<E: EntryWithContent>(entries: Seq<E>)
    ensures
        total::<E, ContentIndex>(entries).content == measure(entries, content_num()),
    decreases entries.len(),
{
    if entries.len() > 0 {
        lemma_total_content(entries.drop_last());
    }
}

/// An index of both numbers counts both.
proof fn lemma_total_full<E: EntryWithContent>(entries: Seq<E>)
    ensures
        total::<E, FullIndex>(entries).len == measure(entries, len_num()),
        total::<E, FullIndex>(entries).content == measure(entries, content_num()),
    decreases entries.len(),
{
    if entries.len() > 0 {
        lemma_total_full(entries.drop_last());
    }
}

/// The item that has `pos` items before it.
pub open spec fn nth_item<E: EntryTraits>(entries: Seq<E>, pos: int) -> Option<E::Item>
    decreases entries.len(),
{
    if entries.len() == 0 {
        None
    } else if pos < entries[0].span_len() {
        Some(entries[0].item_at(pos))
    } else {
        nth_item(entries.skip(1), pos - entries[0].span_len())
    }
}

/// Where a position falls into an entry, the item there is in that entry.
proof fn lemma_nth_item<E: EntryTraits>(entries: Seq<E>, g: int, pos: int)
    requires
        0 <= g < entries.len(),
        measure(entries.take(g), len_num()) <= pos < measure(entries.take(g + 1), len_num()),
    ensures
        nth_item(entries, pos) == Some(
            entries[g].item_at(pos - measure(entries.take(g), len_num())),
        ),
    decreases g,
{
    let num = len_num::<E>();
    let rest = entries.skip(1);
    let one = seq![entries[0]];
    lemma_measure_one(entries[0], num);
    if g == 0 {
        assert(entries.take(0) =~= Seq::empty());
        assert(entries.take(1) =~= one);
    } else {
        assert(entries.take(g) =~= one + rest.take(g - 1));
        assert(entries.take(g + 1) =~= one + rest.take(g));
        lemma_measure_add(one, rest.take(g - 1), num);
        lemma_measure_add(one, rest.take(g), num);
        lemma_measure_len_nonneg(rest.take(g - 1));
        lemma_nth_item(rest, g - 1, pos - entries[0].span_len());
    }
}

proof fn lemma_measure_len_nonneg<E: EntryTraits>(entries: Seq<E>)
    ensures
        measure(entries, len_num()) >= 0,
    decreases entries.len(),
{
    if entries.len() > 0 {
        lemma_measure_len_nonneg(entries.drop_last());
    }
}

/// How many items are left of a place.
pub open spec fn items_left<E: EntryTraits>(entries: Seq<E>, p: Place) -> int {
    measure(entries.take(p.entry), len_num()) + p.offset
}

/// Walking from place to place hands out all items in their order: the item right of a
/// place is the one that has as many items before it as are left of the place, and the
/// next place has one more item left of it.
pub proof fn law_walk_in_order<E: EntryTraits>(entries: Seq<E>, p: Place)
    requires
        entries_ok(entries),
        entries.len() > 0,
        p.within(entries),
    ensures
        p.item(entries) == nth_item(entries, items_left(entries, p)),
        p.item(entries) is Some ==> p.next(entries).within(entries) && items_left(
            entries,
            p.next(entries),
        ) == items_left(entries, p) + 1,
        p.item(entries) is None ==> items_left(entries, p) == measure(entries, len_num()),
{
    let num = len_num::<E>();
    let a = entries.take(p.entry);
    let one = seq![entries[p.entry]];
    assert(entries.take(p.entry + 1) =~= a + one);
    lemma_measure_add(a, one, num);
    lemma_measure_one(entries[p.entry], num);
    assert(entry_ok(entries[p.entry]));
    if p.offset < entries[p.entry].span_len() {
        lemma_nth_item(entries, p.entry, items_left(entries, p));
    } else if p.entry + 1 < entries.len() {
        let next = seq![entries[p.entry + 1]];
        assert(entries.take(p.entry + 2) =~= entries.take(p.entry + 1) + next);
        lemma_measure_add(entries.take(p.entry + 1), next, num);
        lemma_measure_one(entries[p.entry + 1], num);
        assert(entry_ok(entries[p.entry + 1]));
        lemma_nth_item(entries, p.entry + 1, items_left(entries, p));
    } else {
        assert(entries.take(p.entry + 1) =~= entries);
        lemma_nth_none(entries, items_left(entries, p));
    }
}

/// A position is in the entry up to which the numbers add up to it: what the entries left of
/// it count for and the offset make the position. The offset is inside the entry; at the
/// border of two entries it is at the start of the right one, or, where it is to stick to an
/// end, at the end of the left one.
pub proof fn law_place_of_position<E>(
    entries: Seq<E>,
    num: spec_fn(E) -> int,
    p: Place,
    pos: int,
    stick_end: bool,
)
    requires
        is_place_of(p, entries, num, pos, stick_end),
        0 <= pos,
    ensures
        0 <= p.entry < entries.len(),
        measure(entries.take(p.entry), num) + p.offset == pos,
        0 <= p.offset <= num(entries[p.entry]),
        !stick_end ==> p.offset < num(entries[p.entry]),
        stick_end && p.entry > 0 ==> 0 < p.offset,
        forall|q: Place| #[trigger]
            is_place_of(q, entries, num, pos, stick_end) ==> q == p,
{
    let upto = entries.take(p.entry + 1);
    assert(upto.drop_last() =~= entries.take(p.entry));
    assert(upto.last() == entries[p.entry]);
    if p.entry > 0 {
        assert(!falls_into(entries, num, pos, stick_end, p.entry - 1));
    } else {
        assert(entries.take(0) =~= Seq::empty());
    }
    assert forall|q: Place| #[trigger] is_place_of(q, entries, num, pos, stick_end) implies q
        == p by {
        assert(falls_into(entries, num, pos, stick_end, q.entry));
        assert(falls_into(entries, num, pos, stick_end, p.entry));
    }
}

/// Behind the last item there is none.
proof fn lemma_nth_none<E: EntryTraits>(entries: Seq<E>, pos: int)
    requires
        pos >= measure(entries, len_num()),
    ensures
        nth_item(entries, pos) is None,
    decreases entries.len(),
{
    if entries.len() > 0 {
        let one = seq![entries[0]];
        let rest = entries.skip(1);
        assert(entries =~= one + rest);
        lemma_measure_add(one, rest, len_num());
        lemma_measure_one(entries[0], len_num());
        lemma_measure_len_nonneg(rest);
        lemma_nth_none(rest, pos - entries[0].span_len());
    }
}

impl<E: EntryTraits> RangeTree<E, RawPositionIndex> {
    /// A cursor `pos` items behind the start.
    pub fn cursor_at_offset_pos(&self, pos: usize, stick_end: bool) -> (cursor: Cursor)
        requires
            self.wf(),
            within_row(self@, len_num(), pos as int, stick_end),
        ensures
            self.cursor_ok(cursor),
            is_place_of(self.place(cursor), self@, len_num(), pos as int, stick_end),
    {
        let offset_to_num = |i: u32| -> (n: usize)
            ensures
                n == i,
            { i as usize };
        let entry_to_num = |e: E| -> (n: usize)
            requires
                e.span_ok(),
            ensures
                n == e.span_len(),
            { e.len() };
        proof {
            self.lemma_entries_ok();
            assert forall|n: int, i: int, r: usize|
                0 <= n < self.nodes@.len() && 0 <= i < self.num_children(n)
                    && #[trigger] offset_to_num.ensures((self.nodes@[n].data@[i].0,), r) implies r
                == measure(self.entries_below(self.child(n, i)), len_num()) by {
                assert(self.child_count(n, i) == self.range_total(
                    self.span_of(self.child(n, i)),
                ));
                lemma_total_raw(self.entries_below(self.child(n, i)));
            }
            assert(self.counts_by(offset_to_num, entry_to_num, len_num()));
        }
        self.cursor_at_query(pos, stick_end, offset_to_num, entry_to_num)
    }

    /// The item that has `pos` items before it.
    pub fn at(&self, pos: usize) -> (item: Option<E::Item>)
        requires
            self.wf(),
            pos < measure(self@, len_num()),
        ensures
            item == nth_item(self@, pos as int),
            item is Some,
    {
        proof {
            if self@.len() > 0 {
                assert(self@.take(self@.len() as int) =~= self@);
            }
        }
        let cursor = self.cursor_at_offset_pos(pos, false);
        proof {
            let p = self.place(cursor);
            let a = self@.take(p.entry);
            let one = seq![self@[p.entry]];
            assert(self@.take(p.entry + 1) =~= a + one);
            lemma_measure_add(a, one, len_num());
            lemma_measure_one(self@[p.entry], len_num());
            lemma_nth_item(self@, p.entry, pos as int);
        }
        cursor.get_item(self)
    }
}

impl<E: EntryWithContent> RangeTree<E, ContentIndex> {
    /// The number of visible items.
    pub fn content_len(&self) -> (len: usize)
        requires
            self.wf(),
        ensures
            len == measure(self@, content_num()),
    {
        proof {
            self.lemma_range_total_all();
            lemma_total_content(self@);
        }
        self.count as usize
    }

    /// A cursor `pos` visible items behind the start.
    pub fn cursor_at_content_pos(&self, pos: usize, stick_end: bool) -> (cursor: Cursor)
        requires
            self.wf(),
            within_row(self@, content_num(), pos as int, stick_end),
        ensures
            self.cursor_ok(cursor),
            is_place_of(self.place(cursor), self@, content_num(), pos as int, stick_end),
    {
        let offset_to_num = |i: u32| -> (n: usize)
            ensures
                n == i,
            { i as usize };
        let entry_to_num = |e: E| -> (n: usize)
            requires
                e.span_ok(),
            ensures
                n == e.spec_content_len(),
            { e.content_len() };
        proof {
            self.lemma_entries_ok();
            assert forall|n: int, i: int, r: usize|
                0 <= n < self.nodes@.len() && 0 <= i < self.num_children(n)
                    && #[trigger] offset_to_num.ensures((self.nodes@[n].data@[i].0,), r) implies r
                == measure(self.entries_below(self.child(n, i)), content_num()) by {
                assert(self.child_count(n, i) == self.range_total(
                    self.span_of(self.child(n, i)),
                ));
                lemma_total_content(self.entries_below(self.child(n, i)));
            }
            assert forall|g: int| 0 <= g < self@.len() implies 0 <= content_num::<E>()(
                #[trigger] self@[g],
            ) <= self@[g].span_len() by {
                assert(entry_ok(self@[g]));
                self@[g].lemma_content_bound();
            }
            assert(self.counts_by(offset_to_num, entry_to_num, content_num()));
        }
        self.cursor_at_query(pos, stick_end, offset_to_num, entry_to_num)
    }
}

impl<E: EntryWithContent> RangeTree<E, FullIndex> {
    /// The number of visible items.
    pub fn content_len(&self) -> (len: usize)
        requires
            self.wf(),
        ensures
            len == measure(self@, content_num()),
    {
        proof {
            self.lemma_range_total_all();
            lemma_total_full(self@);
        }
        self.count.content as usize
    }

    /// A cursor `pos` visible items behind the start.
    pub fn cursor_at_content_pos(&self, pos: usize, stick_end: bool) -> (cursor: Cursor)
        requires
            self.wf(),
            within_row(self@, content_num(), pos as int, stick_end),
        ensures
            self.cursor_ok(cursor),
            is_place_of(self.place(cursor), self@, content_num(), pos as int, stick_end),
    {
        let offset_to_num = |i: FullOffset| -> (n: usize)
            ensures
                n == i.content,
            { i.content as usize };
        let entry_to_num = |e: E| -> (n: usize)
            requires
                e.span_ok(),
            ensures
                n == e.spec_content_len(),
            { e.content_len() };
        proof {
            self.lemma_entries_ok();
            assert forall|n: int, i: int, r: usize|
                0 <= n < self.nodes@.len() && 0 <= i < self.num_children(n)
                    && #[trigger] offset_to_num.ensures((self.nodes@[n].data@[i].0,), r) implies r
                == measure(self.entries_below(self.child(n, i)), content_num()) by {
                assert(self.child_count(n, i) == self.range_total(
                    self.span_of(self.child(n, i)),
                ));
                lemma_total_full(self.entries_below(self.child(n, i)));
            }
            assert forall|g: int| 0 <= g < self@.len() implies 0 <= content_num::<E>()(
                #[trigger] self@[g],
            ) <= self@[g].span_len() by {
                assert(entry_ok(self@[g]));
                self@[g].lemma_content_bound();
            }
            assert(self.counts_by(offset_to_num, entry_to_num, content_num()));
        }
        self.cursor_at_query(pos, stick_end, offset_to_num, entry_to_num)
    }

    /// A cursor `pos` items behind the start.
    pub fn cursor_at_offset_pos(&self, pos: usize, stick_end: bool) -> (cursor: Cursor)
        requires
            self.wf(),
            within_row(self@, len_num(), pos as int, stick_end),
        ensures
            self.cursor_ok(cursor),
            is_place_of(self.place(cursor), self@, len_num(), pos as int, stick_end),
    {
        let offset_to_num = |i: FullOffset| -> (n: usize)
            ensures
                n == i.len,
            { i.len as usize };
        let entry_to_num = |e: E| -> (n: usize)
            requires
                e.span_ok(),
            ensures
                n == e.span_len(),
            { e.len() };
        proof {
            self.lemma_entries_ok();
            assert forall|n: int, i: int, r: usize|
                0 <= n < self.nodes@.len() && 0 <= i < self.num_children(n)
                    && #[trigger] offset_to_num.ensures((self.nodes@[n].data@[i].0,), r) implies r
                == measure(self.entries_below(self.child(n, i)), len_num()) by {
                assert(self.child_count(n, i) == self.range_total(
                    self.span_of(self.child(n, i)),
                ));
                lemma_total_full(self.entries_below(self.child(n, i)));
            }
            assert(self.counts_by(offset_to_num, entry_to_num, len_num()));
        }
        self.cursor_at_query(pos, stick_end, offset_to_num, entry_to_num)
    }
}

} // verus!
