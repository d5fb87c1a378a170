//! Sequences of entries: chained, counted and searched by position.

use crate::range_tree::entry::{EntryTraits, EntryWithContent};
use crate::range_tree::index::{Extent, TreeIndex};
use vstd::prelude::*;

verus! {

/// The sequences one behind the other.
pub open spec fn chain<T>(parts: Seq<Seq<T>>) -> Seq<T>
    decreases parts.len(),
{
    if parts.len() == 0 {
        Seq::empty()
    } else {
        chain(parts.drop_last()) + parts.last()
    }
}

pub proof fn lemma_chain_add<T>(a: Seq<Seq<T>>, b: Seq<Seq<T>>)
    ensures
        chain(a + b) == chain(a) + chain(b),
    decreases b.len(),
{
    if b.len() == 0 {
        assert(a + b =~= a);
        assert(chain(a) + chain(b) =~= chain(a));
    } else {
        lemma_chain_add(a, b.drop_last());
        assert((a + b).drop_last() =~= a + b.drop_last());
        assert(chain(a) + (chain(b.drop_last()) + b.last()) =~= (chain(a) + chain(b.drop_last()))
            + b.last());
    }
}

pub proof fn lemma_chain_one<T>(part: Seq<T>)
    ensures
        chain(seq![part]) == part,
{
    let parts = seq![part];
    assert(parts.drop_last() =~= Seq::empty());
    assert(chain(parts.drop_last()) =~= Seq::<T>::empty());
    assert(chain(parts) =~= part);
}

/// The chain around one of its parts.
pub proof fn lemma_chain_around<T>(parts: Seq<Seq<T>>, r: int)
    requires
        0 <= r < parts.len(),
    ensures
        chain(parts) == chain(parts.take(r)) + parts[r] + chain(parts.skip(r + 1)),
{
    let one = seq![parts[r]];
    lemma_chain_one(parts[r]);
    lemma_chain_add(parts.take(r), one);
    lemma_chain_add(parts.take(r) + one, parts.skip(r + 1));
    assert(parts =~= parts.take(r) + one + parts.skip(r + 1));
}

/// Where the part `r` starts in the chain.
pub open spec fn chain_start<T>(parts: Seq<Seq<T>>, r: int) -> int {
    chain(parts.take(r)).len() as int
}

/// An element of a part, found in the chain.
pub proof fn lemma_chain_index<T>(parts: Seq<Seq<T>>, r: int, i: int)
    requires
        0 <= r < parts.len(),
        0 <= i < parts[r].len(),
    ensures
        0 <= chain_start(parts, r) + i < chain(parts).len(),
        chain(parts)[chain_start(parts, r) + i] == parts[r][i],
{
    lemma_chain_around(parts, r);
}

/// The next part starts where this one ends.
pub proof fn lemma_chain_start_next<T>(parts: Seq<Seq<T>>, r: int)
    requires
        0 <= r < parts.len(),
    ensures
        chain_start(parts, r + 1) == chain_start(parts, r) + parts[r].len(),
        chain_start(parts, r) + parts[r].len() <= chain(parts).len(),
        r + 1 == parts.len() ==> chain_start(parts, r + 1) == chain(parts).len(),
        r == 0 ==> chain_start(parts, r) == 0,
{
    lemma_chain_around(parts, r);
    assert(parts.take(r + 1).drop_last() =~= parts.take(r));
    assert(parts.take(r + 1).last() == parts[r]);
    if r + 1 == parts.len() {
        assert(parts.take(r + 1) =~= parts);
    }
    if r == 0 {
        assert(parts.take(0) =~= Seq::empty());
    }
}

/// Parts start in their order.
pub proof fn lemma_chain_start_mono<T>(parts: Seq<Seq<T>>, r: int, s: int)
    requires
        0 <= r < s <= parts.len(),
    ensures
        chain_start(parts, r) + parts[r].len() <= chain_start(parts, s),
    decreases s - r,
{
    lemma_chain_start_next(parts, r);
    if r + 1 < s {
        lemma_chain_start_mono(parts, r + 1, s);
    }
}

/// Every element of the chain is an element of a part.
pub proof fn lemma_chain_find<T>(parts: Seq<Seq<T>>, g: int) -> (place: (int, int))
    requires
        0 <= g < chain(parts).len(),
    ensures
        0 <= place.0 < parts.len(),
        0 <= place.1 < parts[place.0].len(),
        chain_start(parts, place.0) + place.1 == g,
    decreases parts.len(),
{
    let n = parts.len() as int;
    let head = parts.drop_last();
    assert(parts.take(n - 1) =~= head);
    if g < chain(head).len() {
        let (r, i) = lemma_chain_find(head, g);
        assert(parts.take(r) =~= head.take(r));
        (r, i)
    } else {
        (n - 1, g - chain(head).len())
    }
}

/// Changing one part changes the chain there.
pub proof fn lemma_chain_update<T>(parts: Seq<Seq<T>>, r: int, part: Seq<T>)
    requires
        0 <= r < parts.len(),
    ensures
        chain(parts.update(r, part)) == chain(parts.take(r)) + part + chain(parts.skip(r + 1)),
        chain_start(parts.update(r, part), r) == chain_start(parts, r),
{
    let changed = parts.update(r, part);
    lemma_chain_around(changed, r);
    assert(changed.take(r) =~= parts.take(r));
    assert(changed.skip(r + 1) =~= parts.skip(r + 1));
}

/// Cutting a part in two leaves the chain as it is.
pub proof fn lemma_chain_cut<T>(parts: Seq<Seq<T>>, r: int, left: Seq<T>, right: Seq<T>)
    requires
        0 <= r < parts.len(),
        parts[r] == left + right,
    ensures
        chain(parts.update(r, left).insert(r + 1, right)) == chain(parts),
{
    let cut = parts.update(r, left).insert(r + 1, right);
    lemma_chain_around(parts, r);
    lemma_chain_around(cut, r + 1);
    assert(cut.take(r + 1).drop_last() =~= parts.take(r));
    assert(cut.take(r + 1).last() == left);
    assert(cut.skip(r + 2) =~= parts.skip(r + 1));
    assert(chain(parts.take(r)) + left + right + chain(parts.skip(r + 1)) =~= chain(parts.take(r))
        + (left + right) + chain(parts.skip(r + 1)));
}

/// What the entries count for together.
pub open spec fn total<E: EntryTraits, I: TreeIndex<E>>(entries: Seq<E>) -> Extent
    decreases entries.len(),
{
    if entries.len() == 0 {
        Extent::zero()
    } else {
        total::<E, I>(entries.drop_last()).plus(I::extent(entries.last()))
    }
}

pub proof fn lemma_total_add<E: EntryTraits, I: TreeIndex<E>>(a: Seq<E>, b: Seq<E>)
    ensures
        total::<E, I>(a + b) == total::<E, I>(a).plus(total::<E, I>(b)),
    decreases b.len(),
{
    if b.len() == 0 {
        assert(a + b =~= a);
    } else {
        lemma_total_add::<E, I>(a, b.drop_last());
        assert((a + b).drop_last() =~= a + b.drop_last());
    }
}

pub proof fn lemma_total_one<E: EntryTraits, I: TreeIndex<E>>(entry: E)
    ensures
        total::<E, I>(seq![entry]) == I::extent(entry),
{
    assert(seq![entry].drop_last() =~= Seq::<E>::empty());
    assert(total::<E, I>(seq![entry].drop_last()) == Extent::zero());
}

/// An entry that a leaf can hold.
pub open spec fn entry_ok<E: EntryTraits>(entry: E) -> bool {
    &&& entry.span_ok()
    &&& entry.valid()
    &&& entry.span_len() > 0
}

/// Entries that leaves can hold.
pub open spec fn entries_ok<E: EntryTraits>(entries: Seq<E>) -> bool {
    forall|i: int| 0 <= i < entries.len() ==> entry_ok(#[trigger] entries[i])
}

pub proof fn lemma_total_nonneg<E: EntryTraits, I: TreeIndex<E>>(entries: Seq<E>)
    requires
        entries_ok(entries),
    ensures
        total::<E, I>(entries).len >= 0,
        total::<E, I>(entries).content >= 0,
    decreases entries.len(),
{
    if entries.len() > 0 {
        assert(entries_ok(entries.drop_last())) by {
            assert forall|i: int| 0 <= i < entries.drop_last().len() implies entry_ok(
                #[trigger] entries.drop_last()[i],
            ) by {
                assert(entry_ok(entries[i]));
            }
        }
        lemma_total_nonneg::<E, I>(entries.drop_last());
        assert(entry_ok(entries[entries.len() - 1]));
        I::lemma_extent_bound(entries.last());
    }
}

/// The number of items in the entries.
pub open spec fn items_len<E: EntryTraits>(entries: Seq<E>) -> nat
    decreases entries.len(),
{
    if entries.len() == 0 {
        0
    } else {
        items_len(entries.drop_last()) + entries.last().span_len()
    }
}

pub proof fn lemma_items_len_add<E: EntryTraits>(a: Seq<E>, b: Seq<E>)
    ensures
        items_len(a + b) == items_len(a) + items_len(b),
    decreases b.len(),
{
    if b.len() == 0 {
        assert(a + b =~= a);
    } else {
        lemma_items_len_add(a, b.drop_last());
        assert((a + b).drop_last() =~= a + b.drop_last());
    }
}

pub proof fn lemma_items_len_one<E: EntryTraits>(entry: E)
    ensures
        items_len(seq![entry]) == entry.span_len(),
{
    assert(seq![entry].drop_last() =~= Seq::<E>::empty());
    assert(items_len(seq![entry].drop_last()) == 0);
}

/// Entries count for no more than their items.
pub proof fn lemma_total_bound<E: EntryTraits, I: TreeIndex<E>>(entries: Seq<E>)
    requires
        entries_ok(entries),
    ensures
        total::<E, I>(entries).len <= items_len(entries),
        total::<E, I>(entries).content <= items_len(entries),
    decreases entries.len(),
{
    if entries.len() > 0 {
        assert(entries_ok(entries.drop_last())) by {
            assert forall|i: int| 0 <= i < entries.drop_last().len() implies entry_ok(
                #[trigger] entries.drop_last()[i],
            ) by {
                assert(entry_ok(entries[i]));
            }
        }
        lemma_total_bound::<E, I>(entries.drop_last());
        assert(entry_ok(entries[entries.len() - 1]));
        I::lemma_extent_bound(entries.last());
    }
}

/// The sum of a number that each entry has.
pub open spec fn measure<E>(entries: Seq<E>, num: spec_fn(E) -> int) -> int
    decreases entries.len(),
{
    if entries.len() == 0 {
        0
    } else {
        measure(entries.drop_last(), num) + num(entries.last())
    }
}

pub proof fn lemma_measure_add<E>(a: Seq<E>, b: Seq<E>, num: spec_fn(E) -> int)
    ensures
        measure(a + b, num) == measure(a, num) + measure(b, num),
    decreases b.len(),
{
    if b.len() == 0 {
        assert(a + b =~= a);
    } else {
        lemma_measure_add(a, b.drop_last(), num);
        assert((a + b).drop_last() =~= a + b.drop_last());
    }
}

/// The number of items in an entry.
pub open spec fn len_num<E: EntryTraits>() -> spec_fn(E) -> int {
    |entry: E| entry.span_len() as int
}

/// The number of visible items in an entry.
pub open spec fn content_num<E: EntryWithContent>() -> spec_fn(E) -> int {
    |entry: E| entry.spec_content_len() as int
}

pub proof fn lemma_measure_one<E>(entry: E, num: spec_fn(E) -> int)
    ensures
        measure(seq![entry], num) == num(entry),
{
    assert(seq![entry].drop_last() =~= Seq::<E>::empty());
    assert(measure(seq![entry].drop_last(), num) == 0);
}

/// Position `pos` falls into entry `g`: behind the entries before it, and before its
/// end, or at its end if `stick_end` is set.
pub open spec fn falls_into<E>(
    entries: Seq<E>,
    num: spec_fn(E) -> int,
    pos: int,
    stick_end: bool,
    g: int,
) -> bool {
    let end = measure(entries.take(g + 1), num);
    pos < end || (stick_end && pos == end)
}

} // verus!
