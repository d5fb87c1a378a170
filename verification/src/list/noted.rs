//! Which leaf the index names for each operation.

use crate::list::Order;
use crate::list::model::item_held;
use crate::list::span::YjsSpan;
use crate::list::valid::row_ok;
use crate::range_tree::deactivate::lemma_has_order;
use crate::range_tree::homes::{has_item, holds, noted};
use crate::range_tree::mutations::{notes_of_insert, notes_ok};
use crate::range_tree::node::LeafPtr;
use crate::range_tree::runs::entry_ok;
use crate::splitable_span::MergableSpan;
use vstd::prelude::*;

verus! {

/// The leaf of each item by the index.
pub open spec fn home_record(index: Seq<Option<LeafPtr>>) -> spec_fn(Order) -> LeafPtr {
    |x: Order| index[x as int]->0
}

/// Operations that inserted no item are marked as before.
pub open spec fn keeps_marks(
    before: Seq<Option<LeafPtr>>,
    after: Seq<Option<LeafPtr>>,
    entries: Seq<YjsSpan>,
) -> bool {
    forall|x: int|
        0 <= x < before.len() && !item_held(entries, x) ==> #[trigger] after[x] == before[x]
}

/// The index went on by operations that deleted items of a row: they are marked with the
/// leaf of the operation before them.
pub open spec fn marks_deletion(
    before: Seq<Option<LeafPtr>>,
    after: Seq<Option<LeafPtr>>,
    entries: Seq<YjsSpan>,
    len: int,
) -> bool {
    &&& after.len() == before.len() + len
    &&& keeps_marks(before, after, entries)
    &&& forall|x: int|
        before.len() <= x < after.len() ==> #[trigger] after[x] == after[before.len() - 1]
}

/// The index went on by operations that inserted items into a row.
pub open spec fn marks_insertion(
    before: Seq<Option<LeafPtr>>,
    after: Seq<Option<LeafPtr>>,
    entries: Seq<YjsSpan>,
    len: int,
) -> bool {
    &&& after.len() == before.len() + len
    &&& keeps_marks(before, after, entries)
}

/// Marks that are kept by what is no item of a row are kept by what is no item of another
/// row of the same items.
pub proof fn lemma_keeps_marks(
    before: Seq<Option<LeafPtr>>,
    after: Seq<Option<LeafPtr>>,
    entries: Seq<YjsSpan>,
    same: Seq<YjsSpan>,
)
    requires
        keeps_marks(before, after, entries),
        forall|x: Order| #[trigger] holds(same, x) == holds(entries, x),
    ensures
        keeps_marks(before, after, same),
{
    assert forall|x: int| 0 <= x < before.len() && !item_held(same, x) implies #[trigger] after[x]
        == before[x] by {
        assert(holds(same, x as u32) == holds(entries, x as u32));
        assert(!item_held(entries, x));
    }
}

/// Noting down entries keeps the marks of everything that is in none of them.
pub proof fn lemma_unnoted(index: Seq<Option<LeafPtr>>, notes: Seq<(YjsSpan, LeafPtr)>, x: int)
    requires
        0 <= x < index.len(),
        forall|j: int|
            0 <= j < notes.len() ==> !((#[trigger] notes[j]).0.order <= x < notes[j].0.order
                + notes[j].0.span_len()),
    ensures
        x < all_noted_down(index, notes).len(),
        all_noted_down(index, notes)[x] == index[x],
    decreases notes.len(),
{
    if notes.len() > 0 {
        let head = notes.drop_last();
        assert forall|j: int| 0 <= j < head.len() implies !((#[trigger] head[j]).0.order <= x
            < head[j].0.order + head[j].0.span_len()) by {
            assert(head[j] == notes[j]);
        }
        lemma_unnoted(index, head, x);
        let last = notes[notes.len() - 1];
        assert(!(last.0.order <= x < last.0.order + last.0.span_len()));
    }
}

/// Noting down entries of items keeps the marks of what is no item.
pub proof fn lemma_noted_keeps_marks(
    index: Seq<Option<LeafPtr>>,
    notes: Seq<(YjsSpan, LeafPtr)>,
    entries: Seq<YjsSpan>,
)
    requires
        notes_ok(notes, entries),
    ensures
        keeps_marks(index, all_noted_down(index, notes), entries),
{
    let now = all_noted_down(index, notes);
    assert forall|x: int| 0 <= x < index.len() && !item_held(entries, x) implies #[trigger] now[x]
        == index[x] by {
        assert forall|j: int| 0 <= j < notes.len() implies !((#[trigger] notes[j]).0.order <= x
            < notes[j].0.order + notes[j].0.span_len()) by {
            let e = notes[j].0;
            assert(entry_ok(e));
            if e.order <= x < e.order + e.span_len() {
                lemma_has_order(e, x as u32);
                assert(has_item(notes[j].0, x as u32));
                assert(holds(entries, x as u32));
            }
        }
        lemma_unnoted(index, notes, x);
    }
}

/// Noting down what an insertion moved keeps the marks of what was no item.
pub proof fn lemma_insert_keeps_marks(
    index: Seq<Option<LeafPtr>>,
    notes: Seq<(YjsSpan, LeafPtr)>,
    item: YjsSpan,
    entries: Seq<YjsSpan>,
)
    requires
        notes_of_insert(notes, item, entries),
        item.order == index.len(),
    ensures
        keeps_marks(index, all_noted_down(index, notes), entries),
{
    let head = notes.drop_last();
    let now = all_noted_down(index, notes);
    lemma_noted_keeps_marks(index, head, entries);
    assert forall|x: int| 0 <= x < index.len() && !item_held(entries, x) implies #[trigger] now[x]
        == index[x] by {
        assert(all_noted_down(index, head)[x] == index[x]);
        lemma_noted_longer(index, head);
    }
}

/// Noting down entries makes the index no shorter.
proof fn lemma_noted_longer(index: Seq<Option<LeafPtr>>, notes: Seq<(YjsSpan, LeafPtr)>)
    ensures
        all_noted_down(index, notes).len() >= index.len(),
    decreases notes.len(),
{
    if notes.len() > 0 {
        lemma_noted_longer(index, notes.drop_last());
    }
}

/// The index with an entry noted down as held by a leaf.
pub open spec fn noted_down(
    index: Seq<Option<LeafPtr>>,
    entry: YjsSpan,
    ptr: LeafPtr,
) -> Seq<Option<LeafPtr>> {
    let end = entry.order + entry.span_len();
    Seq::new(
        (if end > index.len() {
            end
        } else {
            index.len() as int
        }) as nat,
        |k: int|
            if entry.order <= k < end {
                Some(ptr)
            } else {
                index[k]
            },
    )
}

/// The index with some entries noted down, one after the other.
pub open spec fn all_noted_down(
    index: Seq<Option<LeafPtr>>,
    notes: Seq<(YjsSpan, LeafPtr)>,
) -> Seq<Option<LeafPtr>>
    decreases notes.len(),
{
    if notes.len() == 0 {
        index
    } else {
        noted_down(
            all_noted_down(index, notes.drop_last()),
            notes.last().0,
            notes.last().1,
        )
    }
}

/// Noting entries down keeps every item in some leaf, and makes the index agree with the
/// notes.
pub proof fn lemma_noted_homes(index: Seq<Option<LeafPtr>>, notes: Seq<(YjsSpan, LeafPtr)>)
    requires
        forall|k: int| 0 <= k < index.len() ==> (#[trigger] index[k]) is Some,
        forall|j: int|
            0 <= j < notes.len() ==> entry_ok((#[trigger] notes[j]).0) && notes[j].0.order
                <= index.len(),
    ensures
        ({
            let now = all_noted_down(index, notes);
            &&& now.len() >= index.len()
            &&& forall|k: int| 0 <= k < now.len() ==> (#[trigger] now[k]) is Some
            &&& forall|x: Order|
                x < now.len() ==> #[trigger] home_record(now)(x) == noted(
                    home_record(index),
                    notes,
                )(x)
        }),
    decreases notes.len(),
{
    if notes.len() > 0 {
        let head = notes.drop_last();
        let mid = all_noted_down(index, head);
        let now = all_noted_down(index, notes);
        let entry = notes.last().0;
        assert forall|j: int| 0 <= j < head.len() implies entry_ok((#[trigger] head[j]).0)
            && head[j].0.order <= index.len() by {
            assert(head[j] == notes[j]);
        }
        lemma_noted_homes(index, head);
        assert(entry_ok(notes[notes.len() - 1].0));
        assert forall|k: int| 0 <= k < now.len() implies (#[trigger] now[k]) is Some by {
            if !(entry.order <= k < entry.order + entry.span_len()) {
                assert(mid[k] is Some);
            }
        }
        assert forall|x: Order| x < now.len() implies #[trigger] home_record(now)(x) == noted(
            home_record(index),
            notes,
        )(x) by {
            lemma_has_order(entry, x);
            if !has_item(entry, x) {
                assert(home_record(mid)(x) == noted(home_record(index), head)(x));
            }
        }
    }
}

/// Noting down what an insertion moved makes the index longer by the new item.
pub proof fn lemma_insert_notes(
    entries: Seq<YjsSpan>,
    index: Seq<Option<LeafPtr>>,
    notes: Seq<(YjsSpan, LeafPtr)>,
    item: YjsSpan,
)
    requires
        row_ok(entries, index.len() as int),
        notes_of_insert(notes, item, entries),
        entry_ok(item),
        item.order == index.len(),
        forall|k: int| 0 <= k < index.len() ==> (#[trigger] index[k]) is Some,
    ensures
        forall|j: int|
            0 <= j < notes.len() ==> entry_ok((#[trigger] notes[j]).0) && notes[j].0.order
                <= index.len(),
        ({
            let now = all_noted_down(index, notes);
            &&& now.len() == index.len() + item.span_len()
            &&& forall|k: int| 0 <= k < now.len() ==> (#[trigger] now[k]) is Some
            &&& forall|x: Order|
                x < now.len() ==> #[trigger] home_record(now)(x) == noted(
                    home_record(index),
                    notes,
                )(x)
        }),
{
    let others = notes.drop_last();
    let n = notes.len() - 1;
    assert forall|j: int| 0 <= j < others.len() implies entry_ok((#[trigger] others[j]).0)
        && others[j].0.order + others[j].0.span_len() <= index.len() by {
        let e = others[j].0;
        lemma_has_order(e, (e.order + e.span_len() - 1) as u32);
        assert(has_item(others[j].0, (e.order + e.span_len() - 1) as u32));
        assert(holds(entries, (e.order + e.span_len() - 1) as u32));
    }
    assert forall|j: int| 0 <= j < notes.len() implies entry_ok((#[trigger] notes[j]).0)
        && notes[j].0.order <= index.len() by {
        if j < n {
            assert(entry_ok(others[j].0));
        }
    }
    lemma_noted_homes(index, notes);
    lemma_noted_len(index, others);
}

/// Noting down entries of known items makes the index no longer.
pub proof fn lemma_noted_len(index: Seq<Option<LeafPtr>>, notes: Seq<(YjsSpan, LeafPtr)>)
    requires
        forall|j: int|
            0 <= j < notes.len() ==> (#[trigger] notes[j]).0.order + notes[j].0.span_len()
                <= index.len(),
    ensures
        all_noted_down(index, notes).len() == index.len(),
    decreases notes.len(),
{
    if notes.len() > 0 {
        let head = notes.drop_last();
        assert forall|j: int| 0 <= j < head.len() implies (#[trigger] head[j]).0.order
            + head[j].0.span_len() <= index.len() by {
            assert(head[j] == notes[j]);
        }
        lemma_noted_len(index, head);
        assert(notes[notes.len() - 1].0.order + notes.last().0.span_len() <= index.len());
    }
}

} // verus!
