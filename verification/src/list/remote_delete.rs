//! Deleting items by their names.

use crate::list::Order;
use crate::list::filters::{lemma_filter_all, lemma_filter_twice, not_among};
use crate::list::laws::new_orders;
use crate::list::model::{item_held, items_held, place_before, DocState};
use crate::list::seen::{
    lemma_content_after_some, lemma_run_filter, lemma_run_is_deletion, lemma_run_unseen,
    lemma_taken_out, lemma_visible_contains, lemma_visible_once,
};
use crate::list::span::YjsSpan;
use crate::list::text::{law_delete_takes_visible, orders, visible, visible_before};
use crate::list::valid::{lemma_held, lemma_place_before, lemma_row_run, row_ok};
use crate::range_tree::deactivate::{run_deactivated, run_taken};
use crate::range_tree::homes::holds;
use crate::range_tree::runs::entry_ok;
use vstd::prelude::*;

verus! {

/// A document with the same items holds the rest of consecutive items.
pub proof fn lemma_items_held_rest(
    entries: Seq<YjsSpan>,
    now: Seq<YjsSpan>,
    target: int,
    n: int,
    len: int,
)
    requires
        items_held(entries, target, len),
        0 <= n <= len,
        forall|x: Order| #[trigger] holds(now, x) == holds(entries, x),
    ensures
        items_held(now, target + n, len - n),
{
    assert forall|x: int| target + n <= x < target + n + (len - n) implies #[trigger] item_held(
        now,
        x,
    ) by {
        assert(item_held(entries, x));
    }
}

/// Which items are visible after items were deleted by their names, and which of them
/// were deleted once more than needed.
proof fn lemma_remote_members(doc: DocState, target: int, len: int, order: int)
    requires
        row_ok(doc.entries, order),
        items_held(doc.entries, target, len),
        0 <= len,
    ensures
        ({
            let after = doc.run_deleted(target, len);
            &&& orders(after.entries) == orders(doc.entries)
            &&& forall|x: Order| #[trigger]
                visible(after.entries).contains(x) == (visible(doc.entries).contains(x) && !(target
                    <= x < target + len))
            &&& forall|x: int| #[trigger]
                (after.double_deletes)(x) == (doc.double_deletes)(x) + if target <= x < target
                    + len && !visible(doc.entries).contains(x as u32) {
                    1int
                } else {
                    0
                }
        }),
    decreases len,
{
    if len > 0 {
        let entries = doc.entries;
        assert(item_held(entries, target));
        lemma_place_before(entries, target as u32);
        let p = place_before(entries, target);
        let entry = entries[p.entry];
        assert(entry_ok(entry));
        let n = run_taken(entry, p.offset, len);
        lemma_row_run(entries, p, n, order);
        let excess = doc.double_deletes;
        let step = if entry.active() {
            DocState { entries: run_deactivated(entries, p, n), ..doc }
        } else {
            DocState {
                double_deletes: |key: int|
                    excess(key) + if target <= key < target + n {
                        1int
                    } else {
                        0
                    },
                ..doc
            }
        };
        assert(doc.run_deleted(target, len) == step.run_deleted(target + n, len - n));
        lemma_items_held_rest(entries, step.entries, target, n, len);
        lemma_remote_members(step, target + n, len - n, order);
        assert forall|x: Order| target <= x < target + n implies #[trigger] visible(
            entries,
        ).contains(x) == entry.active() by {
            lemma_held(entries, p.entry, x as int);
            lemma_visible_contains(entries, p.entry, x);
        }
        if entry.active() {
            let shown = visible(entries);
            let v = visible_before(entries, p);
            lemma_run_is_deletion(entries, p, n);
            lemma_content_after_some(entries, p, n);
            law_delete_takes_visible(entries, p, n);
            assert forall|x: Order| #[trigger]
                visible(step.entries).contains(x) == (shown.contains(x) && !(target <= x < target
                    + n)) by {
                assert forall|i: int, j: int| 0 <= i < j < shown.len() implies shown[i]
                    != shown[j] by {
                    lemma_visible_once(entries, i, j);
                }
                lemma_taken_out(shown, v, n, x);
                let gone = shown.subrange(v, v + n);
                assert(gone == new_orders(target, n));
                if target <= x < target + n {
                    assert(gone[x - target] == x);
                } else if gone.contains(x) {
                    let j = choose|j: int| 0 <= j < gone.len() && gone[j] == x;
                    lemma_held(entries, p.entry, target + j);
                    assert(gone[j] == (target + j) as u32);
                }
            }
        }
        let after = doc.run_deleted(target, len);
        assert forall|x: Order| #[trigger]
            visible(after.entries).contains(x) == (visible(entries).contains(x) && !(target <= x
                < target + len)) by {
            assert(visible(after.entries).contains(x) == (visible(step.entries).contains(x) && !(
            target + n <= x < target + len)));
        }
        assert forall|x: int| #[trigger]
            (after.double_deletes)(x) == (doc.double_deletes)(x) + if target <= x < target + len
            && !visible(entries).contains(x as u32) {
            1int
        } else {
            0
        } by {
            if target <= x < target + len {
                assert(item_held(entries, x));
            }
            assert((after.double_deletes)(x) == (step.double_deletes)(x) + if target + n <= x
                < target + n + (len - n) && !visible(step.entries).contains(x as u32) {
                1int
            } else {
                0
            });
            assert(visible(step.entries).contains(x as u32) == if entry.active() {
                visible(entries).contains(x as u32) && !(target <= (x as u32) < target + n)
            } else {
                visible(entries).contains(x as u32)
            });
        }
    }
}

/// The visible items after items were deleted by their names.
proof fn lemma_remote_filter(doc: DocState, target: int, len: int, order: int)
    requires
        row_ok(doc.entries, order),
        items_held(doc.entries, target, len),
        0 <= len,
    ensures
        visible(doc.run_deleted(target, len).entries) == visible(doc.entries).filter(
            not_among(target, len),
        ),
    decreases len,
{
    if len == 0 {
        lemma_filter_all(visible(doc.entries), not_among(target, len));
    } else {
        let entries = doc.entries;
        assert(item_held(entries, target));
        lemma_place_before(entries, target as u32);
        let p = place_before(entries, target);
        let entry = entries[p.entry];
        assert(entry_ok(entry));
        let n = run_taken(entry, p.offset, len);
        lemma_row_run(entries, p, n, order);
        let excess = doc.double_deletes;
        let step = if entry.active() {
            DocState { entries: run_deactivated(entries, p, n), ..doc }
        } else {
            DocState {
                double_deletes: |key: int|
                    excess(key) + if target <= key < target + n {
                        1int
                    } else {
                        0
                    },
                ..doc
            }
        };
        assert(doc.run_deleted(target, len) == step.run_deleted(target + n, len - n));
        lemma_items_held_rest(entries, step.entries, target, n, len);
        lemma_remote_filter(step, target + n, len - n, order);
        assert(visible(step.entries) == visible(entries).filter(not_among(target, n))) by {
            if entry.active() {
                lemma_run_filter(entries, p, n);
            } else {
                lemma_run_unseen(entries, p, n);
            }
        }
        lemma_filter_twice(visible(entries), target, n, len);
    }
}

/// Deleting items by their names makes them invisible, and no others; the other visible
/// items stay in their order, and all items stay in their places. Each of the items that was invisible before has been deleted once more
/// than needed.
pub proof fn law_remote_delete(doc: DocState, target: int, len: int, order: int)
    requires
        row_ok(doc.entries, order),
        items_held(doc.entries, target, len),
        0 <= len,
    ensures
        ({
            let after = doc.run_deleted(target, len);
            &&& orders(after.entries) == orders(doc.entries)
            &&& visible(after.entries) == visible(doc.entries).filter(not_among(target, len))
            &&& forall|x: Order| #[trigger]
                visible(after.entries).contains(x) == (visible(doc.entries).contains(x) && !(target
                    <= x < target + len))
            &&& forall|x: int| #[trigger]
                (after.double_deletes)(x) == (doc.double_deletes)(x) + if target <= x < target
                    + len && !visible(doc.entries).contains(x as u32) {
                    1int
                } else {
                    0
                }
        }),
{
    lemma_remote_members(doc, target, len, order);
    lemma_remote_filter(doc, target, len, order);
}

} // verus!
