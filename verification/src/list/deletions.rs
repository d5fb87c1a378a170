//! Which operation deleted which item, and how often.

use crate::list::delete::DeleteEntry;
use crate::list::external_txn::{RemoteId, RemoteOp};
use crate::list::filters::not_among;
use crate::list::keeps::{lemma_covered_end, lemma_logged_remotely};
use crate::list::laws::new_orders;
use crate::list::model::{deleted_item, is_deleted, item_held, items_held, logs, DocState};
use crate::list::remote_delete::law_remote_delete;
use crate::list::text::{orders, visible};
use crate::list::valid::lemma_resolved_order;
use crate::rle::KVPair;
use crate::rle::simple_rle::{covered, rle_end, rle_push, rle_sorted};
use vstd::prelude::*;

verus! {

/// The operations that deleted an item.
pub open spec fn deleters(deletes: Seq<KVPair<DeleteEntry>>, x: int) -> Set<int> {
    Set::new(|op: int| covered(deletes, op) && deleted_item(deletes, op) == x)
}

/// An item was deleted by as many operations as its excess deletions say, and once more if it
/// was deleted at all.
pub open spec fn is_counted(
    deletes: Seq<KVPair<DeleteEntry>>,
    excess: spec_fn(int) -> int,
    x: int,
) -> bool {
    &&& deleters(deletes, x).finite()
    &&& excess(x) == if deleters(deletes, x).len() == 0 {
        0
    } else {
        deleters(deletes, x).len() - 1
    }
}

/// The excess deletions of all items are right.
#[verifier::opaque]
pub open spec fn deletions_counted(
    deletes: Seq<KVPair<DeleteEntry>>,
    excess: spec_fn(int) -> int,
) -> bool {
    forall|x: int| #[trigger] is_counted(deletes, excess, x)
}

/// No deletions are counted right.
pub proof fn lemma_none_counted(deletes: Seq<KVPair<DeleteEntry>>, excess: spec_fn(int) -> int)
    requires
        deletes.len() == 0,
        forall|x: int| #[trigger] excess(x) == 0,
    ensures
        deletions_counted(deletes, excess),
{
    reveal(deletions_counted);
    assert forall|x: int| #[trigger] is_counted(deletes, excess, x) by {
        assert(deleters(deletes, x) =~= Set::empty());
    }
}

/// Logging the deletion of different items, of which those count as deleted too often that
/// were deleted before, keeps the count right.
#[verifier::rlimit(30)]
pub proof fn lemma_deletions_counted(
    deletes: Seq<KVPair<DeleteEntry>>,
    log: Seq<KVPair<DeleteEntry>>,
    row: Seq<u32>,
    order: int,
    excess: spec_fn(int) -> int,
    now: spec_fn(int) -> int,
)
    requires
        deletions_counted(deletes, excess),
        rle_sorted(deletes),
        rle_end(deletes) <= order,
        logs(deletes, log, row, order),
        forall|i: int, j: int| 0 <= i < j < row.len() ==> row[i] != row[j],
        forall|x: int| #[trigger]
            now(x) == excess(x) + if 0 <= x <= u32::MAX && row.contains(x as u32) && is_deleted(
                deletes,
                x,
            ) {
                1int
            } else {
                0
            },
    ensures
        deletions_counted(log, now),
{
    reveal(deletions_counted);
    assert forall|x: int| #[trigger] is_counted(log, now, x) by {
        assert(is_counted(deletes, excess, x));
        let a = deleters(deletes, x);
        let b = deleters(log, x);
        assert(is_deleted(deletes, x) == (a.len() > 0)) by {
            if is_deleted(deletes, x) {
                let op = choose|op: int| #[trigger]
                    covered(deletes, op) && deleted_item(deletes, op) == x;
                assert(a.contains(op));
                assert(a.len() > 0) by {
                    if a.len() == 0 {
                        a.lemma_len0_is_empty();
                    }
                }
            } else {
                assert(a =~= Set::empty()) by {
                    assert forall|op: int| !a.contains(op) by {
                        if a.contains(op) {
                            assert(covered(deletes, op));
                        }
                    }
                }
            }
        }
        assert forall|op: int| a.contains(op) implies op < order && b.contains(op) by {
            lemma_covered_end(deletes, op);
            assert(covered(log, op));
        }
        if 0 <= x <= u32::MAX && row.contains(x as u32) {
            let j = choose|j: int| 0 <= j < row.len() && row[j] == x as u32;
            assert(b =~= a.insert(order + j)) by {
                assert forall|op: int| b.contains(op) == a.insert(order + j).contains(op) by {
                    if op == order + j {
                        assert(covered(log, order + j));
                        assert(deleted_item(log, order + j) == row[j]);
                    } else if b.contains(op) {
                        assert(covered(log, op));
                        if !covered(deletes, op) {
                            let i = op - order;
                            assert(deleted_item(log, order + i) == row[i]);
                            assert(row[i] == row[j]);
                        }
                    }
                }
            }
        } else {
            assert(b =~= a) by {
                assert forall|op: int| b.contains(op) == a.contains(op) by {
                    if b.contains(op) {
                        assert(covered(log, op));
                        if !covered(deletes, op) {
                            let i = op - order;
                            assert(deleted_item(log, order + i) == row[i]);
                            assert(row.contains(row[i]));
                        }
                    }
                }
            }
        }
    }
}

/// How often an item was deleted is on record: by as many operations as its excess deletions
/// say, and once more if it was deleted at all.
pub proof fn law_excess_counts_deletions(doc: DocState, x: int)
    requires
        doc.ok(),
    ensures
        deleters(doc.deletes, x).finite(),
        (doc.double_deletes)(x) == if deleters(doc.deletes, x).len() == 0 {
            0
        } else {
            deleters(doc.deletes, x).len() - 1
        },
{
    reveal(deletions_counted);
    assert(is_counted(doc.deletes, doc.double_deletes, x));
}

/// A step of a remote transaction that deletes items makes just these invisible and leaves all
/// items in their places. Each of its operations is logged with the item that it deleted, and
/// what was logged before stays.
#[verifier::rlimit(30)]
pub proof fn law_remote_delete_step(
    doc: DocState,
    agent: int,
    id: RemoteId,
    len: u32,
    order: int,
    target: int,
)
    requires
        doc.clients_ok(),
        doc.content_ok(order),
        0 <= order,
        order + len <= u32::MAX,
        doc.resolved(id.agent@, id.seq as int) == Some(target),
        items_held(doc.entries, target, len as int),
    ensures
        ({
            let after = doc.changed(agent, RemoteOp::Del { id, len }, order);
            &&& orders(after.entries) == orders(doc.entries)
            &&& visible(after.entries) == visible(doc.entries).filter(
                |x: u32| !(target <= x < target + len),
            )
            &&& forall|j: int|
                0 <= j < len ==> #[trigger] covered(after.deletes, order + j) && deleted_item(
                    after.deletes,
                    order + j,
                ) == target + j
            &&& forall|x: int| #[trigger]
                covered(doc.deletes, x) ==> covered(after.deletes, x) && deleted_item(
                    after.deletes,
                    x,
                ) == deleted_item(doc.deletes, x)
        }),
{
    lemma_resolved_order(doc, id.agent@, id.seq as int);
    let val = KVPair(order as u32, DeleteEntry { order: target as u32, len });
    let logged = DocState { deletes: rle_push(doc.deletes, val), ..doc };
    if len > 0 {
        assert(item_held(doc.entries, target + len - 1));
    }
    law_remote_delete(logged, target, len as int, order);
    logged.lemma_run_deleted(target, len as int);
    lemma_logged_remotely(doc.deletes, order, target, len as int);
    let log = logged.deletes;
    let row = new_orders(target, len as int);
    assert forall|j: int| 0 <= j < len implies #[trigger] covered(log, order + j)
        && deleted_item(log, order + j) == target + j by {
        assert(deleted_item(log, order + j) == row[j]);
    }
    assert(not_among(target, len as int) =~= (|x: u32| !(target <= x < target + len)));
}

} // verus!
