//! What the history of a document tells of its transactions.

use crate::list::branch::outside;
use crate::list::external_txn::RemoteTxn;
use crate::list::laws::{lemma_ops_len_nonneg, lemma_remote_ops_len_nonneg};
use crate::list::model::{
    ops_len, remote_ops_len, shadow_from, txn_holds, txn_known, txn_of, txn_pushed, DocState, Edit,
    TxnState,
};
use crate::list::valid::{
    lemma_assigned, lemma_resolved_order, lemma_shadow_bound, lemma_txn_pushed, lemma_with_agent,
    txns_ok,
};
use vstd::prelude::*;

verus! {

/// The history tells that the operation `x` is directly on top of `y`: the first operation of
/// a run is on top of the parents of the run, each of the others on top of the one before it.
pub open spec fn on_top_of(txns: Seq<TxnState>, x: int, y: int) -> bool {
    exists|i: int|
        {
            &&& 0 <= i < txns.len()
            &&& (#[trigger] txns[i]).order <= x < txns[i].order + txns[i].len
            &&& 0 <= y <= u32::MAX
            &&& if x == txns[i].order {
                txns[i].parents.contains(y as u32)
            } else {
                y == x - 1
            }
        }
}

/// A way back through the history from one of some parents.
pub open spec fn is_way(txns: Seq<TxnState>, parents: Seq<u32>, way: Seq<int>) -> bool {
    &&& way.len() > 0
    &&& 0 <= way[0] <= u32::MAX
    &&& parents.contains(way[0] as u32)
    &&& forall|i: int, j: int|
        0 <= i && j == i + 1 && j < way.len() ==> on_top_of(
            txns,
            #[trigger] way[i],
            #[trigger] way[j],
        )
}

/// An operation came before whatever is on top of some parents.
pub open spec fn came_before(txns: Seq<TxnState>, parents: Seq<u32>, x: int) -> bool {
    exists|way: Seq<int>| #[trigger] is_way(txns, parents, way) && way.last() == x
}

/// All operations from a run's shadow up to the run came before it.
#[verifier::opaque]
pub open spec fn shadows_sound(txns: Seq<TxnState>) -> bool {
    forall|i: int, x: int|
        0 <= i < txns.len() && txns[i].shadow <= x < txns[i].order ==> #[trigger] came_before(
            txns,
            txns[i].parents,
            x,
        )
}

/// What the history told, it tells after a transaction.
proof fn lemma_on_top_of_kept(txns: Seq<TxnState>, txn: TxnState, next: int, x: int, y: int)
    requires
        txns_ok(txns, next),
        next + txn.len <= u32::MAX,
        txn.order == next,
        on_top_of(txns, x, y),
    ensures
        on_top_of(txn_pushed(txns, txn), x, y),
{
    let now = txn_pushed(txns, txn);
    let i = choose|i: int|
        {
            &&& 0 <= i < txns.len()
            &&& (#[trigger] txns[i]).order <= x < txns[i].order + txns[i].len
            &&& 0 <= y <= u32::MAX
            &&& if x == txns[i].order {
                txns[i].parents.contains(y as u32)
            } else {
                y == x - 1
            }
        };
    assert(now[i].order == txns[i].order && now[i].parents == txns[i].parents);
    assert(now[i].len >= txns[i].len);
}

/// What came before still does after a transaction.
proof fn lemma_came_before_kept(
    txns: Seq<TxnState>,
    txn: TxnState,
    next: int,
    parents: Seq<u32>,
    x: int,
)
    requires
        txns_ok(txns, next),
        next + txn.len <= u32::MAX,
        txn.order == next,
        came_before(txns, parents, x),
    ensures
        came_before(txn_pushed(txns, txn), parents, x),
{
    let way = choose|way: Seq<int>| #[trigger] is_way(txns, parents, way) && way.last() == x;
    let now = txn_pushed(txns, txn);
    assert forall|i: int, j: int| 0 <= i && j == i + 1 && j < way.len() implies on_top_of(
        now,
        #[trigger] way[i],
        #[trigger] way[j],
    ) by {
        lemma_on_top_of_kept(txns, txn, next, way[i], way[j]);
    }
    assert(is_way(now, parents, way));
}

/// The operations of a run before one of it came before what is on top of that one, and so did
/// those from the run's shadow on.
#[verifier::rlimit(30)]
proof fn lemma_run_came_before(
    txns: Seq<TxnState>,
    parents: Seq<u32>,
    next: int,
    i: int,
    p: int,
    x: int,
)
    requires
        txns_ok(txns, next),
        next <= u32::MAX,
        shadows_sound(txns),
        0 <= i < txns.len(),
        txns[i].order <= p < txns[i].order + txns[i].len,
        parents.contains(p as u32),
        txns[i].shadow <= x <= p,
    ensures
        came_before(txns, parents, x),
{
    let first = txns[i].order as int;
    let low = if x < first { first } else { x };
    let down = Seq::new((p - low + 1) as nat, |k: int| p - k);
    assert(txns[i].order + txns[i].len <= next);
    assert forall|a: int, b: int| 0 <= a && b == a + 1 && b < down.len() implies on_top_of(
        txns,
        #[trigger] down[a],
        #[trigger] down[b],
    ) by {
        assert(txns[i].order < down[a] < txns[i].order + txns[i].len);
    }
    assert(is_way(txns, parents, down));
    if x < first {
        reveal(shadows_sound);
        assert(came_before(txns, txns[i].parents, x));
        let rest = choose|way: Seq<int>| #[trigger]
            is_way(txns, txns[i].parents, way) && way.last() == x;
        let way = down + rest;
        assert forall|a: int, b: int| 0 <= a && b == a + 1 && b < way.len() implies on_top_of(
            txns,
            #[trigger] way[a],
            #[trigger] way[b],
        ) by {
            if b < down.len() {
                assert(on_top_of(txns, down[a], down[b]));
            } else if a >= down.len() {
                assert(on_top_of(txns, rest[a - down.len()], rest[b - down.len()]));
            } else {
                assert(way[a] == first && way[b] == rest[0]);
                assert(txns[i].order <= way[a]);
            }
        }
        assert(way[0] == p);
        assert(is_way(txns, parents, way));
        assert(way.last() == x);
    } else {
        assert(down.last() == x);
    }
}

/// The run that an operation is in.
proof fn lemma_run_of(txns: Seq<TxnState>, next: int, x: int) -> (i: int)
    requires
        txns_ok(txns, next),
        0 <= x < next,
    ensures
        0 <= i < txns.len(),
        txns[i].order <= x < txns[i].order + txns[i].len,
        txn_of(txns, x) == txns[i],
        txns[i].shadow <= txns[i].order,
{
    assert(txn_known(txns, x));
    let i = choose|i: int| 0 <= i < txns.len() && #[trigger] txn_holds(txns[i], x);
    assert(txns[i].shadow <= txns[i].order);
    i
}

/// The operations from the shadow on came before.
proof fn lemma_shadow_came_before(
    txns: Seq<TxnState>,
    parents: Seq<u32>,
    next: int,
    s: int,
    x: int,
)
    requires
        txns_ok(txns, next),
        next <= u32::MAX,
        shadows_sound(txns),
        0 <= s <= next,
        shadow_from(txns, parents, s) <= x < s,
    ensures
        came_before(txns, parents, x),
    decreases s,
{
    if s >= 1 && parents.contains((s - 1) as u32) {
        let i = lemma_run_of(txns, next, s - 1);
        let t = txns[i].shadow as int;
        if x >= t {
            lemma_run_came_before(txns, parents, next, i, s - 1, x);
        } else {
            lemma_shadow_came_before(txns, parents, next, t, x);
        }
    }
}

/// A transaction keeps the shadows sound.
pub proof fn lemma_shadows_sound(txns: Seq<TxnState>, txn: TxnState, next: int)
    requires
        txns_ok(txns, next),
        shadows_sound(txns),
        txn.order == next,
        txn.shadow == shadow_from(txns, txn.parents, next),
        next + txn.len <= u32::MAX,
    ensures
        shadows_sound(txn_pushed(txns, txn)),
{
    let now = txn_pushed(txns, txn);
    assert forall|i: int, x: int|
        0 <= i < now.len() && now[i].shadow <= x < now[i].order implies #[trigger] came_before(
        now,
        now[i].parents,
        x,
    ) by {
        if i < txns.len() {
            assert(came_before(txns, txns[i].parents, x)) by {
                reveal(shadows_sound);
            }
            lemma_came_before_kept(txns, txn, next, txns[i].parents, x);
        } else {
            lemma_shadow_came_before(txns, txn.parents, next, next, x);
            lemma_came_before_kept(txns, txn, next, txn.parents, x);
        }
    }
    reveal(shadows_sound);
}

/// Steps back from the operation `first` on top of some parents: as long as the operation
/// before is one of the parents, to the shadow of the run that it is in.
pub open spec fn steps_back(
    txns: Seq<TxnState>,
    parents: Seq<u32>,
    first: int,
    steps: Seq<int>,
) -> bool {
    &&& steps.len() > 0
    &&& steps[0] == first
    &&& forall|a: int, b: int|
        0 <= a && b == a + 1 && b < steps.len() ==> is_step(
            txns,
            parents,
            #[trigger] steps[a],
            #[trigger] steps[b],
        )
}

pub open spec fn is_step(txns: Seq<TxnState>, parents: Seq<u32>, from: int, to: int) -> bool {
    &&& from >= 1
    &&& parents.contains((from - 1) as u32)
    &&& exists|i: int|
        {
            &&& 0 <= i < txns.len()
            &&& (#[trigger] txns[i]).order <= from - 1 < txns[i].order + txns[i].len
            &&& to == txns[i].shadow
        }
}

/// The shadow is reached by steps back.
proof fn lemma_shadow_steps(txns: Seq<TxnState>, parents: Seq<u32>, next: int, s: int) -> (steps:
    Seq<int>)
    requires
        txns_ok(txns, next),
        0 <= s <= next <= u32::MAX,
    ensures
        steps_back(txns, parents, s, steps),
        steps.last() == shadow_from(txns, parents, s),
        0 <= shadow_from(txns, parents, s) <= s,
        shadow_from(txns, parents, s) >= 1 ==> !parents.contains(
            (shadow_from(txns, parents, s) - 1) as u32,
        ),
    decreases s,
{
    if s >= 1 && parents.contains((s - 1) as u32) {
        let i = lemma_run_of(txns, next, s - 1);
        let t = txns[i].shadow as int;
        let rest = lemma_shadow_steps(txns, parents, next, t);
        let steps = seq![s] + rest;
        assert(is_step(txns, parents, s, t));
        assert forall|a: int, b: int| 0 <= a && b == a + 1 && b < steps.len() implies is_step(
            txns,
            parents,
            #[trigger] steps[a],
            #[trigger] steps[b],
        ) by {
            if a > 0 {
                assert(is_step(txns, parents, rest[a - 1], rest[b - 1]));
            }
        }
        steps
    } else {
        seq![s]
    }
}

/// A transaction of `len` operations from `first` on, on top of `parents`, is on record: its
/// first operation is on top of just these, each of the others on top of the one before it,
/// and of no other operation has it changed what it is on top of.
pub open spec fn is_recorded(
    before: Seq<TxnState>,
    after: Seq<TxnState>,
    parents: Seq<u32>,
    first: int,
    len: int,
) -> bool {
    forall|x: int, y: int| #[trigger]
        on_top_of(after, x, y) == if x == first && len > 0 {
            0 <= y <= u32::MAX && parents.contains(y as u32)
        } else if first < x < first + len {
            y == x - 1
        } else {
            on_top_of(before, x, y)
        }
}

/// The shadow of a transaction is where steps back through its parents end: the operation
/// before the shadow is no parent, and all operations from the shadow on came before the
/// transaction.
pub open spec fn has_shadow(
    before: Seq<TxnState>,
    after: Seq<TxnState>,
    parents: Seq<u32>,
    first: int,
    shadow: int,
) -> bool {
    &&& 0 <= shadow <= first
    &&& shadow >= 1 ==> !parents.contains((shadow - 1) as u32)
    &&& exists|steps: Seq<int>| #[trigger]
        steps_back(before, parents, first, steps) && steps.last() == shadow
    &&& forall|x: int| shadow <= x < first ==> #[trigger] came_before(after, parents, x)
}

/// The transaction has operations, and was made part of one that has none and was on top of
/// other parents: only then it is not on record what it was on top of.
pub open spec fn is_hidden(
    before: Seq<TxnState>,
    after: Seq<TxnState>,
    parents: Seq<u32>,
    len: int,
) -> bool {
    &&& len > 0
    &&& before.len() > 0
    &&& after.len() == before.len()
    &&& before.last().len == 0
    &&& before.last().parents != parents
}

/// A transaction that is added to the history is on record there.
#[verifier::rlimit(30)]
pub proof fn law_txn_recorded(doc: DocState, parents: Option<Seq<u32>>, first: int, len: int)
    requires
        doc.history_ok(first),
        0 <= first,
        0 <= len,
        1 <= first + len <= u32::MAX,
    ensures
        ({
            let now = doc.with_txn(parents, first, len).txns;
            let on = match parents {
                Some(on) => on,
                None => doc.frontier,
            };
            &&& !is_hidden(doc.txns, now, on, len) ==> is_recorded(doc.txns, now, on, first, len)
            &&& now.len() > 0
            &&& has_shadow(doc.txns, now, on, first, now.last().shadow as int)
        }),
        parents is None ==> doc.with_txn(parents, first, len).frontier == seq![
            (first + len - 1) as u32,
        ],
{
    let on = match parents {
        Some(on) => on,
        None => doc.frontier,
    };
    let txns = doc.txns;
    let now = doc.with_txn(parents, first, len).txns;
    lemma_shadow_bound(txns, on, first, first);
    let steps = lemma_shadow_steps(txns, on, first, first);
    let txn = TxnState {
        order: first as u32,
        len: len as u32,
        shadow: shadow_from(txns, on, first) as u32,
        parents: on,
    };
    assert(now == txn_pushed(txns, txn));
    lemma_txn_pushed(txns, txn, first);
    assert(now.last().shadow == txn.shadow);
    assert forall|x: int| txn.shadow <= x < first implies #[trigger] came_before(now, on, x) by {
        lemma_shadow_came_before(txns, on, first, first, x);
        lemma_came_before_kept(txns, txn, first, on, x);
    }
    assert(has_shadow(txns, now, on, first, txn.shadow as int));
    if !is_hidden(txns, now, on, len) {
        assert forall|x: int, y: int| #[trigger]
            on_top_of(now, x, y) == if x == first && len > 0 {
                0 <= y <= u32::MAX && on.contains(y as u32)
            } else if first < x < first + len {
                y == x - 1
            } else {
                on_top_of(txns, x, y)
            } by {
            lemma_recorded_parents(txns, txn, first, x, y);
        }
    }
}

/// Where a transaction is on top of the operation right before it, among however many parents,
/// its shadow is no later than that of the run which that operation is in; where it is not, all
/// that is known to have come before it is what its parents say, and its shadow is its own
/// first operation.
pub proof fn law_shadow_reaches_back(
    doc: DocState,
    parents: Option<Seq<u32>>,
    first: int,
    len: int,
    i: int,
)
    requires
        doc.history_ok(first),
        1 <= first,
        0 <= len,
        first + len <= u32::MAX,
        0 <= i < doc.txns.len(),
        doc.txns[i].order <= first - 1 < doc.txns[i].order + doc.txns[i].len,
    ensures
        ({
            let now = doc.with_txn(parents, first, len).txns;
            let on = match parents {
                Some(on) => on,
                None => doc.frontier,
            };
            &&& now.len() > 0
            &&& if on.contains((first - 1) as u32) {
                now.last().shadow <= doc.txns[i].shadow
            } else {
                now.last().shadow == first
            }
        }),
{
    let on = match parents {
        Some(on) => on,
        None => doc.frontier,
    };
    let txns = doc.txns;
    lemma_shadow_bound(txns, on, first, first);
    if on.contains((first - 1) as u32) {
        let j = lemma_run_of(txns, first, first - 1);
        if i < j {
            assert(txns[i].order + txns[i].len <= txns[j].order);
        } else if j < i {
            assert(txns[j].order + txns[j].len <= txns[i].order);
        }
        lemma_shadow_bound(txns, on, txns[i].shadow as int, first);
    }
}

/// What the history tells of an operation after a transaction.
#[verifier::rlimit(30)]
proof fn lemma_recorded_parents(txns: Seq<TxnState>, txn: TxnState, first: int, x: int, y: int)
    requires
        txns_ok(txns, first),
        txn.order == first,
        first + txn.len <= u32::MAX,
        !is_hidden(txns, txn_pushed(txns, txn), txn.parents, txn.len as int),
    ensures
        on_top_of(txn_pushed(txns, txn), x, y) == if x == first && txn.len > 0 {
            0 <= y <= u32::MAX && txn.parents.contains(y as u32)
        } else if first < x < first + txn.len {
            y == x - 1
        } else {
            on_top_of(txns, x, y)
        },
{
    let now = txn_pushed(txns, txn);
    let m = now.len() - 1;
    let n = txns.len() as int;
    if n > 0 {
        assert(txns[n - 1].order + txns[n - 1].len <= first);
    }
    if on_top_of(txns, x, y) {
        lemma_on_top_of_kept(txns, txn, first, x, y);
        let i = choose|i: int|
            {
                &&& 0 <= i < txns.len()
                &&& (#[trigger] txns[i]).order <= x < txns[i].order + txns[i].len
                &&& 0 <= y <= u32::MAX
                &&& if x == txns[i].order {
                    txns[i].parents.contains(y as u32)
                } else {
                    y == x - 1
                }
            };
        assert(txns[i].order + txns[i].len <= first);
    }
    if first <= x < first + txn.len {
        assert(now[m].order <= x < now[m].order + now[m].len);
        if now.len() == n {
            assert(txn.parents =~= seq![(first - 1) as u32]);
            assert(txn.parents[0] == first - 1);
            if txns.last().len > 0 {
                assert(now[m].order < first);
            }
        }
    }
    if on_top_of(now, x, y) {
        let i = choose|i: int|
            {
                &&& 0 <= i < now.len()
                &&& (#[trigger] now[i]).order <= x < now[i].order + now[i].len
                &&& 0 <= y <= u32::MAX
                &&& if x == now[i].order {
                    now[i].parents.contains(y as u32)
                } else {
                    y == x - 1
                }
            };
        if i < n {
            assert(txns[i].order + txns[i].len <= first);
            if x < first {
                assert(txns[i].order <= x < txns[i].order + txns[i].len);
            }
        }
    }
}

/// A local transaction is on record as being on top of all that the document had.
pub proof fn law_local_txn_recorded(doc: DocState, agent: int, ops: Seq<Edit>)
    requires
        doc.ok(),
        0 <= agent < doc.clients.len(),
        doc.local_ops_ok(ops),
    ensures
        ({
            let after = doc.after_local_txn(agent, ops);
            let first = doc.next_order();
            let len = ops_len(ops, ops.len() as int);
            &&& !is_hidden(doc.txns, after.txns, doc.frontier, len) ==> is_recorded(
                doc.txns,
                after.txns,
                doc.frontier,
                first,
                len,
            )
            &&& after.txns.len() > 0
            &&& has_shadow(
                doc.txns,
                after.txns,
                doc.frontier,
                first,
                after.txns.last().shadow as int,
            )
            &&& after.frontier == seq![(first + len - 1) as u32]
        }),
{
    let first = doc.next_order();
    let n = ops.len() as int;
    let len = ops_len(ops, n);
    let start = doc.assigned(agent, doc.next_seq(agent), first, len);
    lemma_ops_len_nonneg(ops, n);
    start.lemma_edited_by(agent, ops, n, first);
    law_txn_recorded(start.edited_by(agent, ops, n, first), None, first, len);
}

/// A remote transaction is on record as being on top of the operations that it names as its
/// parents, and at the head of the history its last operation takes their place.
#[verifier::rlimit(30)]
pub proof fn law_remote_txn_recorded(doc: DocState, txn: RemoteTxn) -> (parents: Seq<u32>)
    requires
        doc.ok(),
        doc.remote_txn_ok(txn),
    ensures
        ({
            let after = doc.after_remote_txn(txn);
            let first = doc.next_order();
            let len = remote_ops_len(txn.ops@, txn.ops@.len() as int);
            &&& parents.len() == txn.parents@.len()
            &&& forall|i: int|
                0 <= i < parents.len() ==> Some(#[trigger] parents[i] as int) == after.resolved(
                    txn.parents@[i].agent@,
                    txn.parents@[i].seq as int,
                )
            &&& !is_hidden(doc.txns, after.txns, parents, len) ==> is_recorded(
                doc.txns,
                after.txns,
                parents,
                first,
                len,
            )
            &&& after.txns.len() > 0
            &&& has_shadow(doc.txns, after.txns, parents, first, after.txns.last().shadow as int)
            &&& after.frontier == doc.frontier.filter(|x: u32| !parents.contains(x)).push(
                (first + len - 1) as u32,
            )
        }),
{
    let ops = txn.ops@;
    let n = ops.len() as int;
    let first = doc.next_order();
    let len = remote_ops_len(ops, n);
    let agent = doc.remote_agent(txn);
    let start = doc.before_remote_ops(txn);
    let changed = start.changed_by(agent, ops, n, first);
    let after = doc.after_remote_txn(txn);
    let parents = changed.all_resolved(txn.parents@);
    lemma_remote_ops_len_nonneg(ops, n);
    start.lemma_changed_by(agent, ops, n, first);
    lemma_with_agent(doc, txn.id.agent@);
    lemma_assigned(doc.with_agent(txn.id.agent@), agent, len);
    assert forall|i: int| 0 <= i < parents.len() implies Some(#[trigger] parents[i] as int)
        == after.resolved(txn.parents@[i].agent@, txn.parents@[i].seq as int) by {
        let id = txn.parents@[i];
        assert(start.resolved(id.agent@, id.seq as int) is Some);
        lemma_resolved_order(start, id.agent@, id.seq as int);
        assert(start.resolved(id.agent@, id.seq as int) == after.resolved(
            id.agent@,
            id.seq as int,
        ));
    }
    assert(outside(doc.frontier, parents) == doc.frontier.filter(
        |x: u32| !parents.contains(x),
    ));
    law_txn_recorded(changed, Some(parents), first, len);
    parents
}

/// All operations from the shadow of a run up to its first one came before it.
pub proof fn law_shadow_came_before(doc: DocState, i: int, x: int)
    requires
        doc.ok(),
        0 <= i < doc.txns.len(),
        doc.txns[i].shadow <= x < doc.txns[i].order,
    ensures
        came_before(doc.txns, doc.txns[i].parents, x),
{
    reveal(shadows_sound);
}

} // verus!
