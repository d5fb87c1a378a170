//! Taking items out of a row.

use crate::list::laws::new_orders;
use vstd::prelude::*;

verus! {

/// The items that are not among `len` consecutive ones.
pub open spec fn not_among(target: int, len: int) -> spec_fn(u32) -> bool {
    |x: u32| !(target <= x < target + len)
}

/// Where all of a row are kept, the row stays as it is.
pub proof fn lemma_filter_all(row: Seq<u32>, keep: spec_fn(u32) -> bool)
    requires
        forall|i: int| 0 <= i < row.len() ==> keep(#[trigger] row[i]),
    ensures
        row.filter(keep) == row,
    decreases row.len(),
{
    reveal(Seq::filter);
    if row.len() > 0 {
        let head = row.drop_last();
        assert forall|i: int| 0 <= i < head.len() implies keep(#[trigger] head[i]) by {
            assert(keep(row[i]));
        }
        lemma_filter_all(head, keep);
        assert(keep(row[row.len() - 1]));
        assert(head.push(row.last()) =~= row);
    }
}

/// Where none of a row is kept, nothing is left.
pub proof fn lemma_filter_none(row: Seq<u32>, keep: spec_fn(u32) -> bool)
    requires
        forall|i: int| 0 <= i < row.len() ==> !keep(#[trigger] row[i]),
    ensures
        row.filter(keep) == Seq::<u32>::empty(),
    decreases row.len(),
{
    reveal(Seq::filter);
    if row.len() > 0 {
        let head = row.drop_last();
        assert forall|i: int| 0 <= i < head.len() implies !keep(#[trigger] head[i]) by {
            assert(!keep(row[i]));
        }
        lemma_filter_none(head, keep);
        assert(!keep(row[row.len() - 1]));
    } else {
        assert(row =~= Seq::empty());
    }
}

/// Taking out consecutive items in two steps.
pub proof fn lemma_filter_twice(row: Seq<u32>, target: int, n: int, len: int)
    requires
        0 <= n <= len,
    ensures
        row.filter(not_among(target, n)).filter(not_among(target + n, len - n)) == row.filter(
            not_among(target, len),
        ),
    decreases row.len(),
{
    reveal(Seq::filter);
    if row.len() > 0 {
        let head = row.drop_last();
        lemma_filter_twice(head, target, n, len);
        let kept = head.filter(not_among(target, n));
        assert(kept.push(row.last()).drop_last() =~= kept);
    }
}

/// Taking a part out of a row whose items are all different takes out its items.
pub proof fn lemma_filter_part(row: Seq<u32>, v: int, n: int, target: int)
    requires
        0 <= v,
        0 <= n,
        v + n <= row.len(),
        0 <= target,
        target + n <= u32::MAX,
        forall|i: int, j: int| 0 <= i < j < row.len() ==> row[i] != row[j],
        row.subrange(v, v + n) == new_orders(target, n),
    ensures
        row.filter(not_among(target, n)) == row.take(v) + row.skip(v + n),
{
    let keep = not_among(target, n);
    let a = row.take(v);
    let b = row.subrange(v, v + n);
    let c = row.skip(v + n);
    assert(row =~= a + b + c);
    Seq::filter_distributes_over_add(a + b, c, keep);
    Seq::filter_distributes_over_add(a, b, keep);
    assert forall|i: int| 0 <= i < a.len() implies keep(#[trigger] a[i]) by {
        if target <= a[i] < target + n {
            assert(b[a[i] - target] == a[i]);
            assert(row[v + (a[i] - target)] == row[i]);
        }
    }
    assert forall|i: int| 0 <= i < c.len() implies keep(#[trigger] c[i]) by {
        if target <= c[i] < target + n {
            assert(b[c[i] - target] == c[i]);
            assert(row[v + (c[i] - target)] == row[v + n + i]);
        }
    }
    assert forall|i: int| 0 <= i < b.len() implies !keep(#[trigger] b[i]) by {
        assert(b[i] == new_orders(target, n)[i]);
    }
    lemma_filter_all(a, keep);
    lemma_filter_none(b, keep);
    lemma_filter_all(c, keep);
    assert(a + Seq::<u32>::empty() + c =~= a + c);
}

} // verus!
