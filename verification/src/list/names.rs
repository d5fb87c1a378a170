//! Comparing the names of peers.

use vstd::prelude::*;
use vstd::string::*;
use vstd::utf8::{encode_utf8, encode_utf8_decode_utf8};

verus! {

/// A row of bytes sorts behind another one: at the first place where they differ it has
/// the larger byte, or the other one has ended.
pub open spec fn sorts_behind(a: Seq<u8>, b: Seq<u8>) -> bool {
    exists|k: int|
        0 <= k < a.len() && k <= b.len() && (forall|j: int| 0 <= j < k ==> a[j] == b[j]) && (
        k == b.len() || #[trigger] a[k] > b[k])
}

/// A name sorts behind another one, by the bytes of their encoding.
pub open spec fn name_behind(a: Seq<char>, b: Seq<char>) -> bool {
    sorts_behind(encode_utf8(a), encode_utf8(b))
}

/// Whether a name sorts behind another one.
pub(crate) fn is_behind(a: &str, b: &str) -> (behind: bool)
    ensures
        behind == name_behind(a@, b@),
{
    let x = a.as_bytes();
    let y = b.as_bytes();
    let mut k: usize = 0;
    while k < x.len()
        invariant
            x@ == encode_utf8(a@),
            y@ == encode_utf8(b@),
            k <= x@.len(),
            k <= y@.len(),
            forall|j: int| 0 <= j < k ==> x@[j] == y@[j],
        decreases x@.len() - k,
    {
        if k == y.len() {
            assert(x@[k as int] >= 0);
            assert(sorts_behind(x@, y@));
            return true;
        }
        if x[k] > y[k] {
            assert(x@[k as int] > y@[k as int]);
            assert(sorts_behind(x@, y@));
            return true;
        }
        if x[k] < y[k] {
            assert(!sorts_behind(x@, y@)) by {
                assert(x@[k as int] != y@[k as int]);
            }
            return false;
        }
        k = k + 1;
    }
    false
}

/// Whether two names are equal.
pub(crate) fn is_same(a: &str, b: &str) -> (same: bool)
    ensures
        same == (a@ == b@),
{
    a.to_owned() == b.to_owned()
}

/// Where two rows of bytes differ for the first time, the one with the larger byte sorts
/// behind; where one of them has ended there, the other one does.
pub proof fn law_first_difference_sorts(
    head: Seq<u8>,
    x: u8,
    y: u8,
    rest: Seq<u8>,
    other_rest: Seq<u8>,
)
    ensures
        x != y ==> sorts_behind(head.push(x) + rest, head.push(y) + other_rest) == (x > y),
        sorts_behind(head.push(x) + rest, head),
        !sorts_behind(head, head.push(x) + rest),
        !sorts_behind(head, head),
{
    let a = head.push(x) + rest;
    let b = head.push(y) + other_rest;
    let n = head.len() as int;
    assert(a[n] == x && b[n] == y);
    assert(forall|j: int| 0 <= j < n ==> a[j] == head[j] && b[j] == head[j]);
    if x != y && sorts_behind(a, b) {
        let k = choose|k: int|
            0 <= k < a.len() && k <= b.len() && (forall|j: int| 0 <= j < k ==> a[j] == b[j]) && (k
                == b.len() || #[trigger] a[k] > b[k]);
        assert(k <= n) by {
            if k > n {
                assert(a[n] == b[n]);
            }
        }
    }
    if x > y {
        assert(a[n] > b[n]);
    }
    assert(sorts_behind(a, head)) by {
        assert(a[n] == x);
    }
}

/// Two rows of bytes that do not differ before either of them ends, or their first
/// difference.
proof fn lemma_difference(a: Seq<u8>, b: Seq<u8>, k: int) -> (m: int)
    requires
        0 <= k <= a.len(),
        k <= b.len(),
        forall|j: int| 0 <= j < k ==> a[j] == b[j],
    ensures
        k <= m <= a.len(),
        m <= b.len(),
        forall|j: int| 0 <= j < m ==> a[j] == b[j],
        m == a.len() || m == b.len() || a[m] != b[m],
    decreases a.len() - k,
{
    if k < a.len() && k < b.len() && a[k] == b[k] {
        lemma_difference(a, b, k + 1)
    } else {
        k
    }
}

/// Of two different names one sorts behind the other, and the other one does not.
pub proof fn law_names_are_ordered(a: Seq<char>, b: Seq<char>)
    ensures
        a == b ==> !name_behind(a, b),
        a != b ==> name_behind(a, b) != name_behind(b, a),
{
    let x = encode_utf8(a);
    let y = encode_utf8(b);
    encode_utf8_decode_utf8(a);
    encode_utf8_decode_utf8(b);
    let m = lemma_difference(x, y, 0);
    if m == x.len() && m == y.len() {
        assert(x =~= y);
    } else if m == x.len() {
        assert(sorts_behind(y, x)) by {
            assert(y[m] >= 0);
        }
    } else if m == y.len() {
        assert(sorts_behind(x, y)) by {
            assert(x[m] >= 0);
        }
    } else {
        assert(x[m] != y[m]);
        assert(x[m] > y[m] ==> sorts_behind(x, y));
        assert(y[m] > x[m] ==> sorts_behind(y, x));
    }
}

/// Where a row of bytes that sorts behind another one differs from it.
proof fn lemma_behind_at(a: Seq<u8>, b: Seq<u8>) -> (m: int)
    requires
        sorts_behind(a, b),
    ensures
        0 <= m < a.len(),
        m <= b.len(),
        forall|j: int| 0 <= j < m ==> a[j] == b[j],
        m == b.len() || a[m] > b[m],
{
    let m = lemma_difference(a, b, 0);
    m
}

/// A name that sorts behind one that sorts behind a third one sorts behind the third one.
pub proof fn law_names_chain(a: Seq<char>, b: Seq<char>, c: Seq<char>)
    requires
        name_behind(a, b),
        name_behind(b, c),
    ensures
        name_behind(a, c),
{
    let x = encode_utf8(a);
    let y = encode_utf8(b);
    let z = encode_utf8(c);
    assert(sorts_behind(x, y) && sorts_behind(y, z));
    let k = lemma_behind_at(x, y);
    let l = lemma_behind_at(y, z);
    let m = if k < l { k } else { l };
    assert(x[m] >= 0);
    assert(forall|j: int| 0 <= j < m ==> x[j] == z[j]);
    assert(m == z.len() || x[m] > z[m]);
}

} // verus!
