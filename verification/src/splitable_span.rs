//! Runs of items that can be glued together and cut in two again.

use vstd::prelude::*;

verus! {

/// A run of consecutive items, stored as one value.
pub trait MergableSpan: Sized {
    /// How many items the run holds.
    spec fn span_len(&self) -> nat;

    /// The run's numbers fit the machine types that the operations compute in.
    spec fn span_ok(&self) -> bool;

    /// The longest run that the type can hold.
    spec fn max_span_len() -> nat;

    /// `other` continues this run directly.
    spec fn appends(&self, other: &Self) -> bool;

    /// This run followed by `other`.
    spec fn joined(&self, other: &Self) -> Self;

    /// A run is no longer than its type allows, and its length is an order.
    proof fn lemma_len_bound(&self)
        requires
            self.span_ok(),
        ensures
            self.span_len() <= Self::max_span_len() <= u32::MAX,
    ;

    /// Gluing two runs gives a run of their joint length.
    proof fn lemma_join(&self, other: &Self)
        requires
            self.span_ok(),
            other.span_ok(),
            self.appends(other),
            self.span_len() + other.span_len() <= Self::max_span_len(),
        ensures
            self.joined(other).span_ok(),
            self.joined(other).span_len() == self.span_len() + other.span_len(),
    ;

    /// `other` can be put behind this run.
    spec fn append_ok(&self, other: &Self) -> bool;

    /// `other` can be put before this run.
    spec fn prepend_ok(&self, other: &Self) -> bool;

    /// This run with `other` before it.
    spec fn prepended(&self, other: &Self) -> Self;

    /// A run that continues another one can be put behind it, or the other one before it,
    /// which comes to the same.
    proof fn lemma_append_ok(&self, other: &Self)
        requires
            self.span_ok(),
            other.span_ok(),
            self.appends(other),
            self.span_len() + other.span_len() <= Self::max_span_len(),
        ensures
            self.append_ok(other),
            other.prepend_ok(self),
            other.prepended(self) == self.joined(other),
    ;

    /// How many items the longest run holds.
    fn max_len() -> (max: usize)
        ensures
            max == Self::max_span_len(),
    ;

    /// The number of items in the run.
    fn len(&self) -> (len: usize)
        requires
            self.span_ok(),
        ensures
            len == self.span_len(),
    ;

    /// Whether `other` can be appended to this run.
    fn can_append(&self, other: &Self) -> (can: bool)
        requires
            self.span_ok(),
            other.span_ok(),
        ensures
            can == self.appends(other),
    ;

    /// Glues `other` to the end of this run.
    fn append(&mut self, other: Self)
        requires
            old(self).span_ok(),
            other.span_ok(),
            old(self).append_ok(&other),
        ensures
            *final(self) == old(self).joined(&other),
    ;

    /// Glues `other` to the front of this run.
    fn prepend(&mut self, other: Self)
        requires
            old(self).span_ok(),
            other.span_ok(),
            old(self).prepend_ok(&other),
        ensures
            *final(self) == old(self).prepended(&other),
    ;
}

/// `other` continues the run, and both together are no longer than a run can be.
pub open spec fn glues<V: MergableSpan>(run: V, other: V) -> bool {
    run.appends(&other) && run.span_len() + other.span_len() <= V::max_span_len()
}

/// Whether `other` can be glued to the run.
pub(crate) fn can_glue<V: MergableSpan>(run: &V, other: &V) -> (can: bool)
    requires
        run.span_ok(),
        other.span_ok(),
    ensures
        can == glues(*run, *other),
{
    proof {
        run.lemma_len_bound();
    }
    run.can_append(other) && other.len() <= V::max_len() - run.len()
}

/// A run that can be cut in two.
pub trait SplitableSpan: MergableSpan {
    /// The first `at` items.
    spec fn left_of(&self, at: int) -> Self;

    /// All but the first `at` items.
    spec fn right_of(&self, at: int) -> Self;

    /// The run can be cut here.
    spec fn can_cut(&self, at: int) -> bool;

    /// A run can be cut between any two of its items, and nowhere outside it.
    proof fn lemma_can_cut(&self, at: int)
        requires
            self.span_ok(),
        ensures
            0 < at < self.span_len() ==> self.can_cut(at),
            self.can_cut(at) ==> 0 <= at <= self.span_len(),
    ;

    /// Cutting a run gives two runs that can be glued back to the run itself.
    proof fn lemma_split(&self, at: int)
        requires
            self.span_ok(),
            0 < at < self.span_len() || self.can_cut(at),
        ensures
            self.left_of(at).span_ok(),
            self.left_of(at).span_len() == at,
            self.right_of(at).span_ok(),
            self.right_of(at).span_len() == self.span_len() - at,
            self.left_of(at).appends(&self.right_of(at)),
            self.left_of(at).joined(&self.right_of(at)) == *self,
    ;

    /// Cutting two runs that were glued where they were glued gives the two runs.
    proof fn lemma_join_split(&self, other: &Self)
        requires
            self.span_ok(),
            other.span_ok(),
            self.appends(other),
            0 < self.span_len(),
            0 < other.span_len(),
            self.span_len() + other.span_len() <= Self::max_span_len(),
        ensures
            self.joined(other).left_of(self.span_len() as int) == *self,
            self.joined(other).right_of(self.span_len() as int) == *other,
    ;

    /// Cuts the run: keeps the first `at` items and returns the rest.
    fn truncate(&mut self, at: usize) -> (rest: Self)
        requires
            old(self).span_ok(),
            old(self).can_cut(at as int),
        ensures
            *final(self) == old(self).left_of(at as int),
            rest == old(self).right_of(at as int),
    ;
}

} // verus!
