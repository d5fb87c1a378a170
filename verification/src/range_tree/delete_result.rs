//! The spans that one deletion took out of a document.

use crate::list::span::YjsSpan;
use crate::splitable_span::{can_glue, glues, MergableSpan};
use smallvec::SmallVec;
use vstd::prelude::*;

verus! {

/// The spans that a deletion took out, in their order in the document.
#[verifier::external_body]
#[derive(Debug, PartialEq, Eq)]
pub struct DeleteResult {
    spans: SmallVec<[YjsSpan; 2]>,
}

/// The elements of the `SmallVec` that the result holds, in their order.
pub uninterp spec fn deleted_spans(result: DeleteResult) -> Seq<YjsSpan>;

impl View for DeleteResult {
    type V = Seq<YjsSpan>;

    open spec fn view(&self) -> Seq<YjsSpan> {
        deleted_spans(*self)
    }
}

/// A list of spans with one more span, glued to the last one where it continues it.
pub open spec fn extended(spans: Seq<YjsSpan>, span: YjsSpan) -> Seq<YjsSpan> {
    if spans.len() > 0 && glues(spans.last(), span) {
        spans.drop_last().push(spans.last().joined(&span))
    } else {
        spans.push(span)
    }
}

impl DeleteResult {
    /// `SmallVec::new`: no elements.
    #[verifier::external_body]
    pub(crate) fn new() -> (result: Self)
        ensures
            deleted_spans(result) == Seq::<YjsSpan>::empty(),
    {
        DeleteResult { spans: SmallVec::new() }
    }

    /// `SmallVec::push`: the element comes behind all others.
    #[verifier::external_body]
    fn push(&mut self, span: YjsSpan)
        ensures
            deleted_spans(*final(self)) == deleted_spans(*old(self)).push(span),
    {
        self.spans.push(span)
    }

    /// `SmallVec::pop`: the last element is taken out and returned; where there is none,
    /// `None` is.
    #[verifier::external_body]
    fn pop(&mut self) -> (last: Option<YjsSpan>)
        ensures
            match last {
                Some(span) => deleted_spans(*old(self)) == deleted_spans(*final(self)).push(span),
                None => deleted_spans(*old(self)).len() == 0 && deleted_spans(*final(self))
                    == deleted_spans(*old(self)),
            },
    {
        self.spans.pop()
    }

    /// `SmallVec::as_slice`: the elements as a slice.
    #[verifier::external_body]
    pub(crate) fn as_slice(&self) -> (spans: &[YjsSpan])
        ensures
            spans@ == deleted_spans(*self),
    {
        self.spans.as_slice()
    }

    /// The number of spans.
    pub fn num_spans(&self) -> (num: usize)
        ensures
            num == self@.len(),
    {
        self.as_slice().len()
    }

    /// The span at an index.
    pub fn get(&self, i: usize) -> (span: YjsSpan)
        requires
            i < self@.len(),
        ensures
            span == self@[i as int],
    {
        self.as_slice()[i]
    }
}

impl Default for DeleteResult {
    /// Nothing was deleted.
    fn default() -> (result: Self)
        ensures
            result@ == Seq::<YjsSpan>::empty(),
    {
        DeleteResult::new()
    }
}

/// Adds a span to the result, glued to the last one where it continues it.
pub fn extend_delete(delete: &mut DeleteResult, entry: YjsSpan)
    requires
        entry.span_ok(),
        old(delete)@.len() > 0 ==> old(delete)@.last().span_ok(),
    ensures
        final(delete)@ == extended(old(delete)@, entry),
{
    match delete.pop() {
        Some(mut last) => {
            assert(old(delete)@.last() == last);
            assert(old(delete)@.drop_last() =~= delete@);
            if can_glue(&last, &entry) {
                last.append(entry);
                delete.push(last);
            } else {
                delete.push(last);
                delete.push(entry);
                assert(delete@ =~= old(delete)@.push(entry));
            }
        },
        None => {
            delete.push(entry);
        },
    }
}

} // verus!
