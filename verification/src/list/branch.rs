//! Sets of operations that, with everything before them, make up a version of a document.

use crate::list::Order;
use smallvec::SmallVec;
use vstd::prelude::*;

verus! {

/// The last operations of a version, in the order in which they came in.
#[verifier::external_body]
#[derive(Debug, PartialEq, Eq)]
pub struct Branch {
    orders: SmallVec<[Order; 4]>,
}

/// The elements of the `SmallVec` that the branch holds, in their order.
pub uninterp spec fn branch_orders(branch: Branch) -> Seq<u32>;

impl View for Branch {
    type V = Seq<u32>;

    open spec fn view(&self) -> Seq<u32> {
        branch_orders(*self)
    }
}

/// The orders of a row that are not in another one.
pub open spec fn outside(orders: Seq<u32>, other: Seq<u32>) -> Seq<u32> {
    orders.filter(|order: u32| !other.contains(order))
}

/// What is left is from the row, and not in the other one.
pub proof fn lemma_outside(orders: Seq<u32>, other: Seq<u32>, i: int)
    requires
        0 <= i < outside(orders, other).len(),
    ensures
        orders.contains(outside(orders, other)[i]),
        !other.contains(outside(orders, other)[i]),
    decreases orders.len(),
{
    reveal(Seq::filter);
    if orders.len() > 0 {
        let head = orders.drop_last();
        let kept = outside(head, other);
        if i < kept.len() {
            lemma_outside(head, other, i);
            let j = choose|j: int| 0 <= j < head.len() && head[j] == kept[i];
            assert(orders[j] == kept[i]);
        } else {
            assert(orders[orders.len() - 1] == outside(orders, other)[i]);
        }
    }
}

impl Branch {
    /// `SmallVec::new`: no elements.
    #[verifier::external_body]
    pub(crate) fn new() -> (branch: Self)
        ensures
            branch_orders(branch) == Seq::<u32>::empty(),
    {
        Branch { orders: SmallVec::new() }
    }

    /// `SmallVec::push`: the element comes behind all others.
    #[verifier::external_body]
    pub(crate) fn push(&mut self, order: Order)
        ensures
            branch_orders(*final(self)) == branch_orders(*old(self)).push(order),
    {
        self.orders.push(order)
    }

    /// `SmallVec::as_slice`: the elements as a slice.
    #[verifier::external_body]
    pub(crate) fn as_slice(&self) -> (orders: &[Order])
        ensures
            orders@ == branch_orders(*self),
    {
        self.orders.as_slice()
    }

    /// `SmallVec::retain`: of the elements, those stay, in their order, for which the
    /// predicate holds: here those that the other branch does not contain.
    #[verifier::external_body]
    pub(crate) fn retain_outside(&mut self, other: &Branch)
        ensures
            branch_orders(*final(self)) == outside(branch_orders(*old(self)), branch_orders(*other)),
    {
        self.orders.retain(|order| other.lacks(*order))
    }

    /// A branch with one operation.
    pub(crate) fn one(order: Order) -> (branch: Self)
        ensures
            branch@ == seq![order],
    {
        let mut branch = Branch::new();
        branch.push(order);
        assert(branch@ =~= seq![order]);
        branch
    }

    /// Whether an operation is one of the branch's own.
    pub fn contains(&self, order: Order) -> (found: bool)
        ensures
            found == self@.contains(order),
    {
        let orders = self.as_slice();
        let mut i: usize = 0;
        while i < orders.len()
            invariant
                i <= orders@.len(),
                orders@ == self@,
                forall|j: int| 0 <= j < i ==> self@[j] != order,
            decreases orders@.len() - i,
        {
            if orders[i] == order {
                assert(self@[i as int] == order);
                return true;
            }
            i = i + 1;
        }
        false
    }

    /// Whether an operation is none of the branch's own.
    pub fn lacks(&self, order: Order) -> (lacking: bool)
        ensures
            lacking == !self@.contains(order),
    {
        !self.contains(order)
    }

    /// The number of operations.
    pub fn len(&self) -> (len: usize)
        ensures
            len == self@.len(),
    {
        self.as_slice().len()
    }

    /// The operation at an index.
    pub fn get(&self, i: usize) -> (order: Order)
        requires
            i < self@.len(),
        ensures
            order == self@[i as int],
    {
        self.as_slice()[i]
    }
}

} // verus!
