//! Amounts of money, in the smallest unit of the currency.
use vstd::prelude::*;

verus! {

/// A signed amount in the smallest currency unit.
#[derive(Debug, Clone, Copy, PartialEq, Eq, PartialOrd, Structural)]
pub struct Money(i32);

impl View for Money {
    type V = int;

    closed spec fn view(&self) -> int {
        self.0 as int
    }
}

impl Money {
    /// The amount `m`.
    pub fn new(m: i32) -> (r: Money)
        ensures
            r@ == m as int,
    {
        Money(m)
    }

    /// The amount as an integer.
    pub fn raw(&self) -> (r: i32)
        ensures
            r as int == self@,
    {
        self.0
    }
}

/// Two amounts are equal exactly when their values are.
pub proof fn lemma_money_eq(a: Money, b: Money)
    ensures
        (a == b) <==> (a@ == b@),
{
}

} // verus!
