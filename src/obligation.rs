//! Directed debts: "from owes to amount".
use crate::money::Money;
use crate::person::Person;
use vstd::prelude::*;

verus! {

/// A debt as the contracts see it: debtor, creditor, amount.
pub type Debt = (Seq<char>, Seq<char>, int);

/// `from` owes `to` the amount `amount`.
#[derive(Debug, Clone, PartialEq, Eq)]
pub struct Obligation {
    pub from: Person,
    pub to: Person,
    pub amount: Money,
}

impl View for Obligation {
    type V = Debt;

    open spec fn view(&self) -> Debt {
        (self.from@, self.to@, self.amount@)
    }
}

impl Obligation {
    /// A builder with empty labels and a zero amount.
    pub fn builder() -> (r: ObligationBuilder)
        ensures
            r@ == (Seq::<char>::empty(), Seq::<char>::empty(), 0int),
    {
        proof {
            reveal_strlit("");
        }
        ObligationBuilder::new(Person::new(""), Person::new(""), Money::new(0))
    }

    /// A second obligation with the same debtor, creditor and amount.
    pub fn copy(&self) -> (r: Obligation)
        ensures
            r@ == self@,
    {
        Obligation { from: self.from.copy(), to: self.to.copy(), amount: self.amount }
    }
}

/// Builds an `Obligation` one field at a time.
pub struct ObligationBuilder {
    from: Person,
    to: Person,
    amount: Money,
}

impl View for ObligationBuilder {
    type V = Debt;

    closed spec fn view(&self) -> Debt {
        (self.from@, self.to@, self.amount@)
    }
}

impl ObligationBuilder {
    /// A builder holding the three fields.
    pub fn new(from: Person, to: Person, amount: Money) -> (r: ObligationBuilder)
        ensures
            r@ == (from@, to@, amount@),
    {
        ObligationBuilder { from, to, amount }
    }

    /// Sets the debtor.
    pub fn from(self, from: Person) -> (r: ObligationBuilder)
        ensures
            r@ == (from@, self@.1, self@.2),
    {
        ObligationBuilder { from, to: self.to, amount: self.amount }
    }

    /// Sets the creditor.
    pub fn to(self, to: Person) -> (r: ObligationBuilder)
        ensures
            r@ == (self@.0, to@, self@.2),
    {
        ObligationBuilder { from: self.from, to, amount: self.amount }
    }

    /// Sets the amount.
    pub fn amount(self, amount: Money) -> (r: ObligationBuilder)
        ensures
            r@ == (self@.0, self@.1, amount@),
    {
        ObligationBuilder { from: self.from, to: self.to, amount }
    }

    /// The obligation with the fields set so far.
    pub fn build(self) -> (r: Obligation)
        ensures
            r@ == self@,
    {
        Obligation { from: self.from, to: self.to, amount: self.amount }
    }
}

/// The debts of each obligation of `v`, in order.
pub open spec fn debts_of(v: Seq<Obligation>) -> Seq<Debt> {
    v.map_values(|o: Obligation| o@)
}

/// Copies a list of obligations.
fn copy_all(v: &[Obligation]) -> (r: Vec<Obligation>)
    ensures
        debts_of(r@) == debts_of(v@),
{
    let mut r: Vec<Obligation> = Vec::new();
    let mut i: usize = 0;
    while i < v.len()
        invariant
            i <= v@.len(),
            r@.len() == i,
            forall|j: int| 0 <= j < i ==> (#[trigger] r@[j])@ == v@[j]@,
        decreases v@.len() - i,
    {
        r.push(v[i].copy());
        i = i + 1;
    }
    assert(debts_of(r@) =~= debts_of(v@));
    r
}

/// An ordered list of obligations.
#[derive(Debug, PartialEq, Eq)]
pub struct Obligations(Vec<Obligation>);

impl View for Obligations {
    type V = Seq<Debt>;

    closed spec fn view(&self) -> Seq<Debt> {
        debts_of(self.0@)
    }
}

impl Obligations {
    /// The obligations of `obligations`, in order.
    pub fn new(obligations: &[Obligation]) -> (r: Obligations)
        ensures
            r@ == debts_of(obligations@),
    {
        Obligations(copy_all(obligations))
    }

    /// A builder with no obligations yet.
    pub fn builder() -> (r: ObligationsBuilder)
        ensures
            r@ == Seq::<Debt>::empty(),
    {
        ObligationsBuilder { obligations: Vec::new() }
    }

    /// The obligations, in order.
    pub fn raw(&self) -> (r: &Vec<Obligation>)
        ensures
            debts_of(r@) == self@,
    {
        &self.0
    }
}

/// Collects obligations in the order they are recorded.
pub struct ObligationsBuilder {
    obligations: Vec<Obligation>,
}

impl View for ObligationsBuilder {
    type V = Seq<Debt>;

    closed spec fn view(&self) -> Seq<Debt> {
        debts_of(self.obligations@)
    }
}

impl ObligationsBuilder {
    /// Appends `o`.
    pub fn record(self, o: Obligation) -> (r: ObligationsBuilder)
        ensures
            r@ == self@.push(o@),
    {
        let mut obligations = self.obligations;
        obligations.push(o);
        let r = ObligationsBuilder { obligations };
        assert(r@ =~= self@.push(o@));
        r
    }

    /// The obligations recorded so far.
    pub fn build(&mut self) -> (r: Obligations)
        ensures
            r@ == old(self)@,
            final(self)@ == old(self)@,
    {
        Obligations(copy_all(self.obligations.as_slice()))
    }
}

} // verus!
