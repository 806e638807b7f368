//! Shared payments, and the debts they leave before any netting.
use crate::flow::{
    lemma_total_concat, lemma_total_nonneg, pairs_unique, same_balances, settled_form, total,
};
use crate::money::Money;
use crate::obligation::{debts_of, Debt, Obligation, Obligations};
use crate::person::Person;
use crate::reduction::{settlement, EDGE_LIMIT};
use crate::solver::{Solver, SolverError};
use vstd::prelude::*;

verus! {

/// A payment as the contracts see it: payer, amount, beneficiaries.
pub type PaymentView = (Seq<char>, int, Seq<Seq<char>>);

/// The number of equal shares a payment is split into: one per beneficiary,
/// and one more for the payer unless the payer is among them.
pub open spec fn divisor(p: PaymentView) -> int {
    if p.2.contains(p.0) {
        p.2.len() as int
    } else {
        p.2.len() + 1int
    }
}

/// What each beneficiary owes the payer: the amount divided by the number of
/// shares, rounded up; nothing for an amount that is not positive.
pub open spec fn share(p: PaymentView) -> int {
    if p.1 > 0 {
        (p.1 + divisor(p) - 1) / divisor(p)
    } else {
        0
    }
}

/// The debts left by the first `k` beneficiaries of `p`: each one that is not
/// the payer owes the payer one share, where the share is positive.
pub open spec fn debts_upto(p: PaymentView, k: nat) -> Seq<Debt>
    decreases k,
{
    if k == 0 {
        Seq::empty()
    } else {
        let prev = debts_upto(p, (k - 1) as nat);
        let b = p.2[k - 1];
        if b != p.0 && share(p) > 0 {
            prev.push((b, p.0, share(p)))
        } else {
            prev
        }
    }
}

/// The debts left by one payment.
pub open spec fn payment_debts(p: PaymentView) -> Seq<Debt> {
    debts_upto(p, p.2.len())
}

/// The debts left by each payment in turn, before any netting.
pub open spec fn naive(ps: Seq<PaymentView>) -> Seq<Debt>
    decreases ps.len(),
{
    if ps.len() == 0 {
        Seq::empty()
    } else {
        naive(ps.drop_last()) + payment_debts(ps.last())
    }
}

/// The views of a list of persons.
pub open spec fn labels_of(v: Seq<Person>) -> Seq<Seq<char>> {
    v.map_values(|x: Person| x@)
}

/// Copies a list of persons.
fn copy_persons(v: &[Person]) -> (r: Vec<Person>)
    ensures
        labels_of(r@) == labels_of(v@),
{
    let mut r: Vec<Person> = Vec::new();
    let mut i: usize = 0;
    while i < v.len()
        invariant
            i <= v@.len(),
            r@.len() == i,
            forall|j: int| 0 <= j < i ==> (#[trigger] r@[j])@ == v@[j]@,
        decreases v@.len() - i,
    {
        r.push(v[i].copy());
        i = i + 1;
    }
    assert(labels_of(r@) =~= labels_of(v@));
    r
}

/// One payment: `from` paid `amount`, split evenly with the persons of `to`.
#[derive(Debug, Clone)]
pub struct Payment {
    from: Person,
    amount: Money,
    to: Vec<Person>,
}

impl View for Payment {
    type V = PaymentView;

    closed spec fn view(&self) -> PaymentView {
        (self.from@, self.amount@, labels_of(self.to@))
    }
}

impl Payment {
    /// `from` paid `amount` for the persons of `to`.
    pub fn new(from: Person, amount: Money, to: &[Person]) -> (r: Payment)
        ensures
            r@ == (from@, amount@, labels_of(to@)),
    {
        Payment { from, amount, to: copy_persons(to) }
    }

    /// A builder with an empty payer, a zero amount and no beneficiaries.
    pub fn builder() -> (r: PaymentBuilder)
        ensures
            r@ == (Seq::<char>::empty(), 0int, Seq::<Seq<char>>::empty()),
    {
        proof {
            reveal_strlit("");
        }
        let r = PaymentBuilder { from: Person::new(""), amount: Money::new(0), to: Vec::new() };
        assert(labels_of(r.to@) =~= Seq::<Seq<char>>::empty());
        r
    }

    /// A second payment with the same payer, amount and beneficiaries.
    pub fn copy(&self) -> (r: Payment)
        ensures
            r@ == self@,
    {
        Payment { from: self.from.copy(), amount: self.amount, to: copy_persons(self.to.as_slice()) }
    }
}

/// Builds a `Payment` one field at a time.
pub struct PaymentBuilder {
    from: Person,
    amount: Money,
    to: Vec<Person>,
}

impl View for PaymentBuilder {
    type V = PaymentView;

    closed spec fn view(&self) -> PaymentView {
        (self.from@, self.amount@, labels_of(self.to@))
    }
}

impl PaymentBuilder {
    /// A builder holding the three fields.
    pub fn new(from: Person, amount: Money, to: &[Person]) -> (r: PaymentBuilder)
        ensures
            r@ == (from@, amount@, labels_of(to@)),
    {
        PaymentBuilder { from, amount, to: copy_persons(to) }
    }

    /// Sets the payer.
    pub fn from(self, from: Person) -> (r: PaymentBuilder)
        ensures
            r@ == (from@, self@.1, self@.2),
    {
        PaymentBuilder { from, amount: self.amount, to: self.to }
    }

    /// Sets the beneficiaries.
    pub fn to(self, to: &[Person]) -> (r: PaymentBuilder)
        ensures
            r@ == (self@.0, self@.1, labels_of(to@)),
    {
        PaymentBuilder { from: self.from, amount: self.amount, to: copy_persons(to) }
    }

    /// Sets the amount.
    pub fn amount(self, amount: Money) -> (r: PaymentBuilder)
        ensures
            r@ == (self@.0, amount@, self@.2),
    {
        PaymentBuilder { from: self.from, amount, to: self.to }
    }

    /// The payment with the fields set so far.
    pub fn build(self) -> (r: Payment)
        ensures
            r@ == self@,
    {
        Payment { from: self.from, amount: self.amount, to: self.to }
    }
}

/// The views of a list of payments.
pub open spec fn payment_views(v: Seq<Payment>) -> Seq<PaymentView> {
    v.map_values(|p: Payment| p@)
}

/// Copies a list of payments.
fn copy_payments(v: &[Payment]) -> (r: Vec<Payment>)
    ensures
        payment_views(r@) == payment_views(v@),
{
    let mut r: Vec<Payment> = Vec::new();
    let mut i: usize = 0;
    while i < v.len()
        invariant
            i <= v@.len(),
            r@.len() == i,
            forall|j: int| 0 <= j < i ==> (#[trigger] r@[j])@ == v@[j]@,
        decreases v@.len() - i,
    {
        r.push(v[i].copy());
        i = i + 1;
    }
    assert(payment_views(r@) =~= payment_views(v@));
    r
}

/// Collects payments in the order they are recorded.
pub struct PaymentsBuilder {
    payments: Vec<Payment>,
}

impl View for PaymentsBuilder {
    type V = Seq<PaymentView>;

    closed spec fn view(&self) -> Seq<PaymentView> {
        payment_views(self.payments@)
    }
}

impl PaymentsBuilder {
    /// A builder holding the payments of `payments`.
    pub fn new(payments: &[Payment]) -> (r: PaymentsBuilder)
        ensures
            r@ == payment_views(payments@),
    {
        PaymentsBuilder { payments: copy_payments(payments) }
    }

    /// Appends `payment`.
    pub fn record(self, payment: Payment) -> (r: PaymentsBuilder)
        ensures
            r@ == self@.push(payment@),
    {
        let mut payments = self.payments;
        payments.push(payment);
        let r = PaymentsBuilder { payments };
        assert(r@ =~= self@.push(payment@));
        r
    }

    /// The payments recorded so far.
    pub fn build(&mut self) -> (r: Payments)
        ensures
            r@ == old(self)@,
            final(self)@ == old(self)@,
    {
        Payments(copy_payments(self.payments.as_slice()))
    }
}

/// An ordered list of payments.
#[derive(Debug)]
pub struct Payments(Vec<Payment>);

impl View for Payments {
    type V = Seq<PaymentView>;

    closed spec fn view(&self) -> Seq<PaymentView> {
        payment_views(self.0@)
    }
}

impl Payments {
    /// A builder with no payments yet.
    pub fn builder() -> (r: PaymentsBuilder)
        ensures
            r@ == Seq::<PaymentView>::empty(),
    {
        let r = PaymentsBuilder { payments: Vec::new() };
        assert(r@ =~= Seq::<PaymentView>::empty());
        r
    }

    /// The payments of `payments`, in order.
    pub fn new(payments: &[Payment]) -> (r: Payments)
        ensures
            r@ == payment_views(payments@),
    {
        Payments(copy_payments(payments))
    }

    /// The debts each payment leaves, in payment order, before any netting.
    pub fn each_pays(&self) -> (r: Obligations)
        ensures
            r@ == naive(self@),
            settled_form(r@),
    {
        let mut obligations = Obligations::builder();
        let mut i: usize = 0;
        assert(self@.subrange(0, 0) =~= Seq::<PaymentView>::empty());
        while i < self.0.len()
            invariant
                i <= self.0@.len(),
                obligations@ == naive(self@.subrange(0, i as int)),
            decreases self.0@.len() - i,
        {
            let payment = &self.0[i];
            let ghost pv = payment@;
            let ghost before = obligations@;
            assert(pv == self@[i as int]);
            let to = &payment.to;
            let mut listed = false;
            let mut j: usize = 0;
            while j < to.len()
                invariant
                    j <= to@.len(),
                    listed == exists|k: int| 0 <= k < j && (#[trigger] to@[k])@ == payment.from@,
                decreases to@.len() - j,
            {
                if to[j].same(&payment.from) {
                    listed = true;
                }
                j = j + 1;
            }
            assert(listed == pv.2.contains(pv.0)) by {
                if listed {
                    let k = choose|k: int| 0 <= k < j && (#[trigger] to@[k])@ == payment.from@;
                    assert(pv.2[k] == pv.0);
                }
                if pv.2.contains(pv.0) {
                    let k = choose|k: int| 0 <= k < pv.2.len() && pv.2[k] == pv.0;
                    assert(to@[k]@ == payment.from@);
                }
            }
            let amount = payment.amount.raw();
            let share: i32 = if amount <= 0 {
                0
            } else if to.len() as u64 > i32::MAX as u64 {
                let ghost dv = divisor(pv);
                assert(0 < amount < dv);
                assert((amount + dv - 1) / dv == 1) by (nonlinear_arith)
                    requires
                        0 < amount < dv,
                ;
                1
            } else {
                let d: i64 = if listed {
                    to.len() as i64
                } else {
                    to.len() as i64 + 1
                };
                assert(d == divisor(pv));
                assert(d >= 1);
                assert(1 <= (amount + d - 1) / (d as int) <= amount as int) by (nonlinear_arith)
                    requires
                        amount > 0,
                        d >= 1,
                ;
                ((amount as i64 + d - 1) / d) as i32
            };
            assert(share == crate::payment::share(pv));
            let mut k: usize = 0;
            assert(before + debts_upto(pv, 0) =~= before);
            while k < to.len()
                invariant
                    k <= to@.len(),
                    pv == payment@,
                    pv.2 == labels_of(to@),
                    share == crate::payment::share(pv),
                    obligations@ == before + debts_upto(pv, k as nat),
                decreases to@.len() - k,
            {
                assert(pv.2[k as int] == to@[k as int]@);
                if !to[k].same(&payment.from) && share > 0 {
                    let o = Obligation::builder().from(to[k].copy()).to(payment.from.copy()).amount(
                        Money::new(share),
                    ).build();
                    obligations = obligations.record(o);
                    assert(before + debts_upto(pv, (k + 1) as nat) =~= (before + debts_upto(
                        pv,
                        k as nat,
                    )).push(o@));
                }
                k = k + 1;
            }
            assert(self@.subrange(0, i + 1).drop_last() =~= self@.subrange(0, i as int));
            i = i + 1;
        }
        assert(self@.subrange(0, i as int) =~= self@);
        proof {
            lemma_naive_settled(self@);
        }
        obligations.build()
    }

    /// Whether the debts the payments leave fit what `who_pays_whom` can
    /// settle: their sum within `i32`, and fewer than `EDGE_LIMIT` of them.
    pub fn fits(&self) -> (r: bool)
        ensures
            r == (total(naive(self@)) <= i32::MAX && naive(self@).len() < EDGE_LIMIT),
    {
        let debts = self.each_pays();
        let v = debts.raw();
        let ghost ds = naive(self@);
        if v.len() >= EDGE_LIMIT {
            return false;
        }
        let mut sum: i64 = 0;
        let mut i: usize = 0;
        assert(ds.subrange(0, 0) =~= Seq::<Debt>::empty());
        while i < v.len()
            invariant
                debts_of(v@) == ds,
                ds == naive(self@),
                settled_form(ds),
                i <= v@.len(),
                sum == total(ds.subrange(0, i as int)),
                0 <= sum <= i32::MAX,
            decreases v@.len() - i,
        {
            assert(debts_of(v@)[i as int] == v@[i as int]@);
            assert(ds.subrange(0, i + 1).drop_last() =~= ds.subrange(0, i as int));
            assert(ds.subrange(0, i + 1).last() == ds[i as int]);
            assert(total(ds.subrange(0, i + 1)) == total(ds.subrange(0, i as int)) + ds[i as int].2);
            sum = sum + v[i].amount.raw() as i64;
            i = i + 1;
            if sum > i32::MAX as i64 {
                proof {
                    lemma_total_concat(ds.subrange(0, i as int), ds.subrange(i as int, ds.len() as int));
                    assert(ds.subrange(0, i as int) + ds.subrange(i as int, ds.len() as int) =~= ds);
                    let rest = ds.subrange(i as int, ds.len() as int);
                    assert forall|j: int| 0 <= j < rest.len() implies (#[trigger] rest[j]).2 >= 0 by {
                        assert(rest[j] == ds[i + j]);
                    }
                    lemma_total_nonneg(rest);
                }
                return false;
            }
        }
        assert(ds.subrange(0, i as int) =~= ds);
        true
    }

    /// Splits each payment into debts, then reduces them to a smaller set of
    /// transfers under which everyone ends with the same balance. `fits`
    /// tells whether the payments meet this function's requirements.
    pub fn who_pays_whom(&self) -> (r: Result<Obligations, SolverError>)
        requires
            total(naive(self@)) <= i32::MAX,
            naive(self@).len() < EDGE_LIMIT,
        ensures
            match r {
                Ok(o) => {
                    &&& o@ == settlement(naive(self@))
                    &&& same_balances(o@, naive(self@))
                    &&& settled_form(o@)
                    &&& pairs_unique(o@)
                    &&& (forall|i: int| 0 <= i < self@.len() ==> (#[trigger] self@[i]).1 == 0)
                        ==> o@.len() == 0
                },
                Err(_) => false,
            },
    {
        let debts = self.each_pays();
        proof {
            lemma_naive_settled(self@);
            if forall|i: int| 0 <= i < self@.len() ==> (#[trigger] self@[i]).1 == 0 {
                lemma_zero_payments_leave_no_debts(self@);
            }
        }
        let ghost d = debts@;
        let mut solver = Solver::new(debts);
        let ghost sv = solver@;
        let r = solver.solve();
        match r {
            Ok(o) => {
                assert forall|p: Seq<char>| #[trigger] crate::flow::balance(o@, p) == crate::flow::balance(d, p) by {
                    assert(crate::flow::balance(o@, p) == crate::flow::balance(sv, p));
                }
                Ok(o)
            },
            Err(e) => Err(e),
        }
    }
}

/// Every debt a payment leaves runs from a beneficiary other than the payer
/// to the payer, for a positive amount.
pub proof fn lemma_naive_settled(ps: Seq<PaymentView>)
    ensures
        settled_form(naive(ps)),
    decreases ps.len(),
{
    if ps.len() > 0 {
        lemma_naive_settled(ps.drop_last());
        lemma_payment_settled(ps.last(), ps.last().2.len());
        let a = naive(ps.drop_last());
        let b = payment_debts(ps.last());
        assert forall|i: int| 0 <= i < (a + b).len() implies (#[trigger] (a + b)[i]).0 != (a + b)[i].1
            && (a + b)[i].2 > 0 by {
            if i < a.len() {
                assert((a + b)[i] == a[i]);
            } else {
                assert((a + b)[i] == b[i - a.len()]);
            }
        }
    }
}

proof fn lemma_payment_settled(p: PaymentView, k: nat)
    ensures
        settled_form(debts_upto(p, k)),
    decreases k,
{
    if k > 0 {
        lemma_payment_settled(p, (k - 1) as nat);
    }
}

/// Payments of amount zero leave no debts.
pub proof fn lemma_zero_payments_leave_no_debts(ps: Seq<PaymentView>)
    requires
        forall|i: int| 0 <= i < ps.len() ==> (#[trigger] ps[i]).1 == 0,
    ensures
        naive(ps).len() == 0,
    decreases ps.len(),
{
    if ps.len() > 0 {
        lemma_zero_payments_leave_no_debts(ps.drop_last());
        lemma_zero_share_no_debts(ps.last(), ps.last().2.len());
    }
}

proof fn lemma_zero_share_no_debts(p: PaymentView, k: nat)
    requires
        share(p) == 0,
    ensures
        debts_upto(p, k).len() == 0,
    decreases k,
{
    if k > 0 {
        lemma_zero_share_no_debts(p, (k - 1) as nat);
    }
}

/// Settling the same payments twice gives the same debts, and so the same
/// set of debts: the result depends on the payments alone.
pub proof fn lemma_settlement_repeatable(a: Seq<PaymentView>, b: Seq<PaymentView>)
    requires
        a == b,
    ensures
        settlement(naive(a)) == settlement(naive(b)),
        settlement(naive(a)).to_set() == settlement(naive(b)).to_set(),
{
}

} // verus!
