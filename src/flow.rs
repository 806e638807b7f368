//! Balances over lists of debts: what each person owes minus what each
//! person is owed, and the facts about them that the solver's proofs use.
use crate::obligation::Debt;
use vstd::prelude::*;

verus! {

/// What `p` owes through `d`, minus what `p` is owed through it.
pub open spec fn owed_share(d: Debt, p: Seq<char>) -> int {
    (if d.0 == p {
        d.2
    } else {
        0
    }) - (if d.1 == p {
        d.2
    } else {
        0
    })
}

/// What `p` owes in `ds`, minus what `p` is owed there.
pub open spec fn balance(ds: Seq<Debt>, p: Seq<char>) -> int
    decreases ds.len(),
{
    if ds.len() == 0 {
        0
    } else {
        balance(ds.drop_last(), p) + owed_share(ds.last(), p)
    }
}

/// Every person has the same balance in `a` as in `b`.
pub open spec fn same_balances(a: Seq<Debt>, b: Seq<Debt>) -> bool {
    forall|p: Seq<char>| #[trigger] balance(a, p) == balance(b, p)
}

/// The sum of all amounts in `ds`.
pub open spec fn total(ds: Seq<Debt>) -> int
    decreases ds.len(),
{
    if ds.len() == 0 {
        0
    } else {
        total(ds.drop_last()) + ds.last().2
    }
}

/// The debts of `ds` with a nonzero amount, in order.
pub open spec fn live(ds: Seq<Debt>) -> Seq<Debt>
    decreases ds.len(),
{
    if ds.len() == 0 {
        Seq::empty()
    } else if ds.last().2 != 0 {
        live(ds.drop_last()).push(ds.last())
    } else {
        live(ds.drop_last())
    }
}

/// No two debts of `ds` run from the same debtor to the same creditor.
pub open spec fn pairs_unique(ds: Seq<Debt>) -> bool {
    forall|i: int, j: int|
        0 <= i < ds.len() && 0 <= j < ds.len() && i != j ==> !((#[trigger] ds[i]).0 == (#[trigger] ds[j]).0
            && ds[i].1 == ds[j].1)
}

/// Every debt of `ds` runs between two different persons, for a positive amount.
pub open spec fn settled_form(ds: Seq<Debt>) -> bool {
    forall|i: int| 0 <= i < ds.len() ==> (#[trigger] ds[i]).0 != ds[i].1 && ds[i].2 > 0
}

/// Every amount in `ds` is positive.
pub open spec fn all_positive(ds: Seq<Debt>) -> bool {
    forall|i: int| 0 <= i < ds.len() ==> (#[trigger] ds[i]).2 > 0
}

pub proof fn lemma_balance_push(ds: Seq<Debt>, d: Debt, p: Seq<char>)
    ensures
        balance(ds.push(d), p) == balance(ds, p) + owed_share(d, p),
{
    assert(ds.push(d).drop_last() =~= ds);
}

pub proof fn lemma_balance_update(ds: Seq<Debt>, i: int, d: Debt, p: Seq<char>)
    requires
        0 <= i < ds.len(),
    ensures
        balance(ds.update(i, d), p) == balance(ds, p) - owed_share(ds[i], p) + owed_share(d, p),
    decreases ds.len(),
{
    if i == ds.len() - 1 {
        assert(ds.update(i, d).drop_last() =~= ds.drop_last());
    } else {
        lemma_balance_update(ds.drop_last(), i, d, p);
        assert(ds.update(i, d).drop_last() =~= ds.drop_last().update(i, d));
    }
}

pub proof fn lemma_balance_live(ds: Seq<Debt>, p: Seq<char>)
    ensures
        balance(live(ds), p) == balance(ds, p),
    decreases ds.len(),
{
    if ds.len() > 0 {
        lemma_balance_live(ds.drop_last(), p);
        if ds.last().2 != 0 {
            lemma_balance_push(live(ds.drop_last()), ds.last(), p);
        }
    }
}

pub proof fn lemma_total_update(ds: Seq<Debt>, i: int, d: Debt)
    requires
        0 <= i < ds.len(),
    ensures
        total(ds.update(i, d)) == total(ds) - ds[i].2 + d.2,
    decreases ds.len(),
{
    if i == ds.len() - 1 {
        assert(ds.update(i, d).drop_last() =~= ds.drop_last());
    } else {
        lemma_total_update(ds.drop_last(), i, d);
        assert(ds.update(i, d).drop_last() =~= ds.drop_last().update(i, d));
    }
}

pub proof fn lemma_total_push(ds: Seq<Debt>, d: Debt)
    ensures
        total(ds.push(d)) == total(ds) + d.2,
{
    assert(ds.push(d).drop_last() =~= ds);
}

/// With no negative amount, no single amount exceeds the total.
pub proof fn lemma_total_bounds(ds: Seq<Debt>, i: int)
    requires
        0 <= i < ds.len(),
        forall|j: int| 0 <= j < ds.len() ==> (#[trigger] ds[j]).2 >= 0,
    ensures
        0 <= ds[i].2 <= total(ds),
    decreases ds.len(),
{
    if i < ds.len() - 1 {
        lemma_total_bounds(ds.drop_last(), i);
    } else {
        lemma_total_nonneg(ds.drop_last());
    }
}

pub proof fn lemma_total_nonneg(ds: Seq<Debt>)
    requires
        forall|j: int| 0 <= j < ds.len() ==> (#[trigger] ds[j]).2 >= 0,
    ensures
        total(ds) >= 0,
    decreases ds.len(),
{
    if ds.len() > 0 {
        lemma_total_nonneg(ds.drop_last());
    }
}

pub proof fn lemma_total_concat(a: Seq<Debt>, b: Seq<Debt>)
    ensures
        total(a + b) == total(a) + total(b),
    decreases b.len(),
{
    if b.len() == 0 {
        assert(a + b =~= a);
    } else {
        lemma_total_concat(a, b.drop_last());
        assert((a + b).drop_last() =~= a + b.drop_last());
    }
}

/// The number of edges of nonzero weight.
pub open spec fn count_live(es: Seq<(usize, usize, i32)>) -> nat
    decreases es.len(),
{
    if es.len() == 0 {
        0
    } else {
        count_live(es.drop_last()) + if es.last().2 != 0 {
            1nat
        } else {
            0nat
        }
    }
}

pub proof fn lemma_count_live_bound(es: Seq<(usize, usize, i32)>)
    ensures
        count_live(es) <= es.len(),
    decreases es.len(),
{
    if es.len() > 0 {
        lemma_count_live_bound(es.drop_last());
    }
}

} // verus!
