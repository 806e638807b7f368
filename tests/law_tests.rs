use std::collections::HashMap;

use settle::{Money, Obligations, Payment, Payments, Person, SolverError};

fn p(s: &str) -> Person {
    Person::new(s)
}

fn triples(o: &Obligations) -> Vec<(String, String, i32)> {
    o.raw()
        .iter()
        .map(|o| (o.from.raw().clone(), o.to.raw().clone(), o.amount.raw()))
        .collect()
}

fn t(a: &str, b: &str, w: i32) -> (String, String, i32) {
    (a.to_string(), b.to_string(), w)
}

fn balances(list: &[(String, String, i32)]) -> HashMap<String, i64> {
    let mut m = HashMap::new();
    for (f, to, w) in list {
        *m.entry(f.clone()).or_insert(0) += *w as i64;
        *m.entry(to.clone()).or_insert(0) -= *w as i64;
    }
    m.retain(|_, v| *v != 0);
    m
}

fn chain() -> Payments {
    Payments::new(&[
        Payment::new(p("A"), Money::new(1200), &[p("B")]),
        Payment::new(p("B"), Money::new(1200), &[p("A"), p("C"), p("D")]),
        Payment::new(p("C"), Money::new(1200), &[p("A"), p("B"), p("D")]),
        Payment::new(p("D"), Money::new(1200), &[p("B"), p("C")]),
    ])
}

fn messy() -> Payments {
    Payments::new(&[
        Payment::new(p("A"), Money::new(3001), &[p("B"), p("C"), p("D"), p("E")]),
        Payment::new(p("B"), Money::new(777), &[p("A"), p("C")]),
        Payment::new(p("C"), Money::new(1234), &[p("A"), p("B"), p("C"), p("E")]),
        Payment::new(p("E"), Money::new(99), &[p("D")]),
        Payment::new(p("D"), Money::new(450), &[p("A"), p("E"), p("B")]),
    ])
}

#[test]
fn mutual_pair_nets_to_one_debt() {
    let ps = Payments::new(&[
        Payment::new(p("A"), Money::new(10), &[p("B")]),
        Payment::new(p("B"), Money::new(20), &[p("A")]),
    ]);
    assert_eq!(vec![t("B", "A", 5), t("A", "B", 10)], triples(&ps.each_pays()));
    assert_eq!(vec![t("A", "B", 5)], triples(&ps.who_pays_whom().unwrap()));
}

#[test]
fn balances_are_kept() {
    for ps in [chain(), messy()] {
        let naive = triples(&ps.each_pays());
        let solved = triples(&ps.who_pays_whom().unwrap());
        assert_eq!(balances(&naive), balances(&solved));
    }
}

#[test]
fn no_self_debts_and_positive_amounts() {
    for ps in [chain(), messy()] {
        for (f, to, w) in triples(&ps.each_pays()).into_iter().chain(triples(&ps.who_pays_whom().unwrap())) {
            assert_ne!(f, to);
            assert!(w > 0);
        }
    }
}

#[test]
fn no_two_debts_share_a_pair() {
    for ps in [chain(), messy()] {
        let solved = triples(&ps.who_pays_whom().unwrap());
        for i in 0..solved.len() {
            for j in 0..solved.len() {
                if i != j {
                    assert!(solved[i].0 != solved[j].0 || solved[i].1 != solved[j].1);
                }
            }
        }
    }
}

#[test]
fn running_twice_gives_the_same_debts() {
    for ps in [chain(), messy()] {
        let mut first = triples(&ps.who_pays_whom().unwrap());
        let mut second = triples(&ps.who_pays_whom().unwrap());
        first.sort();
        second.sort();
        assert_eq!(first, second);
    }
}

#[test]
fn zero_payments_leave_nothing() {
    let ps = Payments::new(&[
        Payment::new(p("A"), Money::new(0), &[p("B"), p("C")]),
        Payment::new(p("B"), Money::new(0), &[p("A")]),
    ]);
    assert!(ps.who_pays_whom().unwrap().raw().is_empty());
    assert!(Payments::new(&[]).who_pays_whom().unwrap().raw().is_empty());
}

#[test]
fn equal_weight_chain_collapses() {
    let ps = Payments::new(&[
        Payment::new(p("A"), Money::new(2000), &[p("B"), p("C"), p("H")]),
        Payment::new(p("C"), Money::new(500), &[p("H")]),
        Payment::new(p("B"), Money::new(600), &[p("C"), p("H")]),
    ]);
    assert_eq!(
        vec![t("B", "A", 100), t("C", "A", 450), t("H", "A", 950)],
        triples(&ps.who_pays_whom().unwrap())
    );
}

#[test]
fn solver_runs_on_obligations_directly() {
    let naive = chain().each_pays();
    let mut solver = settle::Solver::new(naive);
    let solved = solver.solve().unwrap();
    assert_eq!(vec![t("B", "D", 100), t("C", "D", 100), t("B", "C", 300)], triples(&solved));
}

#[test]
fn solver_errors_are_distinct_values() {
    assert_ne!(SolverError::NoEndpointForEdge(1), SolverError::NoWeightForNode(1));
    assert_ne!(SolverError::NoWeightForNode(2), SolverError::NoWeightForEdge(2));
    assert_eq!(SolverError::NoWeightForEdge(3), SolverError::NoWeightForEdge(3));
}

#[test]
fn every_opposite_pair_is_netted() {
    let ps = Payments::new(&[
        Payment::new(p("B"), Money::new(2), &[p("A")]),
        Payment::new(p("A"), Money::new(4), &[p("B")]),
        Payment::new(p("D"), Money::new(2), &[p("C")]),
        Payment::new(p("C"), Money::new(4), &[p("D")]),
        Payment::new(p("Y"), Money::new(10), &[p("X")]),
        Payment::new(p("X"), Money::new(6), &[p("Y")]),
    ]);
    assert_eq!(
        vec![t("B", "A", 1), t("D", "C", 1), t("X", "Y", 2)],
        triples(&ps.who_pays_whom().unwrap())
    );
}
