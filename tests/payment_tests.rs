use settle::{Money, Payment, PaymentBuilder, Payments, PaymentsBuilder, Person};

#[test]
fn test_each_pays() {
    let a = Person::new("A");
    let b = Person::new("B");
    let a_spent = Money::new(10);
    let b_spent = Money::new(20);

    let obligations = Payments::builder()
        .record(
            Payment::builder()
                .from(a.clone())
                .to(&vec![b.clone()])
                .amount(a_spent)
                .build(),
        )
        .record(
            Payment::builder()
                .from(b.clone())
                .to(&vec![a.clone()])
                .amount(b_spent)
                .build(),
        )
        .build()
        .each_pays();

    let expected_a_pays = b_spent.raw() / 2;
    let expected_b_pays = a_spent.raw() / 2;

    for o in obligations.raw() {
        match &o.from {
            _ if &o.from == &a => {
                assert_eq!(expected_a_pays, o.amount.raw());
            }
            _ if &o.from == &b => {
                assert_eq!(expected_b_pays, o.amount.raw());
            }
            _ => unreachable!(),
        }
    }
}

fn p(s: &str) -> Person {
    Person::new(s)
}

fn triples(payments: &Payments) -> Vec<(String, String, i32)> {
    payments
        .each_pays()
        .raw()
        .iter()
        .map(|o| (o.from.raw().clone(), o.to.raw().clone(), o.amount.raw()))
        .collect()
}

fn t(a: &str, b: &str, w: i32) -> (String, String, i32) {
    (a.to_string(), b.to_string(), w)
}

#[test]
fn each_pays_counts_payer_once_when_listed() {
    // payer listed: 9 split three ways
    let ps = Payments::new(&[Payment::new(p("A"), Money::new(9), &[p("A"), p("B"), p("C")])]);
    assert_eq!(vec![t("B", "A", 3), t("C", "A", 3)], triples(&ps));
}

#[test]
fn each_pays_rounds_shares_up() {
    let ps = Payments::new(&[Payment::new(p("A"), Money::new(10), &[p("B"), p("C")])]);
    assert_eq!(vec![t("B", "A", 4), t("C", "A", 4)], triples(&ps));
    let ps = Payments::new(&[Payment::new(p("A"), Money::new(1), &[p("B"), p("C")])]);
    assert_eq!(vec![t("B", "A", 1), t("C", "A", 1)], triples(&ps));
}

#[test]
fn each_pays_keeps_duplicate_beneficiaries() {
    let ps = Payments::new(&[Payment::new(p("A"), Money::new(12), &[p("B"), p("B")])]);
    assert_eq!(vec![t("B", "A", 4), t("B", "A", 4)], triples(&ps));
}

#[test]
fn each_pays_drops_empty_self_zero_and_negative() {
    let ps = PaymentsBuilder::new(&[
        Payment::new(p("A"), Money::new(50), &[]),
        Payment::new(p("A"), Money::new(50), &[p("A")]),
        Payment::new(p("A"), Money::new(0), &[p("B")]),
        Payment::new(p("A"), Money::new(-40), &[p("B")]),
    ])
    .build();
    assert!(triples(&ps).is_empty());
}

#[test]
fn payment_builder_new_matches_payment_new() {
    let a = PaymentBuilder::new(p("A"), Money::new(8), &[p("B")]).build();
    let b = Payment::new(p("A"), Money::new(8), &[p("B")]);
    assert_eq!(triples(&Payments::new(&[a])), triples(&Payments::new(&[b])));
}

#[test]
fn fits_checks_the_sum_of_debts() {
    let small = Payments::new(&[Payment::new(p("A"), Money::new(10), &[p("B"), p("C")])]);
    assert!(small.fits());
    let big = Payments::new(&[
        Payment::new(p("A"), Money::new(i32::MAX), &[p("B")]),
        Payment::new(p("C"), Money::new(i32::MAX), &[p("D")]),
    ]);
    assert!(!big.fits());
}
