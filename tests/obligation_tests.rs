use settle::{Money, Obligation, ObligationBuilder, Obligations, Person};

#[test]
fn test_obligations() {
    let from_raw = "from";
    let to_raw = "to";
    let amount_raw = 10;

    let from = Person::new(from_raw);
    let to = Person::new(to_raw);
    let amount = Money::new(amount_raw);

    let obligation = Obligation::builder()
        .from(from)
        .to(to)
        .amount(amount)
        .build();

    assert_eq!(from_raw, obligation.from.raw());
    assert_eq!(to_raw, obligation.to.raw());
    assert_eq!(amount_raw, obligation.amount.raw());

    let obligations = Obligations::builder().record(obligation).build();
    assert_eq!(1, obligations.raw().len());
}

#[test]
fn obligation_builder_new_and_list_order() {
    let a = ObligationBuilder::new(Person::new("A"), Person::new("B"), Money::new(3)).build();
    let b = ObligationBuilder::new(Person::new("B"), Person::new("C"), Money::new(4)).build();
    let list = Obligations::new(&[a.clone(), b.clone()]);
    assert_eq!(&vec![a.clone(), b.clone()], list.raw());
    let built = Obligations::builder().record(a).record(b).build();
    assert_eq!(list, built);
}

#[test]
fn obligation_builder_starts_empty() {
    let o = Obligation::builder().build();
    assert_eq!("", o.from.raw());
    assert_eq!("", o.to.raw());
    assert_eq!(0, o.amount.raw());
}
