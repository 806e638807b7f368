use settle::Money;

#[test]
fn test_newtype_money() {
    let raw_amount = 10;
    let money = Money::new(raw_amount);

    assert_eq!(raw_amount, money.raw());
}

#[test]
fn money_keeps_negative_and_zero_values() {
    assert_eq!(-7, Money::new(-7).raw());
    assert_eq!(0, Money::new(0).raw());
    assert!(Money::new(3) < Money::new(4));
}

#[test]
fn money_equality_follows_value() {
    assert_eq!(Money::new(12), Money::new(12));
    assert_ne!(Money::new(12), Money::new(13));
}
