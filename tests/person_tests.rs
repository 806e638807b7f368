use settle::Person;

#[test]
fn test_newtype_person() {
    let raw_name = "Alice Bob";
    let from_str_ref = Person::new(raw_name);
    assert_eq!(raw_name, from_str_ref.raw());

    let raw_name = "Bob Alice".to_owned();
    let from_owned_string = Person::new(raw_name.clone().as_str());
    assert_eq!(&raw_name, from_owned_string.raw());
}

#[test]
fn persons_compare_by_label() {
    assert!(Person::new("A").same(&Person::new("A")));
    assert!(!Person::new("A").same(&Person::new("B")));
    assert_eq!(Person::new("C"), Person::new("C").copy());
}
