use pv_db::diva_bool;

#[test]
fn one_is_true() {
    assert!(diva_bool(Some(1)));
}

#[test]
fn zero_is_false() {
    assert!(!diva_bool(Some(0)));
}

#[test]
fn other_integers_are_false() {
    assert!(!diva_bool(Some(2)));
    assert!(!diva_bool(Some(-1)));
    assert!(!diva_bool(Some(10)));
    assert!(!diva_bool(Some(i32::MAX)));
    assert!(!diva_bool(Some(i32::MIN)));
}

#[test]
fn absent_value_is_false() {
    assert!(!diva_bool(None));
}

#[test]
fn only_one_is_true_over_a_range() {
    for value in -1000..1000 {
        assert_eq!(diva_bool(Some(value)), value == 1);
    }
}
