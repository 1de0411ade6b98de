use pv_db::extract_identifier;

#[test]
fn leading_zeros_are_allowed() {
    assert_eq!(extract_identifier("pv_007"), Some(7));
    assert_eq!(extract_identifier("pv_000"), Some(0));
    assert_eq!(extract_identifier("pv_00000000000000000012"), Some(12));
}

#[test]
fn plain_numbers_are_read() {
    assert_eq!(extract_identifier("pv_0"), Some(0));
    assert_eq!(extract_identifier("pv_1"), Some(1));
    assert_eq!(extract_identifier("pv_832"), Some(832));
}

#[test]
fn non_numeric_suffix_yields_nothing() {
    assert_eq!(extract_identifier("pv_abc"), None);
    assert_eq!(extract_identifier("pv_12a"), None);
    assert_eq!(extract_identifier("pv_a12"), None);
    assert_eq!(extract_identifier("pv_1 "), None);
    assert_eq!(extract_identifier("pv_ 1"), None);
    assert_eq!(extract_identifier("pv_1.5"), None);
}

#[test]
fn empty_suffix_yields_nothing() {
    assert_eq!(extract_identifier("pv_"), None);
}

#[test]
fn overflowing_suffix_yields_nothing() {
    assert_eq!(extract_identifier("pv_4294967296"), None);
    assert_eq!(extract_identifier("pv_99999999999999999999999999"), None);
    assert_eq!(extract_identifier("pv_42949672950"), None);
}

#[test]
fn overflow_is_reported_before_a_later_non_digit() {
    assert_eq!(extract_identifier("pv_99999999999x"), None);
}

#[test]
fn largest_identifier_is_read() {
    assert_eq!(extract_identifier("pv_4294967295"), Some(u32::MAX));
    assert_eq!(extract_identifier("pv_04294967295"), Some(u32::MAX));
}

#[test]
fn prefix_is_required() {
    assert_eq!(extract_identifier("7"), None);
    assert_eq!(extract_identifier("007"), None);
    assert_eq!(extract_identifier("pv7"), None);
    assert_eq!(extract_identifier("p_7"), None);
    assert_eq!(extract_identifier("PV_7"), None);
    assert_eq!(extract_identifier(" pv_7"), None);
    assert_eq!(extract_identifier(""), None);
    assert_eq!(extract_identifier("pv"), None);
}

#[test]
fn prefix_is_stripped_once() {
    assert_eq!(extract_identifier("pv_pv_7"), None);
}

#[test]
fn signs_are_not_accepted() {
    assert_eq!(extract_identifier("pv_+7"), None);
    assert_eq!(extract_identifier("pv_-7"), None);
}

#[test]
fn other_notations_are_not_accepted() {
    assert_eq!(extract_identifier("pv_0x10"), None);
    assert_eq!(extract_identifier("pv_1e3"), None);
    assert_eq!(extract_identifier("pv_１２"), None);
    assert_eq!(extract_identifier("pv_٣"), None);
}
