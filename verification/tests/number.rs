use stellaris_tech_tree::number::parse_u64;

#[test]
fn decimal_numbers_are_read() {
    assert_eq!(parse_u64("0"), Some(0));
    assert_eq!(parse_u64("007"), Some(7));
    assert_eq!(parse_u64("+42"), Some(42));
    assert_eq!(parse_u64("18446744073709551615"), Some(18446744073709551615));
}

#[test]
fn what_spells_no_number_is_refused() {
    for s in ["", "+", "-1", "1.5", " 1", "1 ", "12a", "18446744073709551616", "99999999999999999999", "++1"] {
        assert_eq!(parse_u64(s), None);
        assert_eq!(parse_u64(s), s.parse::<u64>().ok());
    }
}
