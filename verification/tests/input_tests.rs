use go::input::parse_usize;

#[test]
fn parses_plain_numbers() {
    assert_eq!(parse_usize("0"), Some(0));
    assert_eq!(parse_usize("3"), Some(3));
    assert_eq!(parse_usize("42"), Some(42));
    assert_eq!(parse_usize("18"), Some(18));
    assert_eq!(parse_usize("007"), Some(7));
}

#[test]
fn rejects_empty_input() {
    assert_eq!(parse_usize(""), None);
}

#[test]
fn rejects_non_digits() {
    assert_eq!(parse_usize("x"), None);
    assert_eq!(parse_usize("4x2"), None);
    assert_eq!(parse_usize("-1"), None);
    assert_eq!(parse_usize("3.5"), None);
    assert_eq!(parse_usize(" 3"), None);
}

#[test]
fn rejects_values_beyond_the_machine_word() {
    assert_eq!(parse_usize("99999999999999999999999999"), None);
}
