use ferment_constraints::text::{parse_i32_str, push_bool, push_decimal, same_text, str_contains};

#[test]
fn parse_accepts_signed_decimals() {
    assert_eq!(parse_i32_str("0"), Some(0));
    assert_eq!(parse_i32_str("+0"), Some(0));
    assert_eq!(parse_i32_str("007"), Some(7));
    assert_eq!(parse_i32_str("-12"), Some(-12));
    assert_eq!(parse_i32_str("2147483647"), Some(i32::MAX));
    assert_eq!(parse_i32_str("-2147483648"), Some(i32::MIN));
}

#[test]
fn parse_rejects_malformed_or_out_of_range() {
    assert_eq!(parse_i32_str(""), None);
    assert_eq!(parse_i32_str("-"), None);
    assert_eq!(parse_i32_str("+"), None);
    assert_eq!(parse_i32_str("12a"), None);
    assert_eq!(parse_i32_str(" 1"), None);
    assert_eq!(parse_i32_str("2147483648"), None);
    assert_eq!(parse_i32_str("-2147483649"), None);
    assert_eq!(parse_i32_str("99999999999999999999"), None);
}

#[test]
fn decimals_and_booleans_render() {
    let mut s = String::from("n=");
    push_decimal(&mut s, 0);
    push_decimal(&mut s, 1234);
    push_bool(&mut s, true);
    push_bool(&mut s, false);
    assert_eq!(s, "n=01234truefalse");
}

#[test]
fn substring_search() {
    assert!(str_contains("a <= b", "<"));
    assert!(str_contains("a <= b", "<="));
    assert!(!str_contains("a != b", "<"));
    assert!(str_contains("anything", ""));
    assert!(!str_contains("ab", "abc"));
    assert!(str_contains("not same row or diagonal", "diagonal"));
}

#[test]
fn text_equality() {
    assert!(same_text("q1", "q1"));
    assert!(!same_text("q1", "q10"));
    assert!(!same_text("a↔", "a-"));
}
