use tonetheus::num::{parse_amount, parse_i32};

#[test]
fn plain_integers() {
    assert_eq!(parse_i32("0"), Some(0));
    assert_eq!(parse_i32("3"), Some(3));
    assert_eq!(parse_i32("-1"), Some(-1));
    assert_eq!(parse_i32("+42"), Some(42));
    assert_eq!(parse_i32("007"), Some(7));
}

#[test]
fn integer_limits() {
    assert_eq!(parse_i32("2147483647"), Some(i32::MAX));
    assert_eq!(parse_i32("-2147483648"), Some(i32::MIN));
    assert_eq!(parse_i32("2147483648"), None);
    assert_eq!(parse_i32("-2147483649"), None);
    assert_eq!(parse_i32("99999999999999999999"), None);
}

#[test]
fn malformed_integers() {
    assert_eq!(parse_i32(""), None);
    assert_eq!(parse_i32("-"), None);
    assert_eq!(parse_i32("+"), None);
    assert_eq!(parse_i32("not-a-number"), None);
    assert_eq!(parse_i32("1 2"), None);
    assert_eq!(parse_i32("3.5"), None);
}

#[test]
fn plain_amounts() {
    assert_eq!(parse_amount("0").map(|a| a.nanos), Some(0));
    assert_eq!(parse_amount("12.5").map(|a| a.nanos), Some(12_500_000_000));
    assert_eq!(parse_amount("100.0").map(|a| a.nanos), Some(100_000_000_000));
    assert_eq!(parse_amount("50.5").map(|a| a.nanos), Some(50_500_000_000));
    assert_eq!(parse_amount("-3.25").map(|a| a.nanos), Some(-3_250_000_000));
}

#[test]
fn partial_decimal_forms() {
    assert_eq!(parse_amount(".5").map(|a| a.nanos), Some(500_000_000));
    assert_eq!(parse_amount("12.").map(|a| a.nanos), Some(12_000_000_000));
    assert_eq!(parse_amount("+7").map(|a| a.nanos), Some(7_000_000_000));
}

#[test]
fn nine_fraction_places_count() {
    assert_eq!(parse_amount("0.123456789").map(|a| a.nanos), Some(123_456_789));
    // places past the ninth are below one nanoton and are dropped
    assert_eq!(parse_amount("0.1234567891").map(|a| a.nanos), Some(123_456_789));
    assert_eq!(parse_amount("0.000000001").map(|a| a.nanos), Some(1));
}

#[test]
fn malformed_amounts() {
    assert_eq!(parse_amount(""), None);
    assert_eq!(parse_amount("."), None);
    assert_eq!(parse_amount("-"), None);
    assert_eq!(parse_amount("-."), None);
    assert_eq!(parse_amount("1.2.3"), None);
    assert_eq!(parse_amount("1e3"), None);
    assert_eq!(parse_amount("inf"), None);
    assert_eq!(parse_amount("12,5"), None);
}

#[test]
fn oversized_whole_part_is_rejected() {
    assert_eq!(parse_amount("999999999999999999"), Some(tonetheus::ton::Amount {
        nanos: 999_999_999_999_999_999_000_000_000,
    }));
    assert_eq!(parse_amount("1000000000000000000"), None);
}
