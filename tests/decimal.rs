use pgcopy::decimal::{format_decimal, parse_decimal, Decimal};
use pgcopy::error::ParseError;
use pgcopy::strconv::Nestable;

fn text(buf: &[char]) -> String {
    buf.iter().collect()
}

fn dec(significand: i128, scale: u8) -> Decimal {
    Decimal { significand, scale }
}

#[test]
fn decimals_parse() {
    assert_eq!(parse_decimal(" 123.45 "), Ok(dec(12345, 2)));
    assert_eq!(parse_decimal("-0.005"), Ok(dec(-5, 3)));
    assert_eq!(parse_decimal("+7"), Ok(dec(7, 0)));
    assert_eq!(parse_decimal(".5"), Ok(dec(5, 1)));
    assert_eq!(parse_decimal("5."), Ok(dec(5, 0)));
    assert_eq!(parse_decimal("1.50"), Ok(dec(150, 2)));
}

#[test]
fn decimals_rejected() {
    assert_eq!(parse_decimal(""), Err(ParseError::Decimal));
    assert_eq!(parse_decimal("."), Err(ParseError::Decimal));
    assert_eq!(parse_decimal("1.2.3"), Err(ParseError::Decimal));
    assert_eq!(parse_decimal("1e5"), Err(ParseError::Decimal));
    assert_eq!(parse_decimal("-"), Err(ParseError::Decimal));
    let max = "9".repeat(38);
    assert!(parse_decimal(&max).is_ok());
    let too_long = "9".repeat(39);
    assert_eq!(parse_decimal(&too_long), Err(ParseError::Decimal));
    let padded = format!("{}1", "0".repeat(50));
    assert_eq!(parse_decimal(&padded), Ok(dec(1, 0)));
    let scale_39 = format!(".{}", "1".repeat(39));
    assert_eq!(parse_decimal(&scale_39), Err(ParseError::Decimal));
}

#[test]
fn decimals_format() {
    let mut buf = Vec::new();
    assert_eq!(format_decimal(&mut buf, &dec(12345, 2)), Nestable::Yes);
    assert_eq!(text(&buf), "123.45");
    let mut buf = Vec::new();
    format_decimal(&mut buf, &dec(-5, 3));
    assert_eq!(text(&buf), "-0.005");
    let mut buf = Vec::new();
    format_decimal(&mut buf, &dec(0, 0));
    assert_eq!(text(&buf), "0");
    let mut buf = Vec::new();
    format_decimal(&mut buf, &dec(-99_999_999_999_999_999_999_999_999_999_999_999_999, 0));
    assert_eq!(text(&buf), format!("-{}", "9".repeat(38)));
}

#[test]
fn decimal_round_trip() {
    let tiny = dec(1, 38);
    let widest = dec(99_999_999_999_999_999_999_999_999_999_999_999_999, 38);
    for d in [dec(12345, 2), dec(-5, 3), dec(0, 4), dec(42, 0), dec(-99_999, 1), tiny, widest] {
        let mut buf = Vec::new();
        format_decimal(&mut buf, &d);
        assert_eq!(parse_decimal(&text(&buf)), Ok(d));
    }
}
