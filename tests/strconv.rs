use pgcopy::error::{ByteaError, IntError, ParseError};
use pgcopy::strconv::{
    classify_float, format_bool, format_bool_static, format_bytes, format_infinity, format_int32,
    format_int64, format_string, parse_bool, parse_bytes, parse_int32, parse_int64, FloatText,
    Nestable,
};

fn text(buf: &[char]) -> String {
    buf.iter().collect()
}

#[test]
fn bool_accepts_trimmed_words() {
    assert_eq!(parse_bool(" on "), Ok(true));
    assert_eq!(parse_bool("tru"), Ok(true));
    assert_eq!(parse_bool("1"), Ok(true));
    assert_eq!(parse_bool("\tfalse\n"), Ok(false));
    assert_eq!(parse_bool("of"), Ok(false));
    assert_eq!(parse_bool("0"), Ok(false));
}

#[test]
fn bool_ignores_ascii_case() {
    assert_eq!(parse_bool("YES"), Ok(true));
    assert_eq!(parse_bool("False"), Ok(false));
}

#[test]
fn bool_rejects_other_words() {
    assert_eq!(parse_bool("o"), Err(ParseError::Bool));
    assert_eq!(parse_bool(""), Err(ParseError::Bool));
    assert_eq!(parse_bool("truee"), Err(ParseError::Bool));
    assert_eq!(parse_bool("yess"), Err(ParseError::Bool));
}

#[test]
fn bool_formats_as_t_or_f() {
    let mut buf = Vec::new();
    assert_eq!(format_bool(&mut buf, true), Nestable::Yes);
    format_bool(&mut buf, false);
    assert_eq!(text(&buf), "tf");
    assert_eq!(format_bool_static(true), "t");
    assert_eq!(format_bool_static(false), "f");
}

#[test]
fn bool_round_trip() {
    for b in [true, false] {
        let mut buf = Vec::new();
        format_bool(&mut buf, b);
        assert_eq!(parse_bool(&text(&buf)), Ok(b));
    }
}

#[test]
fn int32_parses_with_whitespace_and_sign() {
    assert_eq!(parse_int32(" 42 "), Ok(42));
    assert_eq!(parse_int32("+7"), Ok(7));
    assert_eq!(parse_int32("-2147483648"), Ok(i32::MIN));
    assert_eq!(parse_int32("2147483647"), Ok(i32::MAX));
    assert_eq!(parse_int32("007"), Ok(7));
}

#[test]
fn int32_errors() {
    assert_eq!(parse_int32(""), Err(ParseError::Int(IntError::Empty)));
    assert_eq!(parse_int32("  "), Err(ParseError::Int(IntError::Empty)));
    assert_eq!(parse_int32("+"), Err(ParseError::Int(IntError::InvalidDigit)));
    assert_eq!(parse_int32("12a"), Err(ParseError::Int(IntError::InvalidDigit)));
    assert_eq!(parse_int32("2147483648"), Err(ParseError::Int(IntError::PosOverflow)));
    assert_eq!(parse_int32("-2147483649"), Err(ParseError::Int(IntError::NegOverflow)));
    assert_eq!(
        parse_int32("99999999999999999999999999"),
        Err(ParseError::Int(IntError::PosOverflow))
    );
}

#[test]
fn int64_parses_extremes() {
    assert_eq!(parse_int64("-9223372036854775808"), Ok(i64::MIN));
    assert_eq!(parse_int64("9223372036854775807"), Ok(i64::MAX));
    assert_eq!(parse_int64("9223372036854775808"), Err(ParseError::Int(IntError::PosOverflow)));
}

#[test]
fn int_formats_base_ten() {
    let mut buf = Vec::new();
    assert_eq!(format_int32(&mut buf, -1234), Nestable::Yes);
    assert_eq!(text(&buf), "-1234");
    let mut buf = Vec::new();
    format_int64(&mut buf, i64::MIN);
    assert_eq!(text(&buf), "-9223372036854775808");
    let mut buf = Vec::new();
    format_int32(&mut buf, 0);
    assert_eq!(text(&buf), "0");
}

#[test]
fn int_round_trip() {
    for v in [0, 1, -1, 10, 4096, i32::MIN, i32::MAX] {
        let mut buf = Vec::new();
        format_int32(&mut buf, v);
        assert_eq!(parse_int32(&text(&buf)), Ok(v));
    }
    for v in [0i64, -99, i64::MIN, i64::MAX] {
        let mut buf = Vec::new();
        format_int64(&mut buf, v);
        assert_eq!(parse_int64(&text(&buf)), Ok(v));
    }
}

#[test]
fn bytea_hex_form() {
    assert_eq!(parse_bytes("\\x68656c6c6f"), Ok(b"hello".to_vec()));
    assert_eq!(parse_bytes("\\x68656C6C6F"), Ok(b"hello".to_vec()));
    assert_eq!(parse_bytes("\\x"), Ok(vec![]));
}

#[test]
fn bytea_hex_errors() {
    assert_eq!(parse_bytes("\\x123"), Err(ParseError::Bytea(ByteaError::OddLength)));
    assert_eq!(
        parse_bytes("\\x12zz"),
        Err(ParseError::Bytea(ByteaError::InvalidHexCharacter('z', 2)))
    );
}

#[test]
fn bytea_traditional_form() {
    assert_eq!(parse_bytes("hel\\154o"), Ok(b"hello".to_vec()));
    assert_eq!(parse_bytes("a\\\\b"), Ok(b"a\\b".to_vec()));
    assert_eq!(parse_bytes("\\377\\000"), Ok(vec![255, 0]));
    assert_eq!(parse_bytes(""), Ok(vec![]));
}

#[test]
fn bytea_traditional_errors() {
    assert_eq!(parse_bytes("bad\\9"), Err(ParseError::Bytea(ByteaError::InvalidEscape)));
    assert_eq!(parse_bytes("bad\\"), Err(ParseError::Bytea(ByteaError::EndsWithEscape)));
    assert_eq!(parse_bytes("\\400"), Err(ParseError::Bytea(ByteaError::InvalidEscape)));
    assert_eq!(parse_bytes("\\12"), Err(ParseError::Bytea(ByteaError::InvalidEscape)));
}

#[test]
fn bytea_formats_lower_hex() {
    let mut buf = Vec::new();
    assert_eq!(format_bytes(&mut buf, b"hello"), Nestable::Yes);
    assert_eq!(text(&buf), "\\x68656c6c6f");
    let mut buf = Vec::new();
    format_bytes(&mut buf, &[0, 15, 255]);
    assert_eq!(text(&buf), "\\x000fff");
}

#[test]
fn bytea_round_trip() {
    let v: Vec<u8> = (0..=255).collect();
    let mut buf = Vec::new();
    format_bytes(&mut buf, &v);
    assert_eq!(parse_bytes(&text(&buf)), Ok(v));
}

#[test]
fn string_is_copied_verbatim() {
    let mut buf = vec!['x'];
    assert_eq!(format_string(&mut buf, "a,b é"), Nestable::MayNeedEscaping);
    assert_eq!(text(&buf), "xa,b é");
}

#[test]
fn float_special_words() {
    assert_eq!(classify_float("-Infinity"), FloatText::NegInfinity);
    assert_eq!(classify_float(" inf "), FloatText::PosInfinity);
    assert_eq!(classify_float("+INFINITY"), FloatText::PosInfinity);
    assert_eq!(classify_float("NaN"), FloatText::NaN);
    assert_eq!(classify_float("1.5"), FloatText::Number);
    assert_eq!(classify_float("infinite"), FloatText::Number);
}

#[test]
fn float_infinity_text() {
    let mut buf = Vec::new();
    assert_eq!(format_infinity(&mut buf, true), Nestable::Yes);
    assert_eq!(text(&buf), "-Infinity");
    let mut buf = Vec::new();
    format_infinity(&mut buf, false);
    assert_eq!(text(&buf), "Infinity");
    let v: f64 = f64::NEG_INFINITY;
    assert!(v.is_infinite() && v.is_sign_negative());
}
