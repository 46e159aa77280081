use pgcopy::error::ParseError;
use pgcopy::jsonb::{format_jsonb, format_jsonb_pretty, parse_jsonb};
use pgcopy::strconv::Nestable;

fn text(buf: &[char]) -> String {
    buf.iter().collect()
}

#[test]
fn json_compact_and_pretty() {
    let j = parse_jsonb("  { \"b\" : [1, 2], \"a\": null }  ").unwrap();
    let mut buf = Vec::new();
    assert_eq!(format_jsonb(&mut buf, &j), Nestable::MayNeedEscaping);
    assert_eq!(text(&buf), "{\"a\":null,\"b\":[1,2]}");
    let mut buf = Vec::new();
    format_jsonb_pretty(&mut buf, &j);
    assert_eq!(text(&buf), "{\n  \"a\": null,\n  \"b\": [\n    1,\n    2\n  ]\n}");
}

#[test]
fn json_rejects_garbage() {
    assert!(matches!(parse_jsonb("{oops"), Err(ParseError::Json)));
    assert!(matches!(parse_jsonb(""), Err(ParseError::Json)));
}
