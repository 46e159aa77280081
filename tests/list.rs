use pgcopy::error::{ListError, ParseError};
use pgcopy::list::{escape_list_elem, format_list, parse_list, split_list, ListElementWriter};
use pgcopy::strconv::{format_int32, format_string, parse_int32, Nestable};

fn text(buf: &[char]) -> String {
    buf.iter().collect()
}

#[derive(Debug, PartialEq)]
enum Elem {
    Null,
    Int(i32),
}

fn int_elem(s: &str) -> Result<Elem, ParseError> {
    parse_int32(s).map(Elem::Int)
}

fn write_int(w: ListElementWriter, e: &Option<i32>) -> (Vec<char>, Nestable) {
    match e {
        None => w.write_null(),
        Some(v) => {
            let mut b = w.nonnull_buffer();
            let n = format_int32(&mut b, *v);
            (b, n)
        }
    }
}

fn write_str(w: ListElementWriter, e: &&str) -> (Vec<char>, Nestable) {
    let mut b = w.nonnull_buffer();
    let n = format_string(&mut b, e);
    (b, n)
}

#[test]
fn parse_list_with_null() {
    let r = parse_list("{1,NULL,3}", || Elem::Null, int_elem);
    assert_eq!(r, Ok(vec![Elem::Int(1), Elem::Null, Elem::Int(3)]));
}

#[test]
fn parse_list_spaces_and_quotes() {
    let r = parse_list("{ 1 , \"2\" ,  NULL }", || Elem::Null, int_elem);
    assert_eq!(r, Ok(vec![Elem::Int(1), Elem::Int(2), Elem::Null]));
    let r = parse_list("{}", || Elem::Null, int_elem);
    assert_eq!(r, Ok(vec![]));
}

#[test]
fn quoted_null_is_text() {
    let items = split_list("{\"NULL\",NULL,\"a\\\"b\\\\c\"}").unwrap();
    assert_eq!(
        items,
        vec![Some("NULL".to_string()), None, Some("a\"b\\c".to_string())]
    );
}

#[test]
fn nested_list_is_captured_whole() {
    let items = split_list("{{1,2},{3,{4}},NULL}").unwrap();
    assert_eq!(
        items,
        vec![Some("{1,2}".to_string()), Some("{3,{4}}".to_string()), None]
    );
}

#[test]
fn parse_nested_lists() {
    let r = parse_list(
        "{{1,NULL},{3}}",
        || vec![],
        |s| parse_list(s, || Elem::Null, int_elem),
    );
    assert_eq!(
        r,
        Ok(vec![vec![Elem::Int(1), Elem::Null], vec![Elem::Int(3)]])
    );
}

#[test]
fn list_syntax_errors() {
    let p = |s: &str| parse_list(s, || Elem::Null, int_elem);
    assert_eq!(p(""), Err(ParseError::List(ListError::UnexpectedEnd)));
    assert_eq!(p("1,2}"), Err(ParseError::List(ListError::ExpectedOpenBrace('1'))));
    assert_eq!(p("{1,2"), Err(ParseError::List(ListError::UnexpectedEnd)));
    assert_eq!(p("{1}x"), Err(ParseError::List(ListError::UnexpectedLeftover('x'))));
    assert_eq!(p("{}x"), Err(ParseError::List(ListError::UnexpectedLeftover('x'))));
    assert_eq!(p("{\"a\\b\"}"), Err(ParseError::List(ListError::BadEscape('b'))));
    assert_eq!(p("{\"1\" 2}"), Err(ParseError::List(ListError::ExpectedDelimiter('2'))));
    assert_eq!(p("{\"1"), Err(ParseError::List(ListError::UnexpectedEnd)));
}

#[test]
fn element_errors_pass_through() {
    let r = parse_list("{1,x}", || Elem::Null, int_elem);
    assert_eq!(r, Err(ParseError::Int(pgcopy::error::IntError::InvalidDigit)));
}

#[test]
fn format_list_escapes_when_needed() {
    let mut buf = Vec::new();
    let n = format_list(&mut buf, &["a,b", "c"], write_str);
    assert_eq!(n, Nestable::Yes);
    assert_eq!(text(&buf), "{\"a,b\",c}");
}

#[test]
fn format_list_escape_cases() {
    let mut buf = Vec::new();
    format_list(&mut buf, &["", "NULL", "x\"y", "b\\s", "{}", " "], write_str);
    assert_eq!(
        text(&buf),
        "{\"\",\"NULL\",\"x\\\"y\",\"b\\\\s\",\"{}\",\" \"}"
    );
    let mut buf = Vec::new();
    format_list::<&str, _>(&mut buf, &[], write_str);
    assert_eq!(text(&buf), "{}");
}

#[test]
fn escape_in_place_after_prefix() {
    let mut buf: Vec<char> = "pre:a\"b".chars().collect();
    escape_list_elem(&mut buf, 4);
    assert_eq!(text(&buf), "pre:\"a\\\"b\"");
    let mut buf: Vec<char> = "pre:plain".chars().collect();
    escape_list_elem(&mut buf, 4);
    assert_eq!(text(&buf), "pre:plain");
}

#[test]
fn int_list_round_trip() {
    let items = vec![Some(1), None, Some(-30), Some(i32::MAX)];
    let mut buf = Vec::new();
    format_list(&mut buf, &items, write_int);
    let s = text(&buf);
    assert_eq!(s, "{1,NULL,-30,2147483647}");
    let back = parse_list(&s, || None, |e| parse_int32(e).map(Some)).unwrap();
    assert_eq!(back, items);
}

#[test]
fn nested_list_round_trip() {
    let items = vec![vec![Some(1), None], vec![], vec![Some(3)]];
    let mut buf = Vec::new();
    format_list(&mut buf, &items, |w: ListElementWriter, inner: &Vec<Option<i32>>| {
        let mut b = w.nonnull_buffer();
        let n = format_list(&mut b, inner, write_int);
        (b, n)
    });
    let s = text(&buf);
    assert_eq!(s, "{{1,NULL},{},{3}}");
    let back = parse_list(
        &s,
        || vec![],
        |e| parse_list(e, || None, |x| parse_int32(x).map(Some)),
    )
    .unwrap();
    assert_eq!(back, items);
}

#[test]
fn string_list_round_trip() {
    let items = ["a,b", "", "NULL", "q\"\\", "plain"];
    let mut buf = Vec::new();
    format_list(&mut buf, &items, write_str);
    let s = text(&buf);
    let back = parse_list(&s, || "<null>".to_string(), |e| Ok(e.to_string())).unwrap();
    assert_eq!(back, items.iter().map(|s| s.to_string()).collect::<Vec<_>>());
}

#[test]
fn whitespace_around_null_stays_unquoted() {
    let mut buf = Vec::new();
    format_list(&mut buf, &["\tNULL"], write_str);
    assert_eq!(text(&buf), "{\tNULL}");
    assert_eq!(split_list(&text(&buf)).unwrap(), vec![None]);
}
