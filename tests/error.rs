use pgcopy::datetime::parse_date;
use pgcopy::error::{ListError, ParseError};
use pgcopy::list::split_list;
use pgcopy::strconv::{parse_bool, parse_bytes, parse_int32};

#[test]
fn date_errors_name_the_type_and_literal() {
    let e = parse_date("2021-02-30").unwrap_err();
    assert_eq!(e.message("2021-02-30"), "Invalid DATE '2021-02-30': field value out of range");
    let e = parse_date("soon").unwrap_err();
    assert_eq!(e.message("soon"), "Invalid DATE 'soon': invalid syntax");
}

#[test]
fn other_error_messages() {
    assert_eq!(parse_bool("maybe").unwrap_err().message("maybe"), "unable to parse bool");
    assert_eq!(
        parse_int32("x").unwrap_err().message("x"),
        "invalid digit found in string"
    );
    assert_eq!(
        parse_bytes("bad\\9").unwrap_err().message("bad\\9"),
        "invalid bytea escape sequence"
    );
    let e = ParseError::List(split_list("{\"1\";2}").unwrap_err());
    assert_eq!(e, ParseError::List(ListError::ExpectedDelimiter(';')));
    assert_eq!(e.message(""), "expected ',' or '}', found ';'");
}
