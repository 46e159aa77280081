use pgcopy::datetime::{
    format_date, format_time, format_timestamp, format_timestamptz, parse_date, parse_time,
    parse_timestamp, parse_timestamptz, Date, Time, Timestamp, TimestampTz,
};
use pgcopy::error::{DateTimeError, ParseError, TypeName};
use pgcopy::strconv::Nestable;

fn text(buf: &[char]) -> String {
    buf.iter().collect()
}

fn date(year: i32, month: u32, day: u32) -> Date {
    Date { year, month, day }
}

fn time(hour: u32, minute: u32, second: u32, nano: u32) -> Time {
    Time { hour, minute, second, nano }
}

#[test]
fn epoch_is_1970() {
    assert_eq!(parse_date("epoch"), Ok(date(1970, 1, 1)));
    assert_eq!(
        parse_timestamp("epoch"),
        Ok(Timestamp { date: date(1970, 1, 1), time: time(0, 0, 0, 0) })
    );
}

#[test]
fn dates_parse_and_check_the_calendar() {
    assert_eq!(parse_date("2020-02-29"), Ok(date(2020, 2, 29)));
    assert_eq!(parse_date(" 2020-1-5 "), Ok(date(2020, 1, 5)));
    assert_eq!(parse_date("2020-01-02 03:04:05"), Ok(date(2020, 1, 2)));
    assert_eq!(
        parse_date("2021-02-29"),
        Err(ParseError::DateTime(TypeName::Date, DateTimeError::OutOfRange))
    );
    assert_eq!(
        parse_date("2021-13-01"),
        Err(ParseError::DateTime(TypeName::Date, DateTimeError::OutOfRange))
    );
    assert_eq!(
        parse_date("2021/01/01"),
        Err(ParseError::DateTime(TypeName::Date, DateTimeError::Syntax))
    );
    assert_eq!(parse_date(""), Err(ParseError::DateTime(TypeName::Date, DateTimeError::Empty)));
}

#[test]
fn timestamps_with_fractions() {
    assert_eq!(
        parse_timestamp("2020-01-02 03:04:05.5"),
        Ok(Timestamp { date: date(2020, 1, 2), time: time(3, 4, 5, 500_000_000) })
    );
    assert_eq!(
        parse_timestamp("2020-01-02 03:04:05.123456789"),
        Ok(Timestamp { date: date(2020, 1, 2), time: time(3, 4, 5, 123_456_789) })
    );
    assert_eq!(
        parse_timestamp("2020-01-02 24:00:00"),
        Err(ParseError::DateTime(TypeName::Timestamp, DateTimeError::OutOfRange))
    );
}

#[test]
fn times_parse() {
    assert_eq!(parse_time("12:30:15"), Ok(time(12, 30, 15, 0)));
    assert_eq!(parse_time("00:00:00.000001"), Ok(time(0, 0, 0, 1000)));
    assert_eq!(
        parse_time("12:30"),
        Err(ParseError::DateTime(TypeName::Time, DateTimeError::Syntax))
    );
    assert_eq!(
        parse_time("12:60:00"),
        Err(ParseError::DateTime(TypeName::Time, DateTimeError::OutOfRange))
    );
}

#[test]
fn timestamptz_applies_the_offset() {
    let r = parse_timestamptz("2020-01-02 03:04:05+05:30").unwrap();
    assert_eq!(r, TimestampTz { utc: Timestamp { date: date(2020, 1, 1), time: time(21, 34, 5, 0) } });
    let r = parse_timestamptz("2020-01-02 03:04:05 -02").unwrap();
    assert_eq!(r.utc.time, time(5, 4, 5, 0));
    let r = parse_timestamptz("2020-01-02 03:04:05").unwrap();
    assert_eq!(r.utc.time, time(3, 4, 5, 0));
    assert_eq!(
        parse_timestamptz("2020-01-02 03:04:05+99"),
        Err(ParseError::DateTime(TypeName::TimestampTz, DateTimeError::InvalidOffset))
    );
}

#[test]
fn formats_pad_and_trim_fractions() {
    let mut buf = Vec::new();
    assert_eq!(format_date(&mut buf, date(33, 4, 5)), Nestable::MayNeedEscaping);
    assert_eq!(text(&buf), "0033-04-05");
    let mut buf = Vec::new();
    format_time(&mut buf, time(1, 2, 3, 450_000_000));
    assert_eq!(text(&buf), "01:02:03.45");
    let mut buf = Vec::new();
    format_time(&mut buf, time(1, 2, 3, 0));
    assert_eq!(text(&buf), "01:02:03");
    let mut buf = Vec::new();
    format_time(&mut buf, time(1, 2, 3, 7));
    assert_eq!(text(&buf), "01:02:03.000000007");
    let mut buf = Vec::new();
    format_timestamp(&mut buf, Timestamp { date: date(2020, 12, 31), time: time(23, 59, 59, 100) });
    assert_eq!(text(&buf), "2020-12-31 23:59:59.0000001");
    let mut buf = Vec::new();
    format_timestamptz(
        &mut buf,
        TimestampTz { utc: Timestamp { date: date(2020, 1, 1), time: time(0, 0, 0, 250_000_000) } },
    );
    assert_eq!(text(&buf), "2020-01-01 00:00:00+00.25");
}

#[test]
fn timestamp_round_trip() {
    let ts = Timestamp { date: date(1999, 12, 31), time: time(23, 59, 58, 120_000_000) };
    let mut buf = Vec::new();
    format_timestamp(&mut buf, ts);
    assert_eq!(parse_timestamp(&text(&buf)), Ok(ts));
    let mut buf = Vec::new();
    format_date(&mut buf, ts.date);
    assert_eq!(parse_date(&text(&buf)), Ok(ts.date));
    let mut buf = Vec::new();
    format_time(&mut buf, ts.time);
    assert_eq!(parse_time(&text(&buf)), Ok(ts.time));
    let tz = TimestampTz { utc: Timestamp { date: date(2001, 2, 3), time: time(4, 5, 6, 0) } };
    let mut buf = Vec::new();
    format_timestamptz(&mut buf, tz);
    assert_eq!(parse_timestamptz(&text(&buf)), Ok(tz));
}

#[test]
fn years_beyond_four_digits_carry_a_sign() {
    let mut buf = Vec::new();
    format_date(&mut buf, date(10000, 12, 31));
    assert_eq!(text(&buf), "+10000-12-31");
    let mut buf = Vec::new();
    format_date(&mut buf, date(9999, 1, 2));
    assert_eq!(text(&buf), "9999-01-02");
}

#[test]
fn timestamptz_round_trip_whole_seconds() {
    let tz = TimestampTz { utc: Timestamp { date: date(1, 1, 1), time: time(0, 0, 0, 0) } };
    let mut buf = Vec::new();
    format_timestamptz(&mut buf, tz);
    assert_eq!(text(&buf), "0001-01-01 00:00:00+00");
    assert_eq!(parse_timestamptz(&text(&buf)), Ok(tz));
    let r = parse_timestamptz("2020-01-01 00:30:00+01").unwrap();
    assert_eq!(r.utc, Timestamp { date: date(2019, 12, 31), time: time(23, 30, 0, 0) });
}
