//! Dates, times and timestamps: their values, their text grammar
//! `<years>-<months>-<days>[ <hours>:<minutes>:<seconds>[.<fraction>]][<zone>]`
//! with a zone `+HH[:MM]` or `-HH[:MM]`, and their text forms.

use vstd::prelude::*;

use chrono::{Datelike, TimeZone, Timelike};

use crate::error::{DateTimeError, ParseError, TypeName};
use crate::strconv::{
    all_digits, digit_char, digit_value, digits_value, is_digit, lemma_digit_char, lemma_nat_text, nat_text,
    run_end, Nestable,
};
use crate::text::{chars_of, lemma_trim_plain, trim, trim_bounds};

verus! {

/// A calendar date.
#[derive(Debug, Clone, Copy, PartialEq, Eq, Structural)]
pub struct Date {
    pub year: i32,
    pub month: u32,
    pub day: u32,
}

/// A time of day, with nanoseconds.
#[derive(Debug, Clone, Copy, PartialEq, Eq, Structural)]
pub struct Time {
    pub hour: u32,
    pub minute: u32,
    pub second: u32,
    pub nano: u32,
}

/// A date and a time of day, in no particular zone.
#[derive(Debug, Clone, Copy, PartialEq, Eq, Structural)]
pub struct Timestamp {
    pub date: Date,
    pub time: Time,
}

/// An instant, held as its date and time in UTC.
#[derive(Debug, Clone, Copy, PartialEq, Eq, Structural)]
pub struct TimestampTz {
    pub utc: Timestamp,
}

pub open spec fn is_leap_year(y: int) -> bool {
    (y % 4 == 0 && y % 100 != 0) || y % 400 == 0
}

pub open spec fn days_in_month(y: int, m: int) -> int {
    if m == 2 {
        if is_leap_year(y) {
            29
        } else {
            28
        }
    } else if m == 4 || m == 6 || m == 9 || m == 11 {
        30
    } else {
        31
    }
}

/// A date of the proleptic Gregorian calendar, within the years that
/// `chrono` represents.
pub open spec fn valid_ymd(y: int, m: int, d: int) -> bool {
    -262143 <= y <= 262142 && 1 <= m <= 12 && 1 <= d <= days_in_month(y, m)
}

/// A time of day without a leap second.
pub open spec fn valid_hms(h: int, m: int, s: int, nano: int) -> bool {
    0 <= h < 24 && 0 <= m < 60 && 0 <= s < 60 && 0 <= nano < 1_000_000_000
}

impl Date {
    pub open spec fn valid(&self) -> bool {
        valid_ymd(self.year as int, self.month as int, self.day as int)
    }
}

impl Time {
    pub open spec fn valid(&self) -> bool {
        valid_hms(self.hour as int, self.minute as int, self.second as int, self.nano as int)
    }
}

impl Timestamp {
    pub open spec fn valid(&self) -> bool {
        self.date.valid() && self.time.valid()
    }
}

/// The number of days from 1970-01-01 to the given day of the proleptic
/// Gregorian calendar.
pub open spec fn days_from_civil(y: int, m: int, d: int) -> int {
    let yy = if m <= 2 {
        y - 1
    } else {
        y
    };
    let era = yy / 400;
    let yoe = yy - era * 400;
    let mp = if m > 2 {
        m - 3
    } else {
        m + 9
    };
    let doy = (153 * mp + 2) / 5 + d - 1;
    let doe = yoe * 365 + yoe / 4 - yoe / 100 + doy;
    era * 146097 + doe - 719468
}

/// The whole seconds from 1970-01-01 00:00:00 to a date and time.
pub open spec fn seconds_of(ts: Timestamp) -> int {
    days_from_civil(ts.date.year as int, ts.date.month as int, ts.date.day as int) * 86400
        + ts.time.hour * 3600 + ts.time.minute * 60 + ts.time.second
}

/// The first second that `chrono` represents: -262143-01-01 00:00:00.
pub open spec fn first_second() -> int {
    days_from_civil(-262143, 1, 1) * 86400
}

/// The last second that `chrono` represents: 262142-12-31 23:59:59.
pub open spec fn last_second() -> int {
    days_from_civil(262142, 12, 31) * 86400 + 86399
}

/// Relies on `chrono::NaiveDate::from_ymd_opt`: it gives a date exactly for
/// the days of the proleptic Gregorian calendar in years `MIN_YEAR` to
/// `MAX_YEAR` (-262143 to 262142).
#[verifier::external_body]
fn date_exists(y: i32, m: u32, d: u32) -> (r: bool)
    ensures
        r == valid_ymd(y as int, m as int, d as int),
{
    chrono::NaiveDate::from_ymd_opt(y, m, d).is_some()
}

/// Relies on `chrono::FixedOffset::from_local_datetime`: the UTC date and
/// time of a local one, the offset subtracted, or none where the offset is
/// not under a day or the result leaves chrono's range. A result is a real
/// date and a time of day, `offset` seconds earlier, with the nanoseconds
/// kept; a zero offset keeps the date and time.
#[verifier::external_body]
fn shift_to_utc(ts: Timestamp, offset: i32) -> (r: Option<Timestamp>)
    requires
        ts.valid(),
    ensures
        r is Some <==> (-86400 < offset < 86400 && first_second() <= seconds_of(ts) - offset <= last_second()),
        r is Some ==> (r->Some_0.valid() && r->Some_0.time.nano == ts.time.nano && seconds_of(r->Some_0) == seconds_of(ts) - offset),
        offset == 0 ==> r == Some(ts),
{
    let (d, t) = (ts.date, ts.time);
    let local = chrono::NaiveDate::from_ymd_opt(d.year, d.month, d.day)?.and_hms_nano_opt(t.hour, t.minute, t.second, t.nano)?;
    let u = chrono::FixedOffset::east_opt(offset)?.from_local_datetime(&local).earliest()?.naive_utc();
    Some(Timestamp {
        date: Date { year: u.year(), month: u.month(), day: u.day() },
        time: Time { hour: u.hour(), minute: u.minute(), second: u.second(), nano: u.nanosecond() },
    })
}

/// A field of one to nine digits starts at `i`.
pub open spec fn field_ok(s: Seq<char>, i: int) -> bool {
    0 <= i < run_end(s, i) <= i + 9
}

pub open spec fn field_value(s: Seq<char>, i: int) -> int {
    digits_value(s.subrange(i, run_end(s, i)))
}

pub open spec fn char_at(s: Seq<char>, i: int, c: char) -> bool {
    0 <= i < s.len() && s[i] == c
}

pub open spec fn pow10(n: nat) -> nat
    decreases n,
{
    if n == 0 {
        1
    } else {
        10 * pow10((n - 1) as nat)
    }
}

/// The date `<years>-<months>-<days>` at `i`: its fields and its end.
pub open spec fn date_at(s: Seq<char>, i: int) -> Option<(int, int, int, int)> {
    let e1 = run_end(s, i);
    let e2 = run_end(s, e1 + 1);
    if field_ok(s, i) && char_at(s, e1, '-') && field_ok(s, e1 + 1) && char_at(s, e2, '-') && field_ok(
        s,
        e2 + 1,
    ) {
        Some((field_value(s, i), field_value(s, e1 + 1), field_value(s, e2 + 1), run_end(s, e2 + 1)))
    } else {
        None
    }
}

/// The time `<hours>:<minutes>:<seconds>[.<fraction>]` at `i`: its fields,
/// the fraction in nanoseconds, and its end.
pub open spec fn time_at(s: Seq<char>, i: int) -> Option<(int, int, int, int, int)> {
    let e1 = run_end(s, i);
    let e2 = run_end(s, e1 + 1);
    let e3 = run_end(s, e2 + 1);
    if field_ok(s, i) && char_at(s, e1, ':') && field_ok(s, e1 + 1) && char_at(s, e2, ':') && field_ok(
        s,
        e2 + 1,
    ) {
        let (h, m, sec) = (field_value(s, i), field_value(s, e1 + 1), field_value(s, e2 + 1));
        if char_at(s, e3, '.') {
            if field_ok(s, e3 + 1) {
                let n = field_value(s, e3 + 1) * pow10((9 - (run_end(s, e3 + 1) - (e3 + 1))) as nat);
                Some((h, m, sec, n, run_end(s, e3 + 1)))
            } else {
                None
            }
        } else {
            Some((h, m, sec, 0, e3))
        }
    } else {
        None
    }
}

pub open spec fn spaces_end(s: Seq<char>, i: int) -> int
    decreases s.len() - i,
{
    if 0 <= i < s.len() && s[i] == ' ' {
        spaces_end(s, i + 1)
    } else {
        i
    }
}

/// The zone offset in seconds east of UTC that ends `s` from `i` on:
/// nothing but spaces for zero, else a sign, hours, and optionally `:`
/// and minutes.
pub open spec fn zone_at(s: Seq<char>, i: int) -> Option<int> {
    let k = spaces_end(s, i);
    if k >= s.len() {
        Some(0)
    } else if (s[k] == '+' || s[k] == '-') && field_ok(s, k + 1) {
        let e = run_end(s, k + 1);
        let hh = field_value(s, k + 1);
        let sign = if s[k] == '-' {
            -1int
        } else {
            1int
        };
        if char_at(s, e, ':') {
            if field_ok(s, e + 1) && run_end(s, e + 1) == s.len() {
                Some(sign * (hh * 3600 + field_value(s, e + 1) * 60))
            } else {
                None
            }
        } else if e == s.len() {
            Some(sign * hh * 3600)
        } else {
            None
        }
    } else {
        None
    }
}

pub open spec fn epoch_word() -> Seq<char> {
    seq!['e', 'p', 'o', 'c', 'h']
}

pub open spec fn epoch_date() -> Date {
    Date { year: 1970, month: 1, day: 1 }
}

pub open spec fn midnight() -> Time {
    Time { hour: 0, minute: 0, second: 0, nano: 0 }
}

/// The date, time and zone offset of a timestamp literal.
pub open spec fn timestamp_parts(t: Seq<char>) -> Result<(Date, Time, int), DateTimeError> {
    if t.len() == 0 {
        Err(DateTimeError::Empty)
    } else if t == epoch_word() {
        Ok((epoch_date(), midnight(), 0))
    } else {
        match date_at(t, 0) {
            None => Err(DateTimeError::Syntax),
            Some((y, mo, d, e)) => {
                let has_time = char_at(t, e, ' ') && e + 1 < t.len() && is_digit(t[e + 1]);
                let tm = if has_time {
                    time_at(t, e + 1)
                } else {
                    Some((0, 0, 0, 0, e))
                };
                match tm {
                    None => Err(DateTimeError::Syntax),
                    Some((h, mi, sec, n, k)) => match zone_at(t, k) {
                        None => Err(DateTimeError::Syntax),
                        Some(off) => {
                            if !valid_ymd(y, mo, d) || !valid_hms(h, mi, sec, n) {
                                Err(DateTimeError::OutOfRange)
                            } else {
                                Ok(
                                    (
                                        Date { year: y as i32, month: mo as u32, day: d as u32 },
                                        Time {
                                            hour: h as u32,
                                            minute: mi as u32,
                                            second: sec as u32,
                                            nano: n as u32,
                                        },
                                        off,
                                    ),
                                )
                            }
                        },
                    },
                }
            },
        }
    }
}

/// A time literal: a time and nothing else.
pub open spec fn time_parts(t: Seq<char>) -> Result<Time, DateTimeError> {
    if t.len() == 0 {
        Err(DateTimeError::Empty)
    } else {
        match time_at(t, 0) {
            Some((h, mi, sec, n, k)) => {
                if k != t.len() {
                    Err(DateTimeError::Syntax)
                } else if !valid_hms(h, mi, sec, n) {
                    Err(DateTimeError::OutOfRange)
                } else {
                    Ok(Time { hour: h as u32, minute: mi as u32, second: sec as u32, nano: n as u32 })
                }
            },
            None => Err(DateTimeError::Syntax),
        }
    }
}


pub(crate) proof fn lemma_digits_bound(d: Seq<char>)
    requires
        all_digits(d),
    ensures
        0 <= digits_value(d) < pow10(d.len()),
    decreases d.len(),
{
    if d.len() > 0 {
        let p = d.drop_last();
        assert(all_digits(p)) by {
            assert forall|i: int| 0 <= i < p.len() implies is_digit(#[trigger] p[i]) by {
                assert(p[i] == d[i]);
            }
        }
        lemma_digits_bound(p);
        assert(is_digit(d[d.len() - 1]));
        assert(pow10(d.len()) == 10 * pow10(p.len()));
    }
}

proof fn lemma_pow10_small(n: nat)
    requires
        n <= 10,
    ensures
        1 <= pow10(n) <= 10_000_000_000,
{
    lemma_pow10_mono(n, 10);
    lemma_pow10_mono(0, n);
    assert(pow10(10) == 10_000_000_000) by {
        reveal_with_fuel(pow10, 11);
    }
}

/// The digit field at `i`, if one of one to nine digits starts there: its
/// value and its end.
fn field_at(cs: &Vec<char>, i: usize) -> (r: Option<(u64, usize)>)
    ensures
        r is Some <==> field_ok(cs@, i as int),
        r is Some ==> r->Some_0.0 as int == field_value(cs@, i as int) && r->Some_0.1 as int == run_end(
            cs@,
            i as int,
        ) && r->Some_0.0 < 1_000_000_000 && r->Some_0.1 <= cs@.len(),
{
    let mut j = i;
    let mut acc: u64 = 0;
    while j < cs.len() && '0' <= cs[j] && cs[j] <= '9' && j - i < 10
        invariant
            i <= j,
            j <= cs@.len() || j == i,
            j - i <= 10,
            run_end(cs@, i as int) == run_end(cs@, j as int),
            i < cs@.len() ==> all_digits(cs@.subrange(i as int, j as int)) && acc as int == digits_value(
                cs@.subrange(i as int, j as int),
            ),
            acc < pow10((j - i) as nat),
        decreases cs@.len() - j,
    {
        let ghost p = cs@.subrange(i as int, j + 1);
        proof {
            assert(p.drop_last() =~= cs@.subrange(i as int, j as int));
            assert(all_digits(p));
            lemma_digits_bound(p);
            lemma_pow10_small((j - i) as nat);
            lemma_pow10_small((j + 1 - i) as nat);
            assert(pow10((j + 1 - i) as nat) == 10 * pow10((j - i) as nat));
        }
        acc = acc * 10 + (cs[j] as u32 - 48) as u64;
        j = j + 1;
    }
    if j == i || j - i == 10 {
        proof {
            if j - i == 10 {
                assert(run_end(cs@, i as int) >= j) by {
                    lemma_run_end_at_least(cs@, j as int);
                }
            }
        }
        None
    } else {
        proof {
            lemma_run_end_at_least(cs@, j as int);
            lemma_pow10_small((j - i) as nat);
            let d = cs@.subrange(i as int, j as int);
            lemma_digits_bound(d);
            assert(pow10(9) == 1_000_000_000) by {
                reveal_with_fuel(pow10, 10);
            }
            lemma_pow10_mono((j - i) as nat, 9);
        }
        Some((acc, j))
    }
}

proof fn lemma_run_end_at_least(s: Seq<char>, j: int)
    ensures
        run_end(s, j) >= j,
        !(0 <= run_end(s, j) < s.len() && is_digit(s[run_end(s, j)])),
    decreases s.len() - j,
{
    if 0 <= j < s.len() && is_digit(s[j]) {
        lemma_run_end_at_least(s, j + 1);
    }
}

pub(crate) proof fn lemma_pow10_mono(a: nat, b: nat)
    requires
        a <= b,
    ensures
        pow10(a) <= pow10(b),
    decreases b,
{
    if a < b {
        lemma_pow10_mono(a, (b - 1) as nat);
    }
}


fn char_is(cs: &Vec<char>, i: usize, c: char) -> (r: bool)
    ensures
        r == char_at(cs@, i as int, c),
{
    i < cs.len() && cs[i] == c
}

fn date_fields(cs: &Vec<char>, i: usize) -> (r: Option<(u64, u64, u64, usize)>)
    ensures
        match date_at(cs@, i as int) {
            None => r is None,
            Some((y, m, d, e)) => r is Some && r->Some_0.0 as int == y && r->Some_0.1 as int == m
                && r->Some_0.2 as int == d && r->Some_0.3 as int == e && y < 1_000_000_000 && m
                < 1_000_000_000 && d < 1_000_000_000 && e <= cs@.len(),
        },
{
    let (y, e1) = match field_at(cs, i) {
        Some(f) => f,
        None => return None,
    };
    if !char_is(cs, e1, '-') {
        return None;
    }
    assert(e1 < cs.len());
    let (m, e2) = match field_at(cs, e1 + 1) {
        Some(f) => f,
        None => return None,
    };
    if !char_is(cs, e2, '-') {
        return None;
    }
    assert(e2 < cs.len());
    let (d, e3) = match field_at(cs, e2 + 1) {
        Some(f) => f,
        None => return None,
    };
    Some((y, m, d, e3))
}

fn frac_nanos(v: u64, len: usize) -> (r: u64)
    requires
        1 <= len <= 9,
        v < pow10(len as nat),
    ensures
        r as int == v * pow10((9 - len) as nat),
        r < 1_000_000_000,
{
    let mut n = v;
    let mut k = len;
    proof {
        lemma_pow10_small(9);
        assert(pow10(9) == 1_000_000_000) by {
            reveal_with_fuel(pow10, 10);
        }
        assert(pow10(0) == 1);
        assert(v * pow10(0) == v);
    }
    while k < 9
        invariant
            len <= k <= 9,
            n as int == v * pow10((k - len) as nat),
            n < pow10(k as nat),
            pow10(9) == 1_000_000_000,
        decreases 9 - k,
    {
        proof {
            lemma_pow10_mono((k + 1) as nat, 9);
            assert(pow10((k + 1 - len) as nat) == 10 * pow10((k - len) as nat));
            assert(pow10((k + 1) as nat) == 10 * pow10(k as nat));
            assert(v * pow10((k + 1 - len) as nat) == (v * pow10((k - len) as nat)) * 10) by (nonlinear_arith)
                requires
                    pow10((k + 1 - len) as nat) == 10 * pow10((k - len) as nat),
            ;
        }
        n = n * 10;
        k = k + 1;
    }
    n
}

fn time_fields(cs: &Vec<char>, i: usize) -> (r: Option<(u64, u64, u64, u64, usize)>)
    ensures
        match time_at(cs@, i as int) {
            None => r is None,
            Some((h, m, sec, n, e)) => r is Some && r->Some_0.0 as int == h && r->Some_0.1 as int == m
                && r->Some_0.2 as int == sec && r->Some_0.3 as int == n && r->Some_0.4 as int == e
                && e <= cs@.len() && h < 1_000_000_000 && m < 1_000_000_000 && sec < 1_000_000_000 && n
                < 1_000_000_000,
        },
{
    let (h, e1) = match field_at(cs, i) {
        Some(f) => f,
        None => return None,
    };
    if !char_is(cs, e1, ':') {
        return None;
    }
    assert(e1 < cs.len());
    let (m, e2) = match field_at(cs, e1 + 1) {
        Some(f) => f,
        None => return None,
    };
    if !char_is(cs, e2, ':') {
        return None;
    }
    assert(e2 < cs.len());
    let (sec, e3) = match field_at(cs, e2 + 1) {
        Some(f) => f,
        None => return None,
    };
    if char_is(cs, e3, '.') {
        match field_at(cs, e3 + 1) {
            Some((f, e4)) => {
                proof {
                    assert(all_digits(cs@.subrange(e3 + 1, e4 as int))) by {
                        lemma_run_digits(cs@, e3 + 1);
                    }
                    lemma_digits_bound(cs@.subrange(e3 + 1, e4 as int));
                }
                Some((h, m, sec, frac_nanos(f, e4 - e3 - 1), e4))
            },
            None => None,
        }
    } else {
        Some((h, m, sec, 0, e3))
    }
}

pub(crate) proof fn lemma_run_digits(s: Seq<char>, i: int)
    requires
        0 <= i <= s.len(),
    ensures
        all_digits(s.subrange(i, run_end(s, i))),
        run_end(s, i) >= i,
        run_end(s, i) <= s.len() || run_end(s, i) == i,
    decreases s.len() - i,
{
    if 0 <= i < s.len() && is_digit(s[i]) {
        lemma_run_digits(s, i + 1);
        let e = run_end(s, i);
        assert forall|k: int| 0 <= k < e - i implies is_digit(#[trigger] s.subrange(i, e)[k]) by {
            if k > 0 {
                assert(s.subrange(i, e)[k] == s.subrange(i + 1, e)[k - 1]);
            }
        }
    } else {
        assert(s.subrange(i, i).len() == 0);
    }
}

fn spaces_from(cs: &Vec<char>, i: usize) -> (r: usize)
    requires
        i <= cs@.len(),
    ensures
        r as int == spaces_end(cs@, i as int),
        i <= r <= cs@.len(),
{
    let mut k = i;
    while k < cs.len() && cs[k] == ' '
        invariant
            i <= k <= cs@.len(),
            spaces_end(cs@, i as int) == spaces_end(cs@, k as int),
        decreases cs@.len() - k,
    {
        k = k + 1;
    }
    k
}

fn zone_offset(cs: &Vec<char>, i: usize) -> (r: Option<i64>)
    requires
        i <= cs@.len(),
    ensures
        match zone_at(cs@, i as int) {
            None => r is None,
            Some(off) => r == Some(off as i64) && -4_000_000_000_000 < off < 4_000_000_000_000,
        },
{
    let k = spaces_from(cs, i);
    if k >= cs.len() {
        return Some(0);
    }
    let c = cs[k];
    if !(c == '+' || c == '-') {
        return None;
    }
    let (hh, e) = match field_at(cs, k + 1) {
        Some(f) => f,
        None => return None,
    };
    let sign: i64 = if c == '-' {
        -1
    } else {
        1
    };
    if char_is(cs, e, ':') {
        match field_at(cs, e + 1) {
            Some((mm, e2)) => {
                if e2 == cs.len() {
                    Some(sign * (hh as i64 * 3600 + mm as i64 * 60))
                } else {
                    None
                }
            },
            None => None,
        }
    } else if e == cs.len() {
        Some(sign * hh as i64 * 3600)
    } else {
        None
    }
}

fn is_epoch(cs: &Vec<char>, lo: usize, hi: usize) -> (r: bool)
    requires
        lo <= hi <= cs@.len(),
    ensures
        r == (cs@.subrange(lo as int, hi as int) == epoch_word()),
{
    let r = hi - lo == 5 && cs[lo] == 'e' && cs[lo + 1] == 'p' && cs[lo + 2] == 'o' && cs[lo + 3] == 'c'
        && cs[lo + 4] == 'h';
    proof {
        let t = cs@.subrange(lo as int, hi as int);
        if r {
            assert(t =~= epoch_word());
        }
        if t == epoch_word() {
            assert(t.len() == 5);
            assert(t[0] == 'e' && t[1] == 'p' && t[2] == 'o' && t[3] == 'c' && t[4] == 'h');
            assert(cs@[lo as int] == t[0] && cs@[lo + 1] == t[1] && cs@[lo + 2] == t[2]);
            assert(cs@[lo + 3] == t[3] && cs@[lo + 4] == t[4]);
        }
    }
    r
}

fn valid_time(h: u64, m: u64, s: u64, n: u64) -> (r: bool)
    ensures
        r == valid_hms(h as int, m as int, s as int, n as int),
{
    h < 24 && m < 60 && s < 60 && n < 1_000_000_000
}

fn parts_of(cs: &Vec<char>) -> (r: Result<(Date, Time, i64), DateTimeError>)
    ensures
        match timestamp_parts(cs@) {
            Err(e) => r == Err::<(Date, Time, i64), DateTimeError>(e),
            Ok((d, t, off)) => r == Ok::<(Date, Time, i64), DateTimeError>((d, t, off as i64)) && -4_000_000_000_000
                < off < 4_000_000_000_000,
        },
{
    if cs.len() == 0 {
        return Err(DateTimeError::Empty);
    }
    assert(cs@.subrange(0, cs@.len() as int) == cs@);
    if is_epoch(cs, 0, cs.len()) {
        return Ok((Date { year: 1970, month: 1, day: 1 }, Time { hour: 0, minute: 0, second: 0, nano: 0 }, 0));
    }
    let (y, mo, d, e) = match date_fields(cs, 0) {
        Some(f) => f,
        None => return Err(DateTimeError::Syntax),
    };
    let has_time = char_is(cs, e, ' ') && e + 1 < cs.len() && '0' <= cs[e + 1] && cs[e + 1] <= '9';
    let (h, mi, sec, n, k) = if has_time {
        match time_fields(cs, e + 1) {
            Some(f) => f,
            None => return Err(DateTimeError::Syntax),
        }
    } else {
        (0, 0, 0, 0, e)
    };
    let off = match zone_offset(cs, k) {
        Some(o) => o,
        None => return Err(DateTimeError::Syntax),
    };
    if y > 262142 || !date_exists(y as i32, mo as u32, d as u32) || !valid_time(h, mi, sec, n) {
        return Err(DateTimeError::OutOfRange);
    }
    Ok(
        (
            Date { year: y as i32, month: mo as u32, day: d as u32 },
            Time { hour: h as u32, minute: mi as u32, second: sec as u32, nano: n as u32 },
            off,
        ),
    )
}

/// The trimmed characters of `s`.
pub(crate) fn trimmed_chars(s: &str) -> (r: Vec<char>)
    ensures
        r@ == trim(s@),
{
    let all = chars_of(s);
    let (a, b) = trim_bounds(&all, 0, all.len());
    assert(all@.subrange(0, all@.len() as int) == s@);
    let mut cs: Vec<char> = Vec::new();
    let mut i = a;
    while i < b
        invariant
            a <= i <= b <= all@.len(),
            cs@ == all@.subrange(a as int, i as int),
        decreases b - i,
    {
        cs.push(all[i]);
        i = i + 1;
        assert(cs@ =~= all@.subrange(a as int, i as int));
    }
    cs
}


/// Parses a date from a string: the date of a timestamp literal.
pub fn parse_date(s: &str) -> (r: Result<Date, ParseError>)
    ensures
        match timestamp_parts(trim(s@)) {
            Ok((d, _, _)) => r == Ok::<Date, ParseError>(d),
            Err(e) => r == Err::<Date, ParseError>(ParseError::DateTime(TypeName::Date, e)),
        },
{
    let cs = trimmed_chars(s);
    match parts_of(&cs) {
        Ok((d, _, _)) => Ok(d),
        Err(e) => Err(ParseError::DateTime(TypeName::Date, e)),
    }
}

/// Parses a time of day from a string:
/// `<hours>:<minutes>:<seconds>[.<fraction>]`.
pub fn parse_time(s: &str) -> (r: Result<Time, ParseError>)
    ensures
        match time_parts(trim(s@)) {
            Ok(t) => r == Ok::<Time, ParseError>(t),
            Err(e) => r == Err::<Time, ParseError>(ParseError::DateTime(TypeName::Time, e)),
        },
{
    let cs = trimmed_chars(s);
    if cs.len() == 0 {
        return Err(ParseError::DateTime(TypeName::Time, DateTimeError::Empty));
    }
    match time_fields(&cs, 0) {
        Some((h, m, sec, n, k)) => {
            if k != cs.len() {
                Err(ParseError::DateTime(TypeName::Time, DateTimeError::Syntax))
            } else if !valid_time(h, m, sec, n) {
                Err(ParseError::DateTime(TypeName::Time, DateTimeError::OutOfRange))
            } else {
                Ok(Time { hour: h as u32, minute: m as u32, second: sec as u32, nano: n as u32 })
            }
        },
        None => Err(ParseError::DateTime(TypeName::Time, DateTimeError::Syntax)),
    }
}

/// Parses a timestamp from a string; a zone offset, if any, is ignored.
pub fn parse_timestamp(s: &str) -> (r: Result<Timestamp, ParseError>)
    ensures
        match timestamp_parts(trim(s@)) {
            Ok((d, t, _)) => r == Ok::<Timestamp, ParseError>(Timestamp { date: d, time: t }),
            Err(e) => r == Err::<Timestamp, ParseError>(ParseError::DateTime(TypeName::Timestamp, e)),
        },
{
    let cs = trimmed_chars(s);
    match parts_of(&cs) {
        Ok((d, t, _)) => Ok(Timestamp { date: d, time: t }),
        Err(e) => Err(ParseError::DateTime(TypeName::Timestamp, e)),
    }
}

/// Parses a timestamp with a zone offset (none meaning UTC) into the
/// instant it names: the local date and time moved back by the offset.
/// Fails with `InvalidOffset` where the offset is not under a day or the
/// instant leaves the years that `chrono` represents.
pub fn parse_timestamptz(s: &str) -> (r: Result<TimestampTz, ParseError>)
    ensures
        match timestamp_parts(trim(s@)) {
            Ok((d, t, off)) => {
                let local = Timestamp { date: d, time: t };
                &&& off == 0 ==> r == Ok::<TimestampTz, ParseError>(TimestampTz { utc: local })
                &&& r is Ok <==> (-86400 < off < 86400 && first_second() <= seconds_of(local) - off <= last_second())
                &&& r is Ok ==> r->Ok_0.utc.valid() && r->Ok_0.utc.time.nano == t.nano && seconds_of(
                    r->Ok_0.utc,
                ) == seconds_of(local) - off
                &&& r is Err ==> r == Err::<TimestampTz, ParseError>(
                    ParseError::DateTime(TypeName::TimestampTz, DateTimeError::InvalidOffset),
                )
            },
            Err(e) => r == Err::<TimestampTz, ParseError>(ParseError::DateTime(TypeName::TimestampTz, e)),
        },
{
    let cs = trimmed_chars(s);
    match parts_of(&cs) {
        Ok((d, t, off)) => {
            if off < i32::MIN as i64 || off > i32::MAX as i64 {
                return Err(ParseError::DateTime(TypeName::TimestampTz, DateTimeError::InvalidOffset));
            }
            match shift_to_utc(Timestamp { date: d, time: t }, off as i32) {
                Some(u) => Ok(TimestampTz { utc: u }),
                None => Err(ParseError::DateTime(TypeName::TimestampTz, DateTimeError::InvalidOffset)),
            }
        },
        Err(e) => Err(ParseError::DateTime(TypeName::TimestampTz, e)),
    }
}

/// `n` in two digits, with a leading zero below ten.
pub open spec fn pad2(n: nat) -> Seq<char> {
    seq![digit_char((n / 10) as int), digit_char((n % 10) as int)]
}

/// `n` in at least four digits, with leading zeros.
pub open spec fn pad4(n: nat) -> Seq<char> {
    if n < 10000 {
        seq![
            digit_char((n / 1000) as int),
            digit_char(((n / 100) % 10) as int),
            digit_char(((n / 10) % 10) as int),
            digit_char((n % 10) as int),
        ]
    } else {
        nat_text(n)
    }
}

/// The year as ISO 8601 writes it: four digits for years 0 to 9999, and a
/// sign before at least four digits for the others.
pub open spec fn year_text(y: int) -> Seq<char> {
    if y < 0 {
        seq!['-'] + pad4((-y) as nat)
    } else if y > 9999 {
        seq!['+'] + nat_text(y as nat)
    } else {
        pad4(y as nat)
    }
}

/// `YYYY-MM-DD`.
pub open spec fn date_text(d: Date) -> Seq<char> {
    year_text(d.year as int) + seq!['-'] + pad2(d.month as nat) + seq!['-'] + pad2(d.day as nat)
}

/// `HH:MM:SS`.
pub open spec fn hms_text(t: Time) -> Seq<char> {
    pad2(t.hour as nat) + seq![':'] + pad2(t.minute as nat) + seq![':'] + pad2(t.second as nat)
}

/// The nine digits of a nanosecond count, with leading zeros.
pub open spec fn nine_digits(n: nat) -> Seq<char> {
    Seq::new(9, |i: int| digit_char(((n / pow10((8 - i) as nat)) % 10) as int))
}

/// `s` without its trailing zeros.
pub open spec fn strip_zeros(s: Seq<char>) -> Seq<char>
    decreases s.len(),
{
    if s.len() > 0 && s.last() == '0' {
        strip_zeros(s.drop_last())
    } else {
        s
    }
}

/// The fractional seconds: nothing for zero nanoseconds, otherwise `.` and
/// the nine digits with trailing zeros removed.
pub open spec fn nanos_text(n: nat) -> Seq<char> {
    if n == 0 {
        Seq::empty()
    } else {
        seq!['.'] + strip_zeros(nine_digits(n))
    }
}

fn push_pad2(buf: &mut Vec<char>, n: u32)
    requires
        n < 100,
    ensures
        final(buf)@ == old(buf)@ + pad2(n as nat),
{
    buf.push(((n / 10) as u8 + 48) as char);
    buf.push(((n % 10) as u8 + 48) as char);
    assert(buf@ =~= old(buf)@ + pad2(n as nat));
}

fn push_year(buf: &mut Vec<char>, y: i32)
    ensures
        final(buf)@ == old(buf)@ + year_text(y as int),
{
    let ghost start = buf@;
    let n: u32 = if y < 0 {
        buf.push('-');
        (-(y as i64)) as u32
    } else {
        if y > 9999 {
            buf.push('+');
        }
        y as u32
    };
    let ghost mid = buf@;
    if n < 10000 {
        buf.push(((n / 1000) as u8 + 48) as char);
        buf.push((((n / 100) % 10) as u8 + 48) as char);
        buf.push((((n / 10) % 10) as u8 + 48) as char);
        buf.push(((n % 10) as u8 + 48) as char);
        assert(buf@ =~= mid + pad4(n as nat));
    } else {
        crate::strconv::push_nat(buf, n as u128);
    }
    assert(buf@ =~= old(buf)@ + year_text(y as int));
}

/// Writes the fractional seconds of `nanos`: nothing for zero, otherwise
/// `.` and the nine digits without their trailing zeros.
fn format_nanos(buf: &mut Vec<char>, nanos: u32)
    requires
        nanos < 1_000_000_000,
    ensures
        final(buf)@ == old(buf)@ + nanos_text(nanos as nat),
{
    if nanos == 0 {
        assert(buf@ =~= old(buf)@ + nanos_text(nanos as nat));
        return;
    }
    let ghost nd = nine_digits(nanos as nat);
    let mut digits: Vec<char> = Vec::new();
    let mut div: u32 = 100_000_000;
    let mut i: usize = 0;
    proof {
        assert(pow10(8) == 100_000_000) by {
            reveal_with_fuel(pow10, 9);
        }
    }
    while i < 9
        invariant
            i <= 9,
            digits@ == nd.subrange(0, i as int),
            nd == nine_digits(nanos as nat),
            i < 9 ==> div as nat == pow10((8 - i) as nat),
        decreases 9 - i,
    {
        proof {
            lemma_pow10_mono(0, (8 - i) as nat);
        }
        digits.push((((nanos / div) % 10) as u8 + 48) as char);
        proof {
            if i < 8 {
                assert(pow10((8 - i) as nat) == 10 * pow10((8 - i - 1) as nat));
            }
        }
        div = div / 10;
        i = i + 1;
        assert(digits@ =~= nd.subrange(0, i as int));
    }
    let mut end: usize = 9;
    assert(nd.subrange(0, 9) =~= nd);
    assert(digits@ == nd);
    while end > 0 && digits[end - 1] == '0'
        invariant
            end <= 9,
            digits@ == nd,
            nd.len() == 9,
            strip_zeros(nd) == strip_zeros(nd.subrange(0, end as int)),
        decreases end,
    {
        assert(nd.subrange(0, end as int).drop_last() =~= nd.subrange(0, end - 1));
        end = end - 1;
    }
    assert(strip_zeros(nd.subrange(0, end as int)) == nd.subrange(0, end as int));
    buf.push('.');
    let mut k: usize = 0;
    while k < end
        invariant
            k <= end <= 9,
            digits@ == nd,
            nd.len() == 9,
            buf@ == old(buf)@ + seq!['.'] + nd.subrange(0, k as int),
        decreases end - k,
    {
        buf.push(digits[k]);
        k = k + 1;
        assert(buf@ =~= old(buf)@ + seq!['.'] + nd.subrange(0, k as int));
    }
    assert(nd.subrange(0, 9) =~= nd);
}

/// Writes a date to a buffer as `YYYY-MM-DD`.
pub fn format_date(buf: &mut Vec<char>, d: Date) -> (r: Nestable)
    requires
        d.valid(),
    ensures
        final(buf)@ == old(buf)@ + date_text(d),
        r == Nestable::MayNeedEscaping,
{
    push_year(buf, d.year);
    buf.push('-');
    push_pad2(buf, d.month);
    buf.push('-');
    push_pad2(buf, d.day);
    assert(buf@ =~= old(buf)@ + date_text(d));
    Nestable::MayNeedEscaping
}

fn push_hms(buf: &mut Vec<char>, t: Time)
    requires
        t.valid(),
    ensures
        final(buf)@ == old(buf)@ + hms_text(t),
{
    push_pad2(buf, t.hour);
    buf.push(':');
    push_pad2(buf, t.minute);
    buf.push(':');
    push_pad2(buf, t.second);
    assert(buf@ =~= old(buf)@ + hms_text(t));
}

/// Writes a time to a buffer as `HH:MM:SS` and the fractional seconds.
pub fn format_time(buf: &mut Vec<char>, t: Time) -> (r: Nestable)
    requires
        t.valid(),
    ensures
        final(buf)@ == old(buf)@ + hms_text(t) + nanos_text(t.nano as nat),
        r == Nestable::MayNeedEscaping,
{
    push_hms(buf, t);
    format_nanos(buf, t.nano);
    assert(buf@ =~= old(buf)@ + hms_text(t) + nanos_text(t.nano as nat));
    Nestable::MayNeedEscaping
}

/// Writes a timestamp to a buffer as `YYYY-MM-DD HH:MM:SS` and the
/// fractional seconds.
pub fn format_timestamp(buf: &mut Vec<char>, ts: Timestamp) -> (r: Nestable)
    requires
        ts.valid(),
    ensures
        final(buf)@ == old(buf)@ + date_text(ts.date) + seq![' '] + hms_text(ts.time) + nanos_text(
            ts.time.nano as nat,
        ),
        r == Nestable::MayNeedEscaping,
{
    format_date(buf, ts.date);
    buf.push(' ');
    format_time(buf, ts.time);
    assert(buf@ =~= old(buf)@ + date_text(ts.date) + seq![' '] + hms_text(ts.time) + nanos_text(
        ts.time.nano as nat,
    ));
    Nestable::MayNeedEscaping
}

/// Writes an instant to a buffer as its UTC `YYYY-MM-DD HH:MM:SS`, the zone
/// `+00`, and then the fractional seconds.
pub fn format_timestamptz(buf: &mut Vec<char>, ts: TimestampTz) -> (r: Nestable)
    requires
        ts.utc.valid(),
    ensures
        final(buf)@ == old(buf)@ + date_text(ts.utc.date) + seq![' '] + hms_text(ts.utc.time) + seq![
            '+',
            '0',
            '0',
        ] + nanos_text(ts.utc.time.nano as nat),
        r == Nestable::MayNeedEscaping,
{
    format_date(buf, ts.utc.date);
    buf.push(' ');
    push_hms(buf, ts.utc.time);
    buf.push('+');
    buf.push('0');
    buf.push('0');
    format_nanos(buf, ts.utc.time.nano);
    assert(buf@ =~= old(buf)@ + date_text(ts.utc.date) + seq![' '] + hms_text(ts.utc.time) + seq![
        '+',
        '0',
        '0',
    ] + nanos_text(ts.utc.time.nano as nat));
    Nestable::MayNeedEscaping
}


pub(crate) proof fn lemma_run_end_block(s: Seq<char>, i: int, k: int)
    requires
        0 <= i,
        0 <= k,
        i + k <= s.len(),
        forall|j: int| i <= j < i + k ==> is_digit(#[trigger] s[j]),
        i + k == s.len() || !is_digit(s[i + k]),
    ensures
        run_end(s, i) == i + k,
    decreases k,
{
    if k > 0 {
        lemma_run_end_block(s, i + 1, k - 1);
    }
}

proof fn lemma_pad2(n: nat)
    requires
        n < 100,
    ensures
        pad2(n).len() == 2,
        all_digits(pad2(n)),
        digits_value(pad2(n)) == n,
{
    let p = pad2(n);
    lemma_digit_char((n / 10) as int);
    lemma_digit_char((n % 10) as int);
    assert(p.drop_last() =~= seq![p[0]]);
    assert(seq![p[0]].drop_last() =~= Seq::<char>::empty());
    assert(digits_value(Seq::<char>::empty()) == 0);
    assert(digits_value(seq![p[0]]) == digit_value(p[0]));
    assert(digits_value(p) == digit_value(p[0]) * 10 + digit_value(p[1]));
}

proof fn lemma_pad4(n: nat)
    ensures
        4 <= pad4(n).len(),
        all_digits(pad4(n)),
        digits_value(pad4(n)) == n,
        n <= 999_999_999 ==> pad4(n).len() <= 9,
{
    let p = pad4(n);
    if n < 10000 {
        lemma_digit_char((n / 1000) as int);
        lemma_digit_char(((n / 100) % 10) as int);
        lemma_digit_char(((n / 10) % 10) as int);
        lemma_digit_char((n % 10) as int);
        let p1 = seq![p[0]];
        let p2 = seq![p[0], p[1]];
        let p3 = seq![p[0], p[1], p[2]];
        assert(p.drop_last() =~= p3);
        assert(p3.drop_last() =~= p2);
        assert(p2.drop_last() =~= p1);
        assert(p1.drop_last() =~= Seq::<char>::empty());
        assert(digits_value(Seq::<char>::empty()) == 0);
        assert(digits_value(p1) == digit_value(p[0]));
        assert(digits_value(p2) == digit_value(p[0]) * 10 + digit_value(p[1]));
        assert(digits_value(p3) == digits_value(p2) * 10 + digit_value(p[2]));
        assert(digits_value(p) == digits_value(p3) * 10 + digit_value(p[3]));
    } else {
        lemma_nat_text(n);
        lemma_nat_text_len(n);
    }
}

proof fn lemma_nat_text_digits(n: nat, k: nat)
    ensures
        k >= 1 && n < pow10(k) ==> nat_text(n).len() <= k,
        n >= pow10(k) ==> nat_text(n).len() >= k + 1,
    decreases n,
{
    if n >= 10 {
        assert(nat_text(n).len() == nat_text(n / 10).len() + 1);
        if k >= 1 {
            let p = pow10((k - 1) as nat);
            assert(pow10(k) == 10 * p);
            assert(n < 10 * p ==> n / 10 < p) by (nonlinear_arith);
            assert(n >= 10 * p ==> n / 10 >= p) by (nonlinear_arith);
            lemma_nat_text_digits(n / 10, (k - 1) as nat);
        }
    } else if k >= 1 {
        lemma_pow10_mono(1, k);
        assert(pow10(1) == 10) by {
            reveal_with_fuel(pow10, 2);
        }
    }
}

proof fn lemma_nat_text_len(n: nat)
    ensures
        n >= 10000 ==> nat_text(n).len() >= 5,
        n <= 999_999_999 ==> nat_text(n).len() <= 9,
{
    assert(pow10(4) == 10000 && pow10(9) == 1_000_000_000) by {
        reveal_with_fuel(pow10, 10);
    }
    lemma_nat_text_digits(n, 4);
    lemma_nat_text_digits(n, 9);
}

proof fn lemma_date_at(u: Seq<char>, d: Date)
    requires
        d.valid(),
        0 <= d.year <= 9999,
        date_text(d).len() <= u.len(),
        u.subrange(0, date_text(d).len() as int) == date_text(d),
        date_text(d).len() == u.len() || !is_digit(u[date_text(d).len() as int]),
    ensures
        date_at(u, 0) == Some((d.year as int, d.month as int, d.day as int, date_text(d).len() as int)),
        is_digit(u[0]),
        is_digit(u[date_text(d).len() - 1]),
{
    let y = d.year as nat;
    let (yt, mt, dt) = (pad4(y), pad2(d.month as nat), pad2(d.day as nat));
    lemma_pad4(y);
    lemma_pad2(d.month as nat);
    lemma_pad2(d.day as nat);
    let t = date_text(d);
    assert(year_text(d.year as int) == yt);
    assert(t == yt + seq!['-'] + mt + seq!['-'] + dt);
    let a = yt.len() as int;
    let b = a + 3;
    let c = b + 3;
    assert(t.len() == c);
    assert forall|j: int| 0 <= j < c implies u[j] == #[trigger] t[j] by {
        assert(u.subrange(0, c)[j] == u[j]);
    }
    assert forall|j: int| 0 <= j < a implies is_digit(#[trigger] u[j]) by {
        assert(t[j] == yt[j]);
    }
    assert forall|j: int| a + 1 <= j < b implies is_digit(#[trigger] u[j]) by {
        assert(t[j] == mt[j - a - 1]);
    }
    assert forall|j: int| b + 1 <= j < c implies is_digit(#[trigger] u[j]) by {
        assert(t[j] == dt[j - b - 1]);
    }
    assert(t[a] == '-' && t[b] == '-');
    assert(u[a] == '-' && u[b] == '-');
    lemma_run_end_block(u, 0, a);
    lemma_run_end_block(u, a + 1, 2);
    lemma_run_end_block(u, b + 1, 2);
    assert(u.subrange(0, a) =~= yt);
    assert forall|j: int| 0 <= j < 2 implies #[trigger] u.subrange(a + 1, b)[j] == mt[j] by {
        assert(u[a + 1 + j] == t[a + 1 + j]);
        assert(t[a + 1 + j] == mt[j]);
    }
    assert forall|j: int| 0 <= j < 2 implies #[trigger] u.subrange(b + 1, c)[j] == dt[j] by {
        assert(u[b + 1 + j] == t[b + 1 + j]);
        assert(t[b + 1 + j] == dt[j]);
    }
    assert(u.subrange(a + 1, b) =~= mt);
    assert(u.subrange(b + 1, c) =~= dt);
}

/// A valid date of a year from 0 to 9999, formatted and parsed again,
/// is the same date, with no time of day and no zone.
pub proof fn law_date_round_trip(d: Date)
    requires
        d.valid(),
        0 <= d.year <= 9999,
    ensures
        timestamp_parts(trim(date_text(d))) == Ok::<(Date, Time, int), DateTimeError>((d, midnight(), 0)),
{
    let t = date_text(d);
    assert(t.subrange(0, t.len() as int) == t);
    lemma_date_at(t, d);
    lemma_trim_plain(t);
    assert(t != epoch_word()) by {
        assert(epoch_word()[0] == 'e');
    }
    assert(spaces_end(t, t.len() as int) == t.len());
}

/// The `k` lowest decimal digits of `n`, with leading zeros.
pub open spec fn low_digits(n: nat, k: nat) -> Seq<char> {
    Seq::new(k, |i: int| digit_char(((n / pow10((k - 1 - i) as nat)) % 10) as int))
}

proof fn lemma_low_digits(n: nat, k: nat)
    ensures
        all_digits(low_digits(n, k)),
        digits_value(low_digits(n, k)) == n % pow10(k),
    decreases k,
{
    let s = low_digits(n, k);
    assert forall|i: int| 0 <= i < k implies is_digit(#[trigger] s[i]) by {
        lemma_pow10_mono(0, (k - 1 - i) as nat);
        lemma_digit_char(((n / pow10((k - 1 - i) as nat)) % 10) as int);
    }
    if k == 0 {
        assert(n % 1 == 0);
    } else {
        let p = pow10((k - 1) as nat);
        lemma_pow10_mono(0, (k - 1) as nat);
        lemma_low_digits(n / 10, (k - 1) as nat);
        let t = low_digits(n / 10, (k - 1) as nat);
        assert forall|i: int| 0 <= i < k - 1 implies s.drop_last()[i] == t[i] by {
            let q = pow10((k - 2 - i) as nat);
            lemma_pow10_mono(0, (k - 2 - i) as nat);
            assert(pow10((k - 1 - i) as nat) == 10 * q);
            vstd::arithmetic::div_mod::lemma_div_denominator(n as int, 10, q as int);
        }
        assert(s.drop_last() =~= t);
        assert(pow10(0) == 1);
        assert((k - 1 - (k - 1)) as nat == 0nat);
        assert(n / 1 == n);
        assert(s.last() == s[k - 1]);
        assert(s[k - 1] == digit_char(((n / pow10(0nat)) % 10) as int));
        assert(s.last() == digit_char((n % 10) as int));
        lemma_digit_char((n % 10) as int);
        vstd::arithmetic::div_mod::lemma_mod_breakdown(n as int, 10, p as int);
        assert(pow10(k) == 10 * p);
    }
}

proof fn lemma_strip_zeros(x: Seq<char>)
    requires
        all_digits(x),
    ensures
        strip_zeros(x).len() <= x.len(),
        strip_zeros(x) == x.subrange(0, strip_zeros(x).len() as int),
        digits_value(x) == digits_value(strip_zeros(x)) * pow10((x.len() - strip_zeros(x).len()) as nat),
        strip_zeros(x).len() == 0 || strip_zeros(x).last() != '0',
    decreases x.len(),
{
    if x.len() > 0 && x.last() == '0' {
        let p = x.drop_last();
        assert(all_digits(p)) by {
            assert forall|i: int| 0 <= i < p.len() implies is_digit(#[trigger] p[i]) by {
                assert(p[i] == x[i]);
            }
        }
        lemma_strip_zeros(p);
        let st = strip_zeros(p);
        assert(strip_zeros(x) == st);
        assert(digits_value(x) == digits_value(p) * 10 + digit_value(x.last()));
        assert(x.subrange(0, st.len() as int) =~= p.subrange(0, st.len() as int));
        assert(digit_value('0') == 0);
        let e = (p.len() - st.len()) as nat;
        let f = (x.len() - strip_zeros(x).len()) as nat;
        assert(f == e + 1);
        assert(pow10(f) == 10 * pow10(e));
        let v = digits_value(st);
        assert(digits_value(p) == v * pow10(e));
        assert(digits_value(x) == v * pow10(e) * 10);
        assert(v * pow10(e) * 10 == v * pow10(f)) by (nonlinear_arith)
            requires
                pow10(f) == 10 * pow10(e),
        ;
    } else {
        assert(strip_zeros(x) == x);
        assert(x.subrange(0, x.len() as int) == x);
        assert(pow10(0) == 1);
        assert((x.len() - strip_zeros(x).len()) as nat == 0);
        assert(digits_value(x) == digits_value(x) * pow10(0));
    }
}

/// The text of a time of day: `HH:MM:SS` and the fractional seconds.
pub open spec fn time_text(t: Time) -> Seq<char> {
    hms_text(t) + nanos_text(t.nano as nat)
}

proof fn lemma_time_at(u: Seq<char>, i: int, t: Time)
    requires
        t.valid(),
        0 <= i,
        i + time_text(t).len() <= u.len(),
        u.subrange(i, i + time_text(t).len()) == time_text(t),
        i + time_text(t).len() == u.len() || (!is_digit(u[i + time_text(t).len()]) && u[i
            + time_text(t).len()] != '.'),
    ensures
        time_at(u, i) == Some(
            (t.hour as int, t.minute as int, t.second as int, t.nano as int, i + time_text(t).len()),
        ),
        is_digit(u[i]),
        is_digit(u[i + time_text(t).len() - 1]),
{
    let (ht, mt, st) = (pad2(t.hour as nat), pad2(t.minute as nat), pad2(t.second as nat));
    lemma_pad2(t.hour as nat);
    lemma_pad2(t.minute as nat);
    lemma_pad2(t.second as nat);
    let nt = nanos_text(t.nano as nat);
    let tt = time_text(t);
    assert(tt == ht + seq![':'] + mt + seq![':'] + st + nt);
    let len = tt.len() as int;
    assert forall|j: int| 0 <= j < len implies u[i + j] == #[trigger] tt[j] by {
        assert(u.subrange(i, i + len)[j] == u[i + j]);
    }
    assert forall|j: int| i <= j < i + 2 implies is_digit(#[trigger] u[j]) by {
        assert(u[j] == tt[j - i]);
        assert(tt[j - i] == ht[j - i]);
    }
    assert forall|j: int| i + 3 <= j < i + 5 implies is_digit(#[trigger] u[j]) by {
        assert(u[j] == tt[j - i]);
        assert(tt[j - i] == mt[j - i - 3]);
    }
    assert forall|j: int| i + 6 <= j < i + 8 implies is_digit(#[trigger] u[j]) by {
        assert(u[j] == tt[j - i]);
        assert(tt[j - i] == st[j - i - 6]);
    }
    assert(u[i + 2] == tt[2] && tt[2] == ':');
    assert(u[i + 5] == tt[5] && tt[5] == ':');
    lemma_run_end_block(u, i, 2);
    lemma_run_end_block(u, i + 3, 2);
    assert forall|j: int| 0 <= j < 2 implies #[trigger] u.subrange(i, i + 2)[j] == ht[j] by {
        assert(u[i + j] == tt[j]);
    }
    assert forall|j: int| 0 <= j < 2 implies #[trigger] u.subrange(i + 3, i + 5)[j] == mt[j] by {
        assert(u[i + 3 + j] == tt[3 + j]);
    }
    assert forall|j: int| 0 <= j < 2 implies #[trigger] u.subrange(i + 6, i + 8)[j] == st[j] by {
        assert(u[i + 6 + j] == tt[6 + j]);
    }
    assert(u.subrange(i, i + 2) =~= ht);
    assert(u.subrange(i + 3, i + 5) =~= mt);
    assert(u.subrange(i + 6, i + 8) =~= st);
    if t.nano == 0 {
        assert(nt.len() == 0);
        assert(len == 8);
        lemma_run_end_block(u, i + 6, 2);
        assert(u[i + len - 1] == st[1]);
    } else {
        let nd = nine_digits(t.nano as nat);
        assert(nd =~= low_digits(t.nano as nat, 9));
        lemma_low_digits(t.nano as nat, 9);
        assert(pow10(9) == 1_000_000_000) by {
            reveal_with_fuel(pow10, 10);
        }
        lemma_strip_zeros(nd);
        let sz = strip_zeros(nd);
        let l = sz.len() as int;
        assert(l > 0) by {
            if l == 0 {
                assert(sz =~= Seq::<char>::empty());
                assert(digits_value(Seq::<char>::empty()) == 0);
            }
        }
        assert(nt == seq!['.'] + sz);
        assert(len == 9 + l);
        assert(u[i + 8] == tt[8] && tt[8] == '.');
        lemma_run_end_block(u, i + 6, 2);
        assert forall|j: int| i + 9 <= j < i + 9 + l implies is_digit(#[trigger] u[j]) by {
            assert(u[j] == tt[j - i]);
            assert(tt[j - i] == sz[j - i - 9]);
            assert(sz[j - i - 9] == nd[j - i - 9]);
        }
        lemma_run_end_block(u, i + 9, l);
        assert forall|j: int| 0 <= j < l implies #[trigger] u.subrange(i + 9, i + 9 + l)[j] == sz[j] by {
            assert(u[i + 9 + j] == tt[9 + j]);
            assert(tt[9 + j] == sz[j]);
        }
        assert(u.subrange(i + 9, i + 9 + l) =~= sz);
        assert(all_digits(sz)) by {
            assert forall|j: int| 0 <= j < l implies is_digit(#[trigger] sz[j]) by {
                assert(sz[j] == nd[j]);
            }
        }
        assert(u[i + len - 1] == sz[l - 1]);
    }
}

/// A valid time of day, formatted and parsed again, is the same time.
pub proof fn law_time_round_trip(t: Time)
    requires
        t.valid(),
    ensures
        time_parts(trim(time_text(t))) == Ok::<Time, DateTimeError>(t),
{
    let u = time_text(t);
    assert(u.subrange(0, u.len() as int) == u);
    lemma_time_at(u, 0, t);
    lemma_trim_plain(u);
}

/// The text of a timestamp: the date, a space, and the time of day.
pub open spec fn timestamp_text(ts: Timestamp) -> Seq<char> {
    date_text(ts.date) + seq![' '] + time_text(ts.time)
}

/// A valid timestamp of a year from 0 to 9999, formatted and parsed
/// again, is the same timestamp, with no zone.
pub proof fn law_timestamp_round_trip(ts: Timestamp)
    requires
        ts.valid(),
        0 <= ts.date.year <= 9999,
    ensures
        timestamp_parts(trim(timestamp_text(ts))) == Ok::<(Date, Time, int), DateTimeError>(
            (ts.date, ts.time, 0),
        ),
{
    let u = timestamp_text(ts);
    let dt = date_text(ts.date);
    let e = dt.len() as int;
    let tt = time_text(ts.time);
    let d = ts.date;
    let t = ts.time;
    assert(u.len() == e + 1 + tt.len());
    lemma_ts_date(ts);
    lemma_ts_time(ts);
    assert(trim(u) == u) by {
        lemma_trim_plain(u);
    }
    assert(u != epoch_word()) by {
        assert(epoch_word()[0] == 'e');
    }
    assert(char_at(u, e, ' '));
    assert(zone_at(u, u.len() as int) == Some(0int)) by {
        assert(spaces_end(u, u.len() as int) == u.len());
    }
    lemma_parts(u, e, d, t);
}

/// The text of an instant: its UTC date and time, and the zone `+00`
/// before the fractional seconds.
pub open spec fn timestamptz_text(ts: TimestampTz) -> Seq<char> {
    date_text(ts.utc.date) + seq![' '] + hms_text(ts.utc.time) + seq!['+', '0', '0'] + nanos_text(
        ts.utc.time.nano as nat,
    )
}

/// An instant of a year from 0 to 9999 with no fractional seconds,
/// formatted and parsed again, gives its UTC date and time back with a zero
/// offset, which [`parse_timestamptz`] keeps as the same instant.
pub proof fn law_timestamptz_round_trip(ts: TimestampTz)
    requires
        ts.utc.valid(),
        0 <= ts.utc.date.year <= 9999,
        ts.utc.time.nano == 0,
    ensures
        timestamp_parts(trim(timestamptz_text(ts))) == Ok::<(Date, Time, int), DateTimeError>(
            (ts.utc.date, ts.utc.time, 0),
        ),
{
    let u = timestamptz_text(ts);
    let d = ts.utc.date;
    let t = ts.utc.time;
    let e = date_text(d).len() as int;
    let k = e + 1 + time_text(t).len();
    lemma_tz_layout(ts);
    lemma_tz_date(ts);
    lemma_tz_time(ts);
    lemma_tz_zone(ts);
    assert(trim(u) == u) by {
        lemma_trim_plain(u);
    }
    lemma_tz_parts(u, e, k, d, t);
}

proof fn lemma_tz_layout(ts: TimestampTz)
    requires
        ts.utc.valid(),
        ts.utc.time.nano == 0,
    ensures
        ({
            let u = timestamptz_text(ts);
            let e = date_text(ts.utc.date).len() as int;
            let k = e + 1 + time_text(ts.utc.time).len();
            &&& time_text(ts.utc.time) == hms_text(ts.utc.time)
            &&& u.len() == k + 3
            &&& u[e] == ' ' && char_at(u, e, ' ')
            &&& u[k] == '+' && u[k + 1] == '0' && u[k + 2] == '0'
            &&& u.subrange(0, e) == date_text(ts.utc.date)
            &&& u.subrange(e + 1, k) == time_text(ts.utc.time)
            &&& u != epoch_word()
            &&& is_digit(u[u.len() - 1])
        }),
{
    let u = timestamptz_text(ts);
    let dt = date_text(ts.utc.date);
    let e = dt.len() as int;
    let tt = time_text(ts.utc.time);
    assert(nanos_text(0) == Seq::<char>::empty());
    assert(tt =~= hms_text(ts.utc.time));
    let k = e + 1 + tt.len();
    assert(u.subrange(0, e) =~= dt);
    assert(u.subrange(e + 1, k) =~= tt);
    assert(u != epoch_word()) by {
        assert(u.len() > 5);
    }
}

proof fn lemma_tz_date(ts: TimestampTz)
    requires
        ts.utc.valid(),
        0 <= ts.utc.date.year <= 9999,
        ts.utc.time.nano == 0,
    ensures
        ({
            let u = timestamptz_text(ts);
            let d = ts.utc.date;
            date_at(u, 0) == Some((d.year as int, d.month as int, d.day as int, date_text(d).len() as int))
                && is_digit(u[0])
        }),
{
    lemma_tz_layout(ts);
    lemma_date_at(timestamptz_text(ts), ts.utc.date);
}

proof fn lemma_tz_time(ts: TimestampTz)
    requires
        ts.utc.valid(),
        ts.utc.time.nano == 0,
    ensures
        ({
            let u = timestamptz_text(ts);
            let t = ts.utc.time;
            let e = date_text(ts.utc.date).len() as int;
            let k = e + 1 + time_text(t).len();
            time_at(u, e + 1) == Some((t.hour as int, t.minute as int, t.second as int, 0int, k)) && is_digit(
                u[e + 1],
            )
        }),
{
    lemma_tz_layout(ts);
    let e = date_text(ts.utc.date).len() as int;
    lemma_time_at(timestamptz_text(ts), e + 1, ts.utc.time);
}

proof fn lemma_tz_zone(ts: TimestampTz)
    requires
        ts.utc.valid(),
        ts.utc.time.nano == 0,
    ensures
        ({
            let u = timestamptz_text(ts);
            let k = date_text(ts.utc.date).len() as int + 1 + time_text(ts.utc.time).len();
            zone_at(u, k) == Some(0int)
        }),
{
    lemma_tz_layout(ts);
    let u = timestamptz_text(ts);
    let k = date_text(ts.utc.date).len() as int + 1 + time_text(ts.utc.time).len();
    assert(spaces_end(u, k) == k);
    lemma_run_end_block(u, k + 1, 2);
    assert(u.subrange(k + 1, k + 3) =~= seq!['0', '0']);
    assert(seq!['0', '0'].drop_last() =~= seq!['0']);
    assert(seq!['0'].drop_last() =~= Seq::<char>::empty());
    assert(digits_value(Seq::<char>::empty()) == 0);
    assert(digit_value('0') == 0);
    assert(seq!['0'].last() == '0' && seq!['0', '0'].last() == '0');
    assert(digits_value(seq!['0']) == 0);
    assert(digits_value(seq!['0', '0']) == 0);
}

proof fn lemma_tz_parts(u: Seq<char>, e: int, k: int, d: Date, t: Time)
    requires
        d.valid(),
        t.valid(),
        u.len() > 0,
        u != epoch_word(),
        date_at(u, 0) == Some((d.year as int, d.month as int, d.day as int, e)),
        char_at(u, e, ' '),
        e + 1 < u.len(),
        is_digit(u[e + 1]),
        time_at(u, e + 1) == Some((t.hour as int, t.minute as int, t.second as int, t.nano as int, k)),
        zone_at(u, k) == Some(0int),
    ensures
        timestamp_parts(u) == Ok::<(Date, Time, int), DateTimeError>((d, t, 0)),
{
}

proof fn lemma_ts_date(ts: Timestamp)
    requires
        ts.valid(),
        0 <= ts.date.year <= 9999,
    ensures
        date_at(timestamp_text(ts), 0) == Some(
            (ts.date.year as int, ts.date.month as int, ts.date.day as int, date_text(ts.date).len() as int),
        ),
        is_digit(timestamp_text(ts)[0]),
        timestamp_text(ts)[date_text(ts.date).len() as int] == ' ',
{
    let u = timestamp_text(ts);
    let dt = date_text(ts.date);
    let e = dt.len() as int;
    assert(u.subrange(0, e) =~= dt);
    assert(u[e] == ' ');
    lemma_date_at(u, ts.date);
}

proof fn lemma_ts_time(ts: Timestamp)
    requires
        ts.valid(),
    ensures
        ({
            let u = timestamp_text(ts);
            let e = date_text(ts.date).len() as int;
            let t = ts.time;
            &&& u.len() == e + 1 + time_text(t).len()
            &&& time_at(u, e + 1) == Some(
                (t.hour as int, t.minute as int, t.second as int, t.nano as int, u.len() as int),
            )
            &&& is_digit(u[e + 1])
            &&& is_digit(u[u.len() - 1])
        }),
{
    let u = timestamp_text(ts);
    let e = date_text(ts.date).len() as int;
    let tt = time_text(ts.time);
    assert(u.subrange(e + 1, e + 1 + tt.len()) =~= tt);
    lemma_time_at(u, e + 1, ts.time);
}

proof fn lemma_parts(u: Seq<char>, e: int, d: Date, t: Time)
    requires
        d.valid(),
        t.valid(),
        u.len() > 0,
        u != epoch_word(),
        date_at(u, 0) == Some((d.year as int, d.month as int, d.day as int, e)),
        char_at(u, e, ' '),
        e + 1 < u.len(),
        is_digit(u[e + 1]),
        time_at(u, e + 1) == Some(
            (t.hour as int, t.minute as int, t.second as int, t.nano as int, u.len() as int),
        ),
        zone_at(u, u.len() as int) == Some(0int),
    ensures
        timestamp_parts(u) == Ok::<(Date, Time, int), DateTimeError>((d, t, 0)),
{
}


proof fn lemma_parts_valid(t: Seq<char>)
    requires
        timestamp_parts(t) is Ok,
    ensures
        ({
            let (d, tm, _) = timestamp_parts(t)->Ok_0;
            d.valid() && tm.valid() && d.year >= 0
        }),
{
    if t.len() > 0 && t != epoch_word() {
        lemma_run_digits(t, 0);
        lemma_digits_bound(t.subrange(0, run_end(t, 0)));
    }
}

/// Any text that parses as a date of a four-digit year reformats to a text
/// that parses to the same date.
pub proof fn law_date_canonical(s: Seq<char>)
    requires
        timestamp_parts(trim(s)) is Ok,
        timestamp_parts(trim(s))->Ok_0.0.year <= 9999,
    ensures
        ({
            let d = timestamp_parts(trim(s))->Ok_0.0;
            timestamp_parts(trim(date_text(d))) is Ok && timestamp_parts(trim(date_text(d)))->Ok_0.0 == d
        }),
{
    lemma_parts_valid(trim(s));
    law_date_round_trip(timestamp_parts(trim(s))->Ok_0.0);
}

/// Any text that parses as a timestamp of a four-digit year reformats to a
/// text that parses to the same date and time.
pub proof fn law_timestamp_canonical(s: Seq<char>)
    requires
        timestamp_parts(trim(s)) is Ok,
        timestamp_parts(trim(s))->Ok_0.0.year <= 9999,
    ensures
        ({
            let (d, t, _) = timestamp_parts(trim(s))->Ok_0;
            let ts = Timestamp { date: d, time: t };
            timestamp_parts(trim(timestamp_text(ts))) == Ok::<(Date, Time, int), DateTimeError>((d, t, 0))
        }),
{
    lemma_parts_valid(trim(s));
    let (d, t, _) = timestamp_parts(trim(s))->Ok_0;
    law_timestamp_round_trip(Timestamp { date: d, time: t });
}

/// Any text that parses as a time of day reformats to a text that parses
/// to the same time.
pub proof fn law_time_canonical(s: Seq<char>)
    requires
        time_parts(trim(s)) is Ok,
    ensures
        time_parts(trim(time_text(time_parts(trim(s))->Ok_0))) == time_parts(trim(s)),
{
    law_time_round_trip(time_parts(trim(s))->Ok_0);
}

} // verus!
