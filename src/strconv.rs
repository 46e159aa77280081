//! Text parsers and formatters for the scalar types. Each type has a
//! `parse_<type>` that reads its PostgreSQL text form and a `format_<type>`
//! that appends that form to a character buffer.

use vstd::prelude::*;

use crate::error::{ByteaError, IntError, ParseError};
use crate::text::{ascii_lower, chars_of, lemma_trim_plain, trim, trim_bounds};
use vstd::string::StringSliceAdditionalSpecFns;
use vstd::utf8::{encode_utf8, is_ascii_chars, is_ascii_chars_encode_utf8};

verus! {

/// Whether the formatted representation can be nested in a list without
/// escaping.
#[derive(Debug, Clone, Copy, PartialEq, Eq, Structural)]
pub enum Nestable {
    Yes,
    MayNeedEscaping,
}

/// `s` with ASCII letters in lower case.
pub open spec fn lower(s: Seq<char>) -> Seq<char> {
    s.map_values(|c: char| ascii_lower(c))
}

/// The boolean that a lower-case word stands for, if any.
pub open spec fn bool_word(w: Seq<char>) -> Option<bool> {
    if w == seq!['t'] || w == seq!['t', 'r'] || w == seq!['t', 'r', 'u'] || w == seq!['t', 'r', 'u', 'e']
        || w == seq!['y'] || w == seq!['y', 'e'] || w == seq!['y', 'e', 's'] || w == seq!['o', 'n']
        || w == seq!['1'] {
        Some(true)
    } else if w == seq!['f'] || w == seq!['f', 'a'] || w == seq!['f', 'a', 'l'] || w == seq![
        'f',
        'a',
        'l',
        's',
    ] || w == seq!['f', 'a', 'l', 's', 'e'] || w == seq!['n'] || w == seq!['n', 'o'] || w == seq![
        'o',
        'f',
    ] || w == seq!['o', 'f', 'f'] || w == seq!['0'] {
        Some(false)
    } else {
        None
    }
}

/// The text form of a boolean.
pub open spec fn bool_text(b: bool) -> Seq<char> {
    if b {
        seq!['t']
    } else {
        seq!['f']
    }
}

fn lowered(cs: &Vec<char>, lo: usize, hi: usize) -> (r: Vec<char>)
    requires
        lo <= hi <= cs@.len(),
    ensures
        r@ == lower(cs@.subrange(lo as int, hi as int)),
{
    let mut r: Vec<char> = Vec::new();
    let mut i = lo;
    while i < hi
        invariant
            lo <= i <= hi <= cs@.len(),
            r@ == lower(cs@.subrange(lo as int, i as int)),
        decreases hi - i,
    {
        let c = cs[i];
        let l = if 'A' <= c && c <= 'Z' {
            ((c as u8) + 32) as char
        } else {
            c
        };
        r.push(l);
        i = i + 1;
        assert(r@ =~= lower(cs@.subrange(lo as int, i as int)));
    }
    r
}

fn bool_of_word(w: &Vec<char>) -> (r: Option<bool>)
    ensures
        r == bool_word(w@),
{
    let n = w.len();
    let r = if n == 1 {
        let c = w[0];
        if c == 't' || c == 'y' || c == '1' {
            Some(true)
        } else if c == 'f' || c == 'n' || c == '0' {
            Some(false)
        } else {
            None
        }
    } else if n == 2 {
        let (c0, c1) = (w[0], w[1]);
        if (c0 == 't' && c1 == 'r') || (c0 == 'y' && c1 == 'e') || (c0 == 'o' && c1 == 'n') {
            Some(true)
        } else if (c0 == 'f' && c1 == 'a') || (c0 == 'n' && c1 == 'o') || (c0 == 'o' && c1 == 'f') {
            Some(false)
        } else {
            None
        }
    } else if n == 3 {
        let (c0, c1, c2) = (w[0], w[1], w[2]);
        if (c0 == 't' && c1 == 'r' && c2 == 'u') || (c0 == 'y' && c1 == 'e' && c2 == 's') {
            Some(true)
        } else if (c0 == 'f' && c1 == 'a' && c2 == 'l') || (c0 == 'o' && c1 == 'f' && c2 == 'f') {
            Some(false)
        } else {
            None
        }
    } else if n == 4 {
        let (c0, c1, c2, c3) = (w[0], w[1], w[2], w[3]);
        if c0 == 't' && c1 == 'r' && c2 == 'u' && c3 == 'e' {
            Some(true)
        } else if c0 == 'f' && c1 == 'a' && c2 == 'l' && c3 == 's' {
            Some(false)
        } else {
            None
        }
    } else if n == 5 {
        if w[0] == 'f' && w[1] == 'a' && w[2] == 'l' && w[3] == 's' && w[4] == 'e' {
            Some(false)
        } else {
            None
        }
    } else {
        None
    };
    proof {
        let v = w@;
        if n == 1 {
            assert(v =~= seq![v[0]]);
        } else if n == 2 {
            assert(v =~= seq![v[0], v[1]]);
        } else if n == 3 {
            assert(v =~= seq![v[0], v[1], v[2]]);
        } else if n == 4 {
            assert(v =~= seq![v[0], v[1], v[2], v[3]]);
        } else if n == 5 {
            assert(v =~= seq![v[0], v[1], v[2], v[3], v[4]]);
        }
    }
    r
}

/// Parses a boolean value from a string.
///
/// Leading and trailing whitespace is ignored, and so is the case of ASCII
/// letters. The accepted words for true are `t`, `tr`, `tru`, `true`, `y`,
/// `ye`, `yes`, `on` and `1`; for false `f`, `fa`, `fal`, `fals`, `false`,
/// `n`, `no`, `of`, `off` and `0`.
pub fn parse_bool(s: &str) -> (r: Result<bool, ParseError>)
    ensures
        r == match bool_word(lower(trim(s@))) {
            Some(b) => Ok::<bool, ParseError>(b),
            None => Err(ParseError::Bool),
        },
{
    let cs = chars_of(s);
    let (a, b) = trim_bounds(&cs, 0, cs.len());
    assert(cs@.subrange(0, cs@.len() as int) == s@);
    let w = lowered(&cs, a, b);
    match bool_of_word(&w) {
        Some(v) => Ok(v),
        None => Err(ParseError::Bool),
    }
}


/// Like [`format_bool`], but returns the text instead of writing it.
pub fn format_bool_static(b: bool) -> (r: &'static str)
    ensures
        r@ == bool_text(b),
{
    proof {
        reveal_strlit("t");
        reveal_strlit("f");
    }
    if b {
        "t"
    } else {
        "f"
    }
}

/// Writes a boolean value into a buffer: `t` for true, `f` for false.
pub fn format_bool(buf: &mut Vec<char>, b: bool) -> (r: Nestable)
    ensures
        final(buf)@ == old(buf)@ + bool_text(b),
        r == Nestable::Yes,
{
    buf.push(if b {
        't'
    } else {
        'f'
    });
    assert(final(buf)@ =~= old(buf)@ + bool_text(b)) by {
        assert(buf@ =~= old(buf)@ + bool_text(b));
    }
    Nestable::Yes
}

pub open spec fn is_digit(c: char) -> bool {
    '0' <= c && c <= '9'
}

pub open spec fn digit_value(c: char) -> int {
    (c as u32) as int - 48
}

/// The value of a string of decimal digits.
pub open spec fn digits_value(d: Seq<char>) -> int
    decreases d.len(),
{
    if d.len() == 0 {
        0
    } else {
        digits_value(d.drop_last()) * 10 + digit_value(d.last())
    }
}

/// The end of the run of decimal digits that starts at `i`.
pub open spec fn run_end(s: Seq<char>, i: int) -> int
    decreases s.len() - i,
{
    if 0 <= i < s.len() && is_digit(s[i]) {
        run_end(s, i + 1)
    } else {
        i
    }
}

pub open spec fn all_digits(d: Seq<char>) -> bool {
    forall|i: int| 0 <= i < d.len() ==> is_digit(#[trigger] d[i])
}

/// A leading sign and the rest of an integer literal.
pub open spec fn sign_split(t: Seq<char>) -> (bool, Seq<char>) {
    if t.len() > 0 && t[0] == '-' {
        (true, t.drop_first())
    } else if t.len() > 0 && t[0] == '+' {
        (false, t.drop_first())
    } else {
        (false, t)
    }
}

/// The integer that `t` denotes within `[min, max]`: an optional sign and at
/// least one decimal digit, with nothing around them.
pub open spec fn int_value(t: Seq<char>, min: int, max: int) -> Result<int, IntError> {
    if t.len() == 0 {
        Err(IntError::Empty)
    } else {
        let (neg, d) = sign_split(t);
        if d.len() == 0 || !all_digits(d) {
            Err(IntError::InvalidDigit)
        } else {
            let v = if neg {
                -digits_value(d)
            } else {
                digits_value(d)
            };
            if v > max {
                Err(IntError::PosOverflow)
            } else if v < min {
                Err(IntError::NegOverflow)
            } else {
                Ok(v)
            }
        }
    }
}

pub proof fn lemma_digits_value_grows(d: Seq<char>)
    requires
        all_digits(d),
        d.len() > 0,
    ensures
        digits_value(d) >= digits_value(d.drop_last()),
        digits_value(d.drop_last()) >= 0,
    decreases d.len(),
{
    if d.len() > 1 {
        lemma_digits_value_grows(d.drop_last());
    }
}

fn parse_integer(cs: &Vec<char>, lo: usize, hi: usize, min: i64, max: i64) -> (r: Result<i64, IntError>)
    requires
        lo <= hi <= cs@.len(),
        min <= 0 <= max,
    ensures
        match int_value(cs@.subrange(lo as int, hi as int), min as int, max as int) {
            Ok(v) => r == Ok::<i64, IntError>(v as i64),
            Err(e) => r == Err::<i64, IntError>(e),
        },
{
    let ghost t = cs@.subrange(lo as int, hi as int);
    if lo == hi {
        return Err(IntError::Empty);
    }
    let neg = cs[lo] == '-';
    let start = if cs[lo] == '-' || cs[lo] == '+' {
        lo + 1
    } else {
        lo
    };
    let ghost d = cs@.subrange(start as int, hi as int);
    assert(sign_split(t) == (neg, d)) by {
        if start > lo {
            assert(t.drop_first() =~= d);
        } else {
            assert(t =~= d);
        }
    }
    if start == hi {
        return Err(IntError::InvalidDigit);
    }
    let bound: u128 = 0x1_0000_0000_0000_0000;
    let mut acc: u128 = 0;
    let mut big = false;
    let mut i = start;
    while i < hi
        invariant
            lo <= start <= i <= hi <= cs@.len(),
            lo < hi,
            start < hi,
            min <= 0 <= max,
            bound == 0x1_0000_0000_0000_0000u128,
            t == cs@.subrange(lo as int, hi as int),
            sign_split(t) == (neg, d),
            d == cs@.subrange(start as int, hi as int),
            all_digits(cs@.subrange(start as int, i as int)),
            !big ==> acc as int == digits_value(cs@.subrange(start as int, i as int)) && acc <= bound,
            big ==> digits_value(cs@.subrange(start as int, i as int)) > bound,
        decreases hi - i,
    {
        let c = cs[i];
        if !('0' <= c && c <= '9') {
            assert(d[i - start] == c);
            assert(!is_digit(d[i - start]));
            return Err(IntError::InvalidDigit);
        }
        let ghost p = cs@.subrange(start as int, i + 1);
        proof {
            assert(p.drop_last() =~= cs@.subrange(start as int, i as int));
            assert(all_digits(p));
            lemma_digits_value_grows(p);
        }
        if !big {
            assert(acc * 10 <= bound * 10) by (nonlinear_arith)
                requires
                    acc <= bound,
            ;
            acc = acc * 10 + (c as u32 - 48) as u128;
            if acc > bound {
                big = true;
            }
        }
        i = i + 1;
    }
    assert(cs@.subrange(start as int, hi as int) == d);
    if big {
        return if neg {
            Err(IntError::NegOverflow)
        } else {
            Err(IntError::PosOverflow)
        };
    }
    if neg {
        if acc > (-(min as i128)) as u128 {
            Err(IntError::NegOverflow)
        } else {
            Ok((-(acc as i128)) as i64)
        }
    } else {
        if acc > max as u128 {
            Err(IntError::PosOverflow)
        } else {
            Ok(acc as i64)
        }
    }
}

/// Parses a 32-bit integer from a string: an optional `+` or `-` and
/// decimal digits, with leading and trailing whitespace ignored.
pub fn parse_int32(s: &str) -> (r: Result<i32, ParseError>)
    ensures
        match int_value(trim(s@), i32::MIN as int, i32::MAX as int) {
            Ok(v) => r == Ok::<i32, ParseError>(v as i32),
            Err(e) => r == Err::<i32, ParseError>(ParseError::Int(e)),
        },
{
    let cs = chars_of(s);
    let (a, b) = trim_bounds(&cs, 0, cs.len());
    assert(cs@.subrange(0, cs@.len() as int) == s@);
    match parse_integer(&cs, a, b, i32::MIN as i64, i32::MAX as i64) {
        Ok(v) => Ok(v as i32),
        Err(e) => Err(ParseError::Int(e)),
    }
}

/// Parses a 64-bit integer from a string: an optional `+` or `-` and
/// decimal digits, with leading and trailing whitespace ignored.
pub fn parse_int64(s: &str) -> (r: Result<i64, ParseError>)
    ensures
        match int_value(trim(s@), i64::MIN as int, i64::MAX as int) {
            Ok(v) => r == Ok::<i64, ParseError>(v as i64),
            Err(e) => r == Err::<i64, ParseError>(ParseError::Int(e)),
        },
{
    let cs = chars_of(s);
    let (a, b) = trim_bounds(&cs, 0, cs.len());
    assert(cs@.subrange(0, cs@.len() as int) == s@);
    match parse_integer(&cs, a, b, i64::MIN, i64::MAX) {
        Ok(v) => Ok(v),
        Err(e) => Err(ParseError::Int(e)),
    }
}

pub open spec fn digit_char(n: int) -> char {
    ((n + 48) as u8) as char
}

/// The decimal digits of `n`, without leading zeros.
pub open spec fn nat_text(n: nat) -> Seq<char>
    decreases n,
{
    if n < 10 {
        seq![digit_char(n as int)]
    } else {
        nat_text(n / 10) + seq![digit_char((n % 10) as int)]
    }
}

/// The base-10 text of an integer, with `-` before a negative one.
pub open spec fn int_text(v: int) -> Seq<char> {
    if v < 0 {
        seq!['-'] + nat_text((-v) as nat)
    } else {
        nat_text(v as nat)
    }
}

pub(crate) fn push_nat(buf: &mut Vec<char>, n: u128)
    ensures
        final(buf)@ == old(buf)@ + nat_text(n as nat),
    decreases n,
{
    if n >= 10 {
        push_nat(buf, n / 10);
    }
    let ghost mid = buf@;
    buf.push(((n % 10) as u8 + 48) as char);
    assert(buf@ =~= old(buf)@ + nat_text(n as nat));
}

fn push_int(buf: &mut Vec<char>, v: i64)
    ensures
        final(buf)@ == old(buf)@ + int_text(v as int),
{
    if v < 0 {
        buf.push('-');
        let m = (-(v as i128)) as u64;
        push_nat(buf, m as u128);
        assert(buf@ =~= old(buf)@ + int_text(v as int));
    } else {
        push_nat(buf, v as u128);
    }
}

/// Writes a 32-bit integer to a buffer, in base 10.
pub fn format_int32(buf: &mut Vec<char>, i: i32) -> (r: Nestable)
    ensures
        final(buf)@ == old(buf)@ + int_text(i as int),
        r == Nestable::Yes,
{
    push_int(buf, i as i64);
    Nestable::Yes
}

/// Writes a 64-bit integer to a buffer, in base 10.
pub fn format_int64(buf: &mut Vec<char>, i: i64) -> (r: Nestable)
    ensures
        final(buf)@ == old(buf)@ + int_text(i as int),
        r == Nestable::Yes,
{
    push_int(buf, i);
    Nestable::Yes
}

/// Writes a string to a buffer, verbatim.
pub fn format_string(buf: &mut Vec<char>, s: &str) -> (r: Nestable)
    ensures
        final(buf)@ == old(buf)@ + s@,
        r == Nestable::MayNeedEscaping,
{
    let mut cs = chars_of(s);
    buf.append(&mut cs);
    Nestable::MayNeedEscaping
}


/// The lower-case hex digit for `n` in `0..16`.
pub open spec fn hex_digit(n: int) -> char {
    if n < 10 {
        ((n + 48) as u8) as char
    } else {
        ((n + 87) as u8) as char
    }
}

/// Two lower-case hex digits for every byte, most significant first.
pub open spec fn hex_text(b: Seq<u8>) -> Seq<char>
    decreases b.len(),
{
    if b.len() == 0 {
        Seq::empty()
    } else {
        hex_text(b.drop_last()) + seq![hex_digit(b.last() as int / 16), hex_digit(b.last() as int % 16)]
    }
}

/// The text form of a byte string: `\x` and the hex digits of its bytes.
pub open spec fn bytea_text(b: Seq<u8>) -> Seq<char> {
    seq!['\\', 'x'] + hex_text(b)
}

/// The value of a hex digit (either case), or -1 for any other byte.
pub open spec fn hex_value(c: u8) -> int {
    if 65 <= c <= 70 {
        c - 55
    } else if 97 <= c <= 102 {
        c - 87
    } else if 48 <= c <= 57 {
        c - 48
    } else {
        -1
    }
}

/// The first index at or after `i` that holds no hex digit, or the length.
pub open spec fn first_non_hex(b: Seq<u8>, i: int) -> int
    decreases b.len() - i,
{
    if i < 0 || i >= b.len() {
        b.len() as int
    } else if hex_value(b[i]) < 0 {
        i
    } else {
        first_non_hex(b, i + 1)
    }
}

/// Strict hex decoding: an even number of hex digits, two per byte.
pub open spec fn hex_decoded(b: Seq<u8>) -> Result<Seq<u8>, ByteaError> {
    if b.len() % 2 != 0 {
        Err(ByteaError::OddLength)
    } else if first_non_hex(b, 0) < b.len() {
        Err(ByteaError::InvalidHexCharacter(b[first_non_hex(b, 0)] as char, first_non_hex(b, 0) as usize))
    } else {
        Ok(Seq::new((b.len() / 2) as nat, |i: int| (hex_value(b[2 * i]) * 16 + hex_value(b[2 * i + 1])) as u8))
    }
}

pub open spec fn is_octal(c: u8) -> bool {
    48 <= c <= 55
}

/// The traditional escape form from index `i` on, with `acc` decoded before
/// it: bytes stand for themselves, except `\\` for a backslash and `\NNN`
/// (`N` octal, the first at most 3) for the byte of that octal value.
pub open spec fn bytea_escaped(s: Seq<u8>, i: int, acc: Seq<u8>) -> Result<Seq<u8>, ByteaError>
    decreases s.len() - i,
{
    if i < 0 || i >= s.len() {
        Ok(acc)
    } else if s[i] != 92 {
        bytea_escaped(s, i + 1, acc.push(s[i]))
    } else if i + 1 >= s.len() {
        Err(ByteaError::EndsWithEscape)
    } else if s[i + 1] == 92 {
        bytea_escaped(s, i + 2, acc.push(92))
    } else if i + 3 < s.len() && 48 <= s[i + 1] <= 51 && is_octal(s[i + 2]) && is_octal(s[i + 3]) {
        bytea_escaped(
            s,
            i + 4,
            acc.push(((s[i + 1] - 48) * 64 + (s[i + 2] - 48) * 8 + (s[i + 3] - 48)) as u8),
        )
    } else {
        Err(ByteaError::InvalidEscape)
    }
}

/// The bytes that the UTF-8 text `s` denotes: hex after a leading `\x`,
/// the traditional escape form otherwise.
pub open spec fn bytea_value(s: Seq<u8>) -> Result<Seq<u8>, ByteaError> {
    if s.len() >= 2 && s[0] == 92 && s[1] == 120 {
        hex_decoded(s.subrange(2, s.len() as int))
    } else {
        bytea_escaped(s, 0, Seq::empty())
    }
}

/// Relies on `hex::decode`: an odd number of digits fails with `OddLength`;
/// otherwise the first byte that is no hex digit (either case) fails with
/// `InvalidHexCharacter` at its index; otherwise each pair of digits gives
/// one byte, high digit first.
#[verifier::external_body]
fn hex_decode(b: &[u8]) -> (r: Result<Vec<u8>, ByteaError>)
    ensures
        match r {
            Ok(v) => hex_decoded(b@) == Ok::<Seq<u8>, ByteaError>(v@),
            Err(e) => hex_decoded(b@) == Err::<Seq<u8>, ByteaError>(e),
        },
{
    match hex::decode(b) {
        Ok(v) => Ok(v),
        Err(hex::FromHexError::InvalidHexCharacter { c, index }) => Err(
            ByteaError::InvalidHexCharacter(c, index),
        ),
        Err(hex::FromHexError::OddLength) => Err(ByteaError::OddLength),
        Err(hex::FromHexError::InvalidStringLength) => Err(ByteaError::InvalidLength),
    }
}

/// Relies on `hex::encode`: two lower-case hex digits for each byte, high
/// digit first.
#[verifier::external_body]
fn hex_encode(b: &[u8]) -> (r: String)
    ensures
        r@ == hex_text(b@),
{
    hex::encode(b)
}

fn parse_bytes_traditional(b: &[u8]) -> (r: Result<Vec<u8>, ByteaError>)
    ensures
        match r {
            Ok(v) => bytea_escaped(b@, 0, Seq::empty()) == Ok::<Seq<u8>, ByteaError>(v@),
            Err(e) => bytea_escaped(b@, 0, Seq::empty()) == Err::<Seq<u8>, ByteaError>(e),
        },
{
    let ghost target = bytea_escaped(b@, 0, Seq::empty());
    let mut out: Vec<u8> = Vec::new();
    let mut i: usize = 0;
    while i < b.len()
        invariant
            i <= b@.len(),
            target == bytea_escaped(b@, 0, Seq::empty()),
            target == bytea_escaped(b@, i as int, out@),
        decreases b@.len() - i,
    {
        let c = b[i];
        if c != 92 {
            out.push(c);
            i = i + 1;
        } else if i + 1 >= b.len() {
            return Err(ByteaError::EndsWithEscape);
        } else if b[i + 1] == 92 {
            out.push(92);
            i = i + 2;
        } else if b.len() - i > 3 && 48 <= b[i + 1] && b[i + 1] <= 51 && 48 <= b[i + 2] && b[i + 2]
            <= 55 && 48 <= b[i + 3] && b[i + 3] <= 55 {
            let v = (b[i + 1] - 48) * 64 + (b[i + 2] - 48) * 8 + (b[i + 3] - 48);
            out.push(v);
            i = i + 4;
        } else {
            return Err(ByteaError::InvalidEscape);
        }
    }
    Ok(out)
}

/// Parses a byte string. After a leading `\x` the rest is strict hex;
/// otherwise bytes stand for themselves, except the escapes `\\` and `\NNN`.
pub fn parse_bytes(s: &str) -> (r: Result<Vec<u8>, ParseError>)
    ensures
        match bytea_value(s.spec_bytes()) {
            Ok(v) => r is Ok && r->Ok_0@ == v,
            Err(e) => r == Err::<Vec<u8>, ParseError>(ParseError::Bytea(e)),
        },
{
    let b = s.as_bytes();
    if b.len() >= 2 && b[0] == 92 && b[1] == 120 {
        let mut rest: Vec<u8> = Vec::new();
        let mut i: usize = 2;
        while i < b.len()
            invariant
                2 <= i <= b@.len(),
                rest@ == b@.subrange(2, i as int),
            decreases b@.len() - i,
        {
            rest.push(b[i]);
            i = i + 1;
            assert(rest@ =~= b@.subrange(2, i as int));
        }
        match hex_decode(rest.as_slice()) {
            Ok(v) => Ok(v),
            Err(e) => Err(ParseError::Bytea(e)),
        }
    } else {
        match parse_bytes_traditional(b) {
            Ok(v) => Ok(v),
            Err(e) => Err(ParseError::Bytea(e)),
        }
    }
}

/// Writes a byte string to a buffer: `\x` and two lower-case hex digits per
/// byte.
pub fn format_bytes(buf: &mut Vec<char>, bytes: &[u8]) -> (r: Nestable)
    ensures
        final(buf)@ == old(buf)@ + bytea_text(bytes@),
        r == Nestable::Yes,
{
    buf.push('\\');
    buf.push('x');
    let h = hex_encode(bytes);
    let mut cs = chars_of(h.as_str());
    buf.append(&mut cs);
    assert(buf@ =~= old(buf)@ + bytea_text(bytes@));
    Nestable::Yes
}


/// The digit character of `k` is a digit of value `k`.
pub proof fn lemma_digit_char(k: int)
    requires
        0 <= k < 10,
    ensures
        digit_value(digit_char(k)) == k,
        is_digit(digit_char(k)),
{
    assert(((k + 48) as u8) as char as u32 == k + 48);
}

pub proof fn lemma_nat_text(n: nat)
    ensures
        nat_text(n).len() >= 1,
        all_digits(nat_text(n)),
        digits_value(nat_text(n)) == n,
    decreases n,
{
    let k = (n % 10) as int;
    assert(digit_value(digit_char(k)) == k && is_digit(digit_char(k))) by {
        assert(0 <= k < 10);
        assert(((k + 48) as u8) as char as u32 == k + 48);
    }
    if n >= 10 {
        lemma_nat_text(n / 10);
        let t = nat_text(n);
        assert(t.drop_last() =~= nat_text(n / 10));
        assert(t.last() == digit_char(k));
        assert forall|i: int| 0 <= i < t.len() implies is_digit(#[trigger] t[i]) by {
            if i < t.len() - 1 {
                assert(t[i] == nat_text(n / 10)[i]);
            }
        }
        assert((n / 10) * 10 + n % 10 == n);
        assert(digits_value(t) == digits_value(nat_text(n / 10)) * 10 + digit_value(t.last()));
    } else {
        let t = nat_text(n);
        assert(t.drop_last() =~= Seq::<char>::empty());
        assert(digits_value(Seq::<char>::empty()) == 0);
        assert(digits_value(t) == digits_value(t.drop_last()) * 10 + digit_value(t.last()));
    }
}

pub proof fn lemma_int_text(v: int)
    ensures
        trim(int_text(v)) == int_text(v),
        int_value(int_text(v), v, v) == Ok::<int, IntError>(v),
{
    let t = int_text(v);
    let m: nat = if v < 0 {
        (-v) as nat
    } else {
        v as nat
    };
    lemma_nat_text(m);
    let d = nat_text(m);
    assert(is_digit(d[0]) && is_digit(d.last()));
    if v < 0 {
        assert(t[0] == '-');
        assert(t.last() == d.last());
        assert(t.drop_first() =~= d);
    } else {
        assert(t == d);
    }
    lemma_trim_plain(t);
}

/// Every character of an integer's text is `-` or a digit, and the first
/// one is no letter.
pub proof fn lemma_int_text_chars(v: int, j: int)
    requires
        0 <= j < int_text(v).len(),
    ensures
        int_text(v)[j] == '-' || is_digit(int_text(v)[j]),
        j == 0 ==> int_text(v)[j] != 'N',
{
    let m: nat = if v < 0 {
        (-v) as nat
    } else {
        v as nat
    };
    lemma_nat_text(m);
    if v < 0 && j > 0 {
        assert(int_text(v)[j] == nat_text(m)[j - 1]);
    }
}

/// Formatting an `i32` and parsing the text gives the value back.
pub proof fn law_int32_round_trip(v: i32)
    ensures
        int_value(trim(int_text(v as int)), i32::MIN as int, i32::MAX as int) == Ok::<int, IntError>(
            v as int,
        ),
{
    lemma_int_text(v as int);
}

/// Formatting an `i64` and parsing the text gives the value back.
pub proof fn law_int64_round_trip(v: i64)
    ensures
        int_value(trim(int_text(v as int)), i64::MIN as int, i64::MAX as int) == Ok::<int, IntError>(
            v as int,
        ),
{
    lemma_int_text(v as int);
}

/// Any text that parses as an `i32` reformats to a text that parses to the
/// same value.
pub proof fn law_int32_canonical(t: Seq<char>)
    requires
        int_value(trim(t), i32::MIN as int, i32::MAX as int) is Ok,
    ensures
        ({
            let v = int_value(trim(t), i32::MIN as int, i32::MAX as int)->Ok_0;
            int_value(trim(int_text(v)), i32::MIN as int, i32::MAX as int) == Ok::<int, IntError>(v)
        }),
{
    let v = int_value(trim(t), i32::MIN as int, i32::MAX as int)->Ok_0;
    lemma_int_text(v);
}

/// Any text that parses as an `i64` reformats to a text that parses to the
/// same value.
pub proof fn law_int64_canonical(t: Seq<char>)
    requires
        int_value(trim(t), i64::MIN as int, i64::MAX as int) is Ok,
    ensures
        ({
            let v = int_value(trim(t), i64::MIN as int, i64::MAX as int)->Ok_0;
            int_value(trim(int_text(v)), i64::MIN as int, i64::MAX as int) == Ok::<int, IntError>(v)
        }),
{
    let v = int_value(trim(t), i64::MIN as int, i64::MAX as int)->Ok_0;
    lemma_int_text(v);
}

/// Formatting a boolean and parsing the text gives the value back.
pub proof fn law_bool_round_trip(b: bool)
    ensures
        bool_word(lower(trim(bool_text(b)))) == Some(b),
{
    let t = bool_text(b);
    lemma_trim_plain(t);
    assert(lower(t) =~= t);
}

/// Any text that parses as a boolean reformats to a text that parses to the
/// same value.
pub proof fn law_bool_canonical(t: Seq<char>)
    requires
        bool_word(lower(trim(t))) is Some,
    ensures
        bool_word(lower(trim(bool_text(bool_word(lower(trim(t)))->Some_0)))) == bool_word(
            lower(trim(t)),
        ),
{
    law_bool_round_trip(bool_word(lower(trim(t)))->Some_0);
}


proof fn lemma_hex_digit(n: int)
    requires
        0 <= n < 16,
    ensures
        hex_value(hex_digit(n) as u8) == n,
        '\0' <= hex_digit(n) <= '\u{7f}',
{
    if n < 10 {
        assert(((n + 48) as u8) as char as u8 == n + 48);
    } else {
        assert(((n + 87) as u8) as char as u8 == n + 87);
    }
}

proof fn lemma_hex_text(b: Seq<u8>)
    ensures
        hex_text(b).len() == 2 * b.len(),
        forall|i: int|
            0 <= i < b.len() ==> hex_text(b)[2 * i] == hex_digit(#[trigger] b[i] as int / 16) && hex_text(
                b,
            )[2 * i + 1] == hex_digit(b[i] as int % 16),
    decreases b.len(),
{
    if b.len() > 0 {
        let d = b.drop_last();
        lemma_hex_text(d);
        assert forall|i: int| 0 <= i < b.len() implies hex_text(b)[2 * i] == hex_digit(
            #[trigger] b[i] as int / 16,
        ) && hex_text(b)[2 * i + 1] == hex_digit(b[i] as int % 16) by {
            if i < d.len() {
                assert(b[i] == d[i]);
            }
        }
    }
}

proof fn lemma_all_hex(h: Seq<u8>, i: int)
    requires
        0 <= i <= h.len(),
        forall|j: int| i <= j < h.len() ==> hex_value(#[trigger] h[j]) >= 0,
    ensures
        first_non_hex(h, i) == h.len(),
    decreases h.len() - i,
{
    if i < h.len() {
        lemma_all_hex(h, i + 1);
    }
}

/// Formatting a byte string and parsing the text gives the bytes back.
pub proof fn law_bytea_round_trip(v: Seq<u8>, s: &str)
    requires
        s@ == bytea_text(v),
    ensures
        bytea_value(s.spec_bytes()) == Ok::<Seq<u8>, ByteaError>(v),
{
    let t = s@;
    lemma_hex_text(v);
    let ht = hex_text(v);
    assert forall|j: int| 0 <= j < ht.len() implies '\0' <= #[trigger] ht[j] <= '\u{7f}' && hex_value(
        ht[j] as u8,
    ) >= 0 by {
        let i = j / 2;
        assert(0 <= i < v.len());
        if j % 2 == 0 {
            assert(j == 2 * i);
            lemma_hex_digit(v[i] as int / 16);
        } else {
            assert(j == 2 * i + 1);
            lemma_hex_digit(v[i] as int % 16);
        }
    }
    assert(is_ascii_chars(t)) by {
        assert forall|j: int| 0 <= j < t.len() implies '\0' <= #[trigger] t[j] <= '\u{7f}' by {
            if j >= 2 {
                assert(t[j] == ht[j - 2]);
            } else if j == 0 {
                assert(t[0] == '\\');
            } else {
                assert(t[1] == 'x');
            }
            assert(t[j] <= '\u{7f}');
        }
    }
    is_ascii_chars_encode_utf8(t);
    let bs = s.spec_bytes();
    assert(bs == encode_utf8(t));
    assert(bs[0] == t[0] as u8 && bs[1] == t[1] as u8);
    let h = bs.subrange(2, bs.len() as int);
    assert forall|j: int| 0 <= j < h.len() implies #[trigger] h[j] == ht[j] as u8 by {
        assert(h[j] == bs[j + 2]);
        assert(t[j + 2] == ht[j]);
    }
    lemma_all_hex(h, 0);
    let dec = Seq::new((h.len() / 2) as nat, |i: int| (hex_value(h[2 * i]) * 16 + hex_value(h[2 * i + 1])) as u8);
    assert forall|i: int| 0 <= i < v.len() implies dec[i] == v[i] by {
        lemma_hex_digit(v[i] as int / 16);
        lemma_hex_digit(v[i] as int % 16);
        assert(h[2 * i] == ht[2 * i] as u8);
        assert(h[2 * i + 1] == ht[2 * i + 1] as u8);
    }
    assert(dec =~= v);
}

/// Any text that parses as a byte string reformats to a text that parses
/// to the same bytes.
pub proof fn law_bytea_canonical(s: &str, t: &str)
    requires
        bytea_value(s.spec_bytes()) is Ok,
        t@ == bytea_text(bytea_value(s.spec_bytes())->Ok_0),
    ensures
        bytea_value(t.spec_bytes()) == bytea_value(s.spec_bytes()),
{
    law_bytea_round_trip(bytea_value(s.spec_bytes())->Ok_0, t);
}


/// What a floating-point literal is, before any number is read from it.
#[derive(Debug, Clone, Copy, PartialEq, Eq, Structural)]
pub enum FloatText {
    /// `inf`, `infinity`, `+inf` or `+infinity`.
    PosInfinity,
    /// `-inf` or `-infinity`.
    NegInfinity,
    /// `nan`.
    NaN,
    /// Anything else: the text is read as a decimal number.
    Number,
}

/// The special word that a trimmed, lower-cased float literal is, if any.
pub open spec fn float_word(w: Seq<char>) -> FloatText {
    if w == "inf"@ || w == "infinity"@ || w == "+inf"@ || w == "+infinity"@ {
        FloatText::PosInfinity
    } else if w == "-inf"@ || w == "-infinity"@ {
        FloatText::NegInfinity
    } else if w == "nan"@ {
        FloatText::NaN
    } else {
        FloatText::Number
    }
}

fn same_chars(w: &Vec<char>, lit: &str) -> (r: bool)
    ensures
        r == (w@ == lit@),
{
    let l = chars_of(lit);
    if w.len() != l.len() {
        return false;
    }
    let mut i: usize = 0;
    while i < w.len()
        invariant
            w@.len() == l@.len(),
            l@ == lit@,
            i <= w@.len(),
            forall|j: int| 0 <= j < i ==> w@[j] == l@[j],
        decreases w@.len() - i,
    {
        if w[i] != l[i] {
            return false;
        }
        i = i + 1;
    }
    assert(w@ =~= l@);
    true
}

/// Tells the special floating-point words apart, ignoring ASCII case and
/// leading and trailing whitespace: the infinities and not-a-number. Any
/// other text is a [`FloatText::Number`] for the float parser to read.
pub fn classify_float(s: &str) -> (r: FloatText)
    ensures
        r == float_word(lower(trim(s@))),
{
    let cs = chars_of(s);
    let (a, b) = trim_bounds(&cs, 0, cs.len());
    assert(cs@.subrange(0, cs@.len() as int) == s@);
    let w = lowered(&cs, a, b);
    if same_chars(&w, "inf") || same_chars(&w, "infinity") || same_chars(&w, "+inf") || same_chars(
        &w,
        "+infinity",
    ) {
        FloatText::PosInfinity
    } else if same_chars(&w, "-inf") || same_chars(&w, "-infinity") {
        FloatText::NegInfinity
    } else if same_chars(&w, "nan") {
        FloatText::NaN
    } else {
        FloatText::Number
    }
}

/// Writes an infinity to a buffer: `Infinity` or `-Infinity`.
pub fn format_infinity(buf: &mut Vec<char>, negative: bool) -> (r: Nestable)
    ensures
        final(buf)@ == old(buf)@ + if negative {
            "-Infinity"@
        } else {
            "Infinity"@
        },
        r == Nestable::Yes,
{
    if negative {
        let mut cs = chars_of("-Infinity");
        buf.append(&mut cs);
    } else {
        let mut cs = chars_of("Infinity");
        buf.append(&mut cs);
    }
    Nestable::Yes
}

} // verus!
