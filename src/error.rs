//! The errors of the codec.

use vstd::prelude::*;
use vstd::string::StringExecFns;

verus! {

/// Why a list literal is malformed.
#[derive(Debug, Clone, Copy, PartialEq, Eq, Structural)]
pub enum ListError {
    /// The input does not begin with `{`; holds what stands there instead.
    ExpectedOpenBrace(char),
    /// The input ends in the middle of the list.
    UnexpectedEnd,
    /// Something follows the closing `}`; holds its first character.
    UnexpectedLeftover(char),
    /// A backslash inside a quoted element precedes something other than
    /// `\` or `"`; holds that character.
    BadEscape(char),
    /// An element is followed by something other than `,` or `}`.
    ExpectedDelimiter(char),
}

/// Why an integer literal is rejected.
#[derive(Debug, Clone, Copy, PartialEq, Eq, Structural)]
pub enum IntError {
    /// No digits.
    Empty,
    /// A character that is not a decimal digit.
    InvalidDigit,
    /// The value is above the type's maximum.
    PosOverflow,
    /// The value is below the type's minimum.
    NegOverflow,
}

/// Why a byte-string literal is rejected.
#[derive(Debug, Clone, Copy, PartialEq, Eq, Structural)]
pub enum ByteaError {
    /// The input ends with a lone backslash.
    EndsWithEscape,
    /// A backslash is followed by neither `\` nor three octal digits.
    InvalidEscape,
    /// The hex form has an odd number of digits.
    OddLength,
    /// The hex form holds a character that is not a hex digit, at this
    /// byte offset of the digits.
    InvalidHexCharacter(char, usize),
    /// The hex digits do not fit the length asked for.
    InvalidLength,
}

/// Why a date, time or timestamp literal is rejected.
#[derive(Debug, Clone, Copy, PartialEq, Eq, Structural)]
pub enum DateTimeError {
    /// The input is empty.
    Empty,
    /// The input does not follow the grammar.
    Syntax,
    /// A field is out of its range, or the date does not exist.
    OutOfRange,
    /// The local time does not name an instant under the given offset.
    InvalidOffset,
}

/// Which type a literal was meant to be.
#[derive(Debug, Clone, Copy, PartialEq, Eq, Structural)]
pub enum TypeName {
    Date,
    Time,
    Timestamp,
    TimestampTz,
}

/// A malformed scalar or list literal.
#[derive(Debug, Clone, Copy, PartialEq, Eq, Structural)]
pub enum ParseError {
    /// Not one of the accepted boolean words.
    Bool,
    /// Not a base-10 integer of the type's range.
    Int(IntError),
    /// Not a floating-point number.
    Float,
    /// A malformed byte string.
    Bytea(ByteaError),
    /// A malformed list literal.
    List(ListError),
    /// A malformed date, time or timestamp of the named type.
    DateTime(TypeName, DateTimeError),
    /// A malformed decimal number, or one of more than 38 digits.
    Decimal,
    /// Not a JSON document.
    Json,
}


pub open spec fn type_label(t: TypeName) -> Seq<char> {
    match t {
        TypeName::Date => "DATE"@,
        TypeName::Time => "TIME"@,
        TypeName::Timestamp => "TIMESTAMP"@,
        TypeName::TimestampTz => "TIMESTAMPTZ"@,
    }
}

pub open spec fn datetime_cause(e: DateTimeError) -> Seq<char> {
    match e {
        DateTimeError::Empty => "timestamp string is empty"@,
        DateTimeError::Syntax => "invalid syntax"@,
        DateTimeError::OutOfRange => "field value out of range"@,
        DateTimeError::InvalidOffset => "invalid time zone conversion"@,
    }
}

pub open spec fn int_cause(e: IntError) -> Seq<char> {
    match e {
        IntError::Empty => "cannot parse integer from empty string"@,
        IntError::InvalidDigit => "invalid digit found in string"@,
        IntError::PosOverflow => "number too large to fit in target type"@,
        IntError::NegOverflow => "number too small to fit in target type"@,
    }
}

pub open spec fn bytea_cause(e: ByteaError) -> Seq<char> {
    match e {
        ByteaError::EndsWithEscape => "bytea input ends with escape character"@,
        ByteaError::InvalidEscape => "invalid bytea escape sequence"@,
        ByteaError::OddLength => "odd number of hex digits"@,
        ByteaError::InvalidHexCharacter(c, _) => "invalid hex character "@ + seq![c],
        ByteaError::InvalidLength => "invalid hex string length"@,
    }
}

pub open spec fn list_cause(e: ListError) -> Seq<char> {
    match e {
        ListError::ExpectedOpenBrace(c) => "expected '{', found "@ + seq![c],
        ListError::UnexpectedEnd => "unexpected end of input"@,
        ListError::UnexpectedLeftover(c) => "unexpected leftover input "@ + seq![c],
        ListError::BadEscape(c) => "bad escape \\"@ + seq![c],
        ListError::ExpectedDelimiter(c) => "expected ',' or '}', found '"@ + seq![c] + "'"@,
    }
}

/// The message of a parse error for the literal `input`; errors of dates
/// and times name the type and quote the literal.
pub open spec fn message_text(e: ParseError, input: Seq<char>) -> Seq<char> {
    match e {
        ParseError::Bool => "unable to parse bool"@,
        ParseError::Int(k) => int_cause(k),
        ParseError::Float => "invalid float literal"@,
        ParseError::Bytea(b) => bytea_cause(b),
        ParseError::List(l) => list_cause(l),
        ParseError::DateTime(t, c) => "Invalid "@ + type_label(t) + " '"@ + input + "': "@ + datetime_cause(c),
        ParseError::Decimal => "invalid decimal"@,
        ParseError::Json => "invalid JSON"@,
    }
}

fn with_char(mut s: String, c: char) -> (r: String)
    ensures
        r@ == s@ + seq![c],
{
    s.push(c);
    s
}

impl ParseError {
    /// A human-readable message for this error, met while parsing `input`.
    pub fn message(&self, input: &str) -> (r: String)
        ensures
            r@ == message_text(*self, input@),
    {
        match *self {
            ParseError::Bool => "unable to parse bool".to_owned(),
            ParseError::Int(k) => match k {
                IntError::Empty => "cannot parse integer from empty string".to_owned(),
                IntError::InvalidDigit => "invalid digit found in string".to_owned(),
                IntError::PosOverflow => "number too large to fit in target type".to_owned(),
                IntError::NegOverflow => "number too small to fit in target type".to_owned(),
            },
            ParseError::Float => "invalid float literal".to_owned(),
            ParseError::Bytea(b) => match b {
                ByteaError::EndsWithEscape => "bytea input ends with escape character".to_owned(),
                ByteaError::InvalidEscape => "invalid bytea escape sequence".to_owned(),
                ByteaError::OddLength => "odd number of hex digits".to_owned(),
                ByteaError::InvalidHexCharacter(c, _) => with_char("invalid hex character ".to_owned(), c),
                ByteaError::InvalidLength => "invalid hex string length".to_owned(),
            },
            ParseError::List(l) => match l {
                ListError::ExpectedOpenBrace(c) => with_char("expected '{', found ".to_owned(), c),
                ListError::UnexpectedEnd => "unexpected end of input".to_owned(),
                ListError::UnexpectedLeftover(c) => with_char("unexpected leftover input ".to_owned(), c),
                ListError::BadEscape(c) => with_char("bad escape \\".to_owned(), c),
                ListError::ExpectedDelimiter(c) => {
                    let mut m = with_char("expected ',' or '}', found '".to_owned(), c);
                    m.append("'");
                    m
                },
            },
            ParseError::DateTime(t, c) => {
                let mut m = "Invalid ".to_owned();
                match t {
                    TypeName::Date => m.append("DATE"),
                    TypeName::Time => m.append("TIME"),
                    TypeName::Timestamp => m.append("TIMESTAMP"),
                    TypeName::TimestampTz => m.append("TIMESTAMPTZ"),
                }
                m.append(" '");
                m.append(input);
                m.append("': ");
                match c {
                    DateTimeError::Empty => m.append("timestamp string is empty"),
                    DateTimeError::Syntax => m.append("invalid syntax"),
                    DateTimeError::OutOfRange => m.append("field value out of range"),
                    DateTimeError::InvalidOffset => m.append("invalid time zone conversion"),
                }
                m
            },
            ParseError::Decimal => "invalid decimal".to_owned(),
            ParseError::Json => "invalid JSON".to_owned(),
        }
    }
}

} // verus!
