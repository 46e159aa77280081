//! JSON values in their text forms.

use vstd::prelude::*;

use crate::error::ParseError;
use crate::strconv::Nestable;
use crate::text::{chars_of, string_of, trim, trim_bounds};

verus! {

/// Whether `s` is a JSON document.
pub uninterp spec fn json_accepts(s: Seq<char>) -> bool;

/// The compact, single-line text of the JSON document `s`.
pub uninterp spec fn json_compact(s: Seq<char>) -> Seq<char>;

/// The indented text of the JSON document `s`.
pub uninterp spec fn json_pretty(s: Seq<char>) -> Seq<char>;

/// Relies on `serde_json::from_str` into a `serde_json::Value`, and on that
/// value's `Display` (compact with `{}`, indented with `{:#}`): the document
/// is accepted or not, and its two renderings, by its text alone.
#[verifier::external_body]
fn json_render(s: &str) -> (r: Option<(String, String)>)
    ensures
        r is Some <==> json_accepts(s@),
        r is Some ==> r->Some_0.0@ == json_compact(s@) && r->Some_0.1@ == json_pretty(s@),
{
    let v: serde_json::Value = serde_json::from_str(s).ok()?;
    Some((format!("{}", v), format!("{:#}", v)))
}

/// A JSON document, held in its two canonical renderings.
pub struct Jsonb {
    compact: String,
    pretty: String,
    source: Ghost<Seq<char>>,
}

impl Jsonb {
    /// The text that the document was parsed from.
    pub closed spec fn source(&self) -> Seq<char> {
        self.source@
    }

    pub closed spec fn wf(&self) -> bool {
        &&& json_accepts(self.source@)
        &&& self.compact@ == json_compact(self.source@)
        &&& self.pretty@ == json_pretty(self.source@)
    }
}

/// Parses a JSON document from a string, ignoring leading and trailing
/// whitespace.
pub fn parse_jsonb(s: &str) -> (r: Result<Jsonb, ParseError>)
    ensures
        r is Ok <==> json_accepts(trim(s@)),
        r is Ok ==> r->Ok_0.wf() && r->Ok_0.source() == trim(s@),
        r is Err ==> r->Err_0 == ParseError::Json,
{
    let cs = chars_of(s);
    let (a, b) = trim_bounds(&cs, 0, cs.len());
    assert(cs@.subrange(0, cs@.len() as int) == s@);
    let t = string_of(&cs, a, b);
    match json_render(t.as_str()) {
        Some((compact, pretty)) => Ok(Jsonb { compact, pretty, source: Ghost(t@) }),
        None => Err(ParseError::Json),
    }
}

/// Writes a JSON document to a buffer in its compact form.
pub fn format_jsonb(buf: &mut Vec<char>, jsonb: &Jsonb) -> (r: Nestable)
    requires
        jsonb.wf(),
    ensures
        final(buf)@ == old(buf)@ + json_compact(jsonb.source()),
        r == Nestable::MayNeedEscaping,
{
    let mut cs = chars_of(jsonb.compact.as_str());
    buf.append(&mut cs);
    Nestable::MayNeedEscaping
}

/// Writes a JSON document to a buffer in its indented form.
pub fn format_jsonb_pretty(buf: &mut Vec<char>, jsonb: &Jsonb)
    requires
        jsonb.wf(),
    ensures
        final(buf)@ == old(buf)@ + json_pretty(jsonb.source()),
{
    let mut cs = chars_of(jsonb.pretty.as_str());
    buf.append(&mut cs);
}

} // verus!
