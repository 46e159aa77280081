//! List (array) literals: `{elem,elem,...}` with `"`-quoting and backslash
//! escapes, and the unquoted token `NULL` for a null element.

use vstd::prelude::*;

use crate::error::{IntError, ListError, ParseError};
use crate::strconv::{int_text, int_value, lemma_int_text, Nestable};
use crate::text::{chars_of, lemma_trim_plain, trim, trim_bounds};

verus! {

/// Characters that force an element to be quoted inside a list literal.
pub open spec fn is_list_special(c: char) -> bool {
    c == '{' || c == '}' || c == ',' || c == ' ' || c == '"' || c == '\\'
}

/// Characters that must be preceded by a backslash inside a quoted element.
pub open spec fn needs_backslash(c: char) -> bool {
    c == '"' || c == '\\'
}

pub open spec fn null_token() -> Seq<char> {
    seq!['N', 'U', 'L', 'L']
}

/// An element may stand unquoted iff it is non-empty, is not the literal
/// `NULL`, and holds no special character.
pub open spec fn needs_quotes(e: Seq<char>) -> bool {
    e.len() == 0 || e == null_token() || exists|i: int| 0 <= i < e.len() && is_list_special(#[trigger] e[i])
}

/// `e` with a backslash inserted before every `"` and `\`.
pub open spec fn backslashed(e: Seq<char>) -> Seq<char>
    decreases e.len(),
{
    if e.len() == 0 {
        Seq::empty()
    } else if needs_backslash(e.last()) {
        backslashed(e.drop_last()) + seq!['\\', e.last()]
    } else {
        backslashed(e.drop_last()) + seq![e.last()]
    }
}

/// The number of characters of `e` that need a backslash.
pub open spec fn backslash_count(e: Seq<char>) -> nat
    decreases e.len(),
{
    if e.len() == 0 {
        0
    } else if needs_backslash(e.last()) {
        backslash_count(e.drop_last()) + 1
    } else {
        backslash_count(e.drop_last())
    }
}

/// How an element stands inside a list literal once escaped.
pub open spec fn escape_elem(e: Seq<char>) -> Seq<char> {
    if needs_quotes(e) {
        seq!['"'] + backslashed(e) + seq!['"']
    } else {
        e
    }
}

proof fn lemma_backslashed_len(e: Seq<char>)
    ensures
        backslashed(e).len() == e.len() + backslash_count(e),
    decreases e.len(),
{
    if e.len() > 0 {
        lemma_backslashed_len(e.drop_last());
    }
}

proof fn lemma_backslashed_split(e: Seq<char>, k: int)
    requires
        0 <= k <= e.len(),
    ensures
        backslashed(e) == backslashed(e.subrange(0, k)) + backslashed(e.subrange(k, e.len() as int)),
    decreases e.len(),
{
    if k == e.len() {
        assert(e.subrange(0, k) == e);
        assert(e.subrange(k, e.len() as int) == Seq::<char>::empty());
        assert(backslashed(e) + Seq::<char>::empty() == backslashed(e));
    } else {
        let d = e.drop_last();
        lemma_backslashed_split(d, k);
        assert(d.subrange(0, k) == e.subrange(0, k));
        let tail = e.subrange(k, e.len() as int);
        assert(tail.drop_last() == d.subrange(k, d.len() as int));
        assert(tail.last() == e.last());
        assert(backslashed(tail) == if needs_backslash(tail.last()) {
            backslashed(tail.drop_last()) + seq!['\\', tail.last()]
        } else {
            backslashed(tail.drop_last()) + seq![tail.last()]
        });
    }
}

proof fn lemma_backslashed_one(c: char)
    ensures
        backslashed(seq![c]) == if needs_backslash(c) { seq!['\\', c] } else { seq![c] },
{
    let s = seq![c];
    assert(s.drop_last() == Seq::<char>::empty());
    assert(backslashed(Seq::<char>::empty()) == Seq::<char>::empty());
    assert(s.last() == c);
    assert(Seq::<char>::empty() + seq!['\\', c] == seq!['\\', c]);
    assert(Seq::<char>::empty() + seq![c] == seq![c]);
}

/// Escapes, in place, the list element that starts at `start` and runs to the
/// end of `buf`. Where quoting is needed, the buffer grows by the quotes and
/// backslashes, and the element is rewritten from its last character back to
/// its first, so that no character is overwritten before it has been read.
pub fn escape_list_elem(buf: &mut Vec<char>, start: usize)
    requires
        start <= old(buf).len(),
        old(buf).len() + 2 * (old(buf).len() - start) + 2 <= usize::MAX,
    ensures
        final(buf)@ == old(buf)@.subrange(0, start as int) + escape_elem(
            old(buf)@.subrange(start as int, old(buf)@.len() as int),
        ),
{
    let ghost e = buf@.subrange(start as int, buf@.len() as int);
    let orig_end = buf.len();
    // Decide whether the element needs quoting at all.
    let mut special = false;
    let mut extras: usize = 2;
    let mut i = start;
    while i < orig_end
        invariant
            start <= i <= orig_end,
            orig_end == buf.len(),
            e == buf@.subrange(start as int, orig_end as int),
            buf.len() + 2 * (buf.len() - start) + 2 <= usize::MAX,
            extras == 2 + backslash_count(e.subrange(0, i - start)),
            extras <= 2 + (i - start),
            special <==> exists|j: int| 0 <= j < i - start && is_list_special(#[trigger] e[j]),
        decreases orig_end - i,
    {
        let c = buf[i];
        proof {
            let p = e.subrange(0, i - start + 1);
            assert(p.drop_last() == e.subrange(0, i - start));
            assert(p.last() == c);
        }
        if c == '"' || c == '\\' {
            extras = extras + 1;
        }
        if c == '{' || c == '}' || c == ',' || c == ' ' || c == '"' || c == '\\' {
            special = true;
        }
        i = i + 1;
    }
    assert(e.subrange(0, e.len() as int) == e);
    let len = orig_end - start;
    let is_null = len == 4 && buf[start] == 'N' && buf[start + 1] == 'U' && buf[start + 2] == 'L'
        && buf[start + 3] == 'L';
    proof {
        if len == 4 && e == null_token() {
            assert(e[0] == buf@[start as int]);
        }
        if is_null {
            assert(e =~= null_token());
        }
    }
    if len > 0 && !is_null && !special {
        // The element does not need escaping.
        return;
    }
    assert(needs_quotes(e));
    proof {
        lemma_backslashed_len(e);
    }
    let new_end = orig_end + extras;
    // Pad the buffer to its new length; every padding character is
    // overwritten below.
    let mut k: usize = 0;
    while k < extras
        invariant
            k <= extras,
            buf.len() == orig_end + k,
            buf@.subrange(0, orig_end as int) == old(buf)@,
            orig_end == old(buf).len(),
            new_end == orig_end + extras,
            new_end <= usize::MAX,
        decreases extras - k,
    {
        buf.push('\0');
        k = k + 1;
    }
    assert(buf@.subrange(0, orig_end as int) == old(buf)@);
    // Walk the element backwards, writing at the new end while reading from
    // the old one.
    let mut wi: usize = new_end - 1;
    buf[wi] = '"';
    wi = wi - 1;
    assert(e.subrange(0, len as int) == e);
    assert(e.subrange(len as int, len as int) == Seq::<char>::empty());
    assert(buf@.subrange(wi + 1, new_end as int) =~= seq!['"']);
    assert(backslashed(e.subrange(0, len as int)).len() == len + backslash_count(e));
    let mut ri: usize = orig_end;
    while ri > start
        invariant
            start <= ri <= orig_end,
            orig_end == old(buf).len(),
            e == old(buf)@.subrange(start as int, orig_end as int),
            len == orig_end - start,
            buf.len() == new_end,
            new_end == orig_end + extras,
            extras == 2 + backslash_count(e),
            wi == start + backslashed(e.subrange(0, ri - start)).len(),
            wi + 2 + backslashed(e.subrange(ri - start, len as int)).len() == new_end,
            forall|j: int| 0 <= j < ri ==> buf@[j] == old(buf)@[j],
            buf@.subrange(wi + 1, new_end as int) == backslashed(e.subrange(ri - start, len as int))
                + seq!['"'],
        decreases ri,
    {
        let ghost pre = e.subrange(0, ri - start - 1);
        let ghost c_ = e[ri - start - 1];
        proof {
            lemma_backslashed_split(e.subrange(0, ri - start), ri - start - 1);
            assert(e.subrange(0, ri - start).subrange(0, ri - start - 1) == pre);
            assert(e.subrange(0, ri - start).subrange(ri - start - 1, ri - start) == seq![c_]);
            lemma_backslashed_one(c_);
            lemma_backslashed_len(pre);
            lemma_backslashed_split(e.subrange(ri - start - 1, len as int), 1);
            assert(e.subrange(ri - start - 1, len as int).subrange(0, 1) == seq![c_]);
            assert(e.subrange(ri - start - 1, len as int).subrange(1, len - ri + start + 1)
                == e.subrange(ri - start, len as int));
        }
        ri = ri - 1;
        let c = buf[ri];
        assert(c == c_);
        let ghost b0 = buf@;
        let ghost w0 = wi;
        buf[wi] = c;
        if c == '\\' || c == '"' {
            wi = wi - 1;
            buf[wi] = '\\';
        }
        wi = wi - 1;
        if c == '\\' || c == '"' {
            assert(buf@.subrange(wi + 1, new_end as int) =~= seq!['\\', c] + b0.subrange(w0 + 1, new_end as int));
        } else {
            assert(buf@.subrange(wi + 1, new_end as int) =~= seq![c] + b0.subrange(w0 + 1, new_end as int));
        }
    }
    assert(e.subrange(0, 0) == Seq::<char>::empty());
    assert(e.subrange(0, len as int) == e);
    assert(wi == start);
    assert(ri == start);
    assert(buf@.subrange(start as int + 1, new_end as int) == backslashed(e) + seq!['"']);
    assert(escape_elem(e) == seq!['"'] + backslashed(e) + seq!['"']);
    let ghost before = buf@;
    buf[wi] = '"';
    assert(buf@.subrange(0, start as int) =~= old(buf)@.subrange(0, start as int));
    assert(buf@.subrange(start as int + 1, new_end as int) =~= before.subrange(start as int + 1, new_end as int));
    assert(buf@ =~= buf@.subrange(0, start as int) + seq!['"'] + buf@.subrange(start as int + 1, new_end as int));
    assert(buf@ =~= old(buf)@.subrange(0, start as int) + escape_elem(e));
}


/// How an element formatter's output stands in a list literal: escaped when
/// the formatter reported that it may need it, verbatim otherwise.
pub open spec fn placed(o: (Seq<char>, Nestable)) -> Seq<char> {
    if o.1 == Nestable::MayNeedEscaping {
        escape_elem(o.0)
    } else {
        o.0
    }
}

/// The placed elements, separated by commas.
pub open spec fn joined(items: Seq<(Seq<char>, Nestable)>) -> Seq<char>
    decreases items.len(),
{
    if items.len() == 0 {
        Seq::empty()
    } else if items.len() == 1 {
        placed(items[0])
    } else {
        joined(items.drop_last()) + seq![','] + placed(items.last())
    }
}

/// The list literal for formatted elements.
pub open spec fn list_literal(items: Seq<(Seq<char>, Nestable)>) -> Seq<char> {
    seq!['{'] + joined(items) + seq!['}']
}

/// The text and escaping signal of formatter outputs.
pub open spec fn outputs_view(outs: Seq<(Vec<char>, Nestable)>) -> Seq<(Seq<char>, Nestable)> {
    outs.map_values(|o: (Vec<char>, Nestable)| (o.0@, o.1))
}

/// Relies on `Vec`: a vector never holds more than `isize::MAX` bytes, and a
/// `char` takes four of them.
#[verifier::external_body]
fn char_len(buf: &Vec<char>) -> (r: usize)
    ensures
        r == buf.len(),
        r <= isize::MAX as usize / 4,
{
    buf.len()
}

/// A helper for [`format_list`] that formats a single list element, handed
/// to the element formatter at a fresh write position.
pub struct ListElementWriter {
    fresh: (),
}

impl ListElementWriter {
    /// The writer that [`format_list`] hands to its element formatter.
    pub closed spec fn fresh_spec() -> ListElementWriter {
        ListElementWriter { fresh: () }
    }

    fn fresh() -> (r: ListElementWriter)
        ensures
            r == Self::fresh_spec(),
    {
        ListElementWriter { fresh: () }
    }

    /// Marks this list element as null.
    pub fn write_null(self) -> (r: (Vec<char>, Nestable))
        ensures
            r.0@ == null_token(),
            r.1 == Nestable::Yes,
    {
        let v: Vec<char> = vec!['N', 'U', 'L', 'L'];
        assert(v@ == null_token());
        (v, Nestable::Yes)
    }

    /// Returns the empty buffer into which a non-null element is written.
    pub fn nonnull_buffer(self) -> (r: Vec<char>)
        ensures
            r@ == Seq::<char>::empty(),
    {
        Vec::new()
    }
}

/// Writes a list literal to `buf`: `{`, the elements separated by commas,
/// and `}`. Each element is formatted by `format_elem`; where it reports
/// [`Nestable::MayNeedEscaping`] the element is escaped in place.
pub fn format_list<T, F>(buf: &mut Vec<char>, elems: &[T], format_elem: F) -> (r: Nestable)
    where
        F: Fn(ListElementWriter, &T) -> (Vec<char>, Nestable),
    requires
        forall|i: int|
            0 <= i < elems@.len() ==> format_elem.requires(
                (ListElementWriter::fresh_spec(), #[trigger] &elems@[i]),
            ),
    ensures
        r == Nestable::Yes,
        exists|outs: Seq<(Vec<char>, Nestable)>|
            {
                &&& outs.len() == elems@.len()
                &&& forall|i: int|
                    0 <= i < outs.len() ==> format_elem.ensures(
                        (ListElementWriter::fresh_spec(), &elems@[i]),
                        #[trigger] outs[i],
                    )
                &&& final(buf)@ == old(buf)@ + list_literal(outputs_view(outs))
            },
{
    buf.push('{');
    let ghost mut outs: Seq<(Vec<char>, Nestable)> = Seq::empty();
    let mut i: usize = 0;
    while i < elems.len()
        invariant
            0 <= i <= elems@.len(),
            outs.len() == i,
            forall|j: int|
                0 <= j < elems@.len() ==> format_elem.requires(
                    (ListElementWriter::fresh_spec(), #[trigger] &elems@[j]),
                ),
            forall|j: int|
                0 <= j < i ==> format_elem.ensures(
                    (ListElementWriter::fresh_spec(), &elems@[j]),
                    #[trigger] outs[j],
                ),
            buf@ == old(buf)@ + seq!['{'] + joined(outputs_view(outs)),
        decreases elems@.len() - i,
    {
        if i > 0 {
            buf.push(',');
        }
        let start = char_len(buf);
        let out = format_elem(ListElementWriter::fresh(), &elems[i]);
        let (mut text, nestable) = out;
        let ghost text0 = text@;
        buf.append(&mut text);
        assert(buf@.subrange(start as int, buf@.len() as int) =~= text0);
        if let Nestable::MayNeedEscaping = nestable {
            let _ = char_len(buf);
            escape_list_elem(buf, start);
        }
        let ghost prev = outs;
        proof {
            outs = outs.push(out);
            assert(outputs_view(outs).drop_last() =~= outputs_view(prev));
            assert(outputs_view(outs).last() == (text0, nestable));
            if i == 0 {
                assert(outputs_view(prev) =~= Seq::<(Seq<char>, Nestable)>::empty());
            }
        }
        assert(buf@.subrange(0, start as int) =~= old(buf)@ + seq!['{'] + joined(outputs_view(prev))
            + (if i > 0 { seq![','] } else { Seq::empty() }));
        assert(buf@ =~= old(buf)@ + seq!['{'] + joined(outputs_view(outs)));
        i = i + 1;
    }
    buf.push('}');
    assert(buf@ =~= old(buf)@ + list_literal(outputs_view(outs)));
    Nestable::Yes
}


/// Where a scan of a list literal stands between two characters.
pub enum ListScan {
    /// Before an element, or before the closing `}`.
    Elem,
    /// Inside a quoted element, with the unescaped text so far.
    Quoted(Seq<char>),
    /// Just after a backslash inside a quoted element.
    QuotedEscape(Seq<char>),
    /// Inside a nested list, at a brace depth (first) of at least one; the
    /// nested list opened at an index (second).
    Nested(nat, int),
    /// Inside an unquoted element that began at the given index.
    Unquoted(int),
    /// After an element, before `,` or `}`.
    AfterElem,
}

/// What an unquoted element stands for: null when, trimmed, it is `NULL`.
pub open spec fn unquoted_item(t: Seq<char>) -> Option<Seq<char>> {
    if trim(t) == null_token() {
        None
    } else {
        Some(t)
    }
}

/// The list ends with the `}` at index `i`, which must be the last character.
pub open spec fn list_end(s: Seq<char>, i: int, items: Seq<Option<Seq<char>>>) -> Result<
    Seq<Option<Seq<char>>>,
    ListError,
> {
    if i + 1 < s.len() {
        Err(ListError::UnexpectedLeftover(s[i + 1]))
    } else {
        Ok(items)
    }
}

/// The elements of a list literal, scanning `s` from index `i` in state
/// `st`, with `items` found before `i`. A null element is `None`; any other
/// is the text to be handed to the element parser.
pub open spec fn scan_list(s: Seq<char>, i: int, st: ListScan, items: Seq<Option<Seq<char>>>) -> Result<
    Seq<Option<Seq<char>>>,
    ListError,
>
    decreases s.len() - i,
{
    if i < 0 || i >= s.len() {
        Err(ListError::UnexpectedEnd)
    } else {
        let c = s[i];
        match st {
            ListScan::Elem => {
                if c == '}' {
                    list_end(s, i, items)
                } else if c == ' ' {
                    scan_list(s, i + 1, ListScan::Elem, items)
                } else if c == '"' {
                    scan_list(s, i + 1, ListScan::Quoted(Seq::empty()), items)
                } else if c == '{' {
                    scan_list(s, i + 1, ListScan::Nested(1, i), items)
                } else if c == ',' {
                    scan_list(s, i + 1, ListScan::Elem, items.push(Some(Seq::empty())))
                } else {
                    scan_list(s, i + 1, ListScan::Unquoted(i), items)
                }
            },
            ListScan::Unquoted(start) => {
                if c == '}' || c == ',' || c == ' ' {
                    let found = items.push(unquoted_item(s.subrange(start, i)));
                    if c == '}' {
                        list_end(s, i, found)
                    } else if c == ',' {
                        scan_list(s, i + 1, ListScan::Elem, found)
                    } else {
                        scan_list(s, i + 1, ListScan::AfterElem, found)
                    }
                } else {
                    scan_list(s, i + 1, ListScan::Unquoted(start), items)
                }
            },
            ListScan::Quoted(acc) => {
                if c == '"' {
                    scan_list(s, i + 1, ListScan::AfterElem, items.push(Some(acc)))
                } else if c == '\\' {
                    scan_list(s, i + 1, ListScan::QuotedEscape(acc), items)
                } else {
                    scan_list(s, i + 1, ListScan::Quoted(acc.push(c)), items)
                }
            },
            ListScan::QuotedEscape(acc) => {
                if c == '\\' || c == '"' {
                    scan_list(s, i + 1, ListScan::Quoted(acc.push(c)), items)
                } else {
                    Err(ListError::BadEscape(c))
                }
            },
            ListScan::Nested(depth, start) => {
                if c == '{' {
                    scan_list(s, i + 1, ListScan::Nested(depth + 1, start), items)
                } else if c == '}' {
                    if depth <= 1 {
                        scan_list(
                            s,
                            i + 1,
                            ListScan::AfterElem,
                            items.push(Some(s.subrange(start, i + 1))),
                        )
                    } else {
                        scan_list(s, i + 1, ListScan::Nested((depth - 1) as nat, start), items)
                    }
                } else {
                    scan_list(s, i + 1, ListScan::Nested(depth, start), items)
                }
            },
            ListScan::AfterElem => {
                if c == ' ' {
                    scan_list(s, i + 1, ListScan::AfterElem, items)
                } else if c == ',' {
                    scan_list(s, i + 1, ListScan::Elem, items)
                } else if c == '}' {
                    list_end(s, i, items)
                } else {
                    Err(ListError::ExpectedDelimiter(c))
                }
            },
        }
    }
}

/// The elements of the list literal `s`.
pub open spec fn list_items(s: Seq<char>) -> Result<Seq<Option<Seq<char>>>, ListError> {
    if s.len() == 0 {
        Err(ListError::UnexpectedEnd)
    } else if s[0] != '{' {
        Err(ListError::ExpectedOpenBrace(s[0]))
    } else {
        scan_list(s, 1, ListScan::Elem, Seq::empty())
    }
}

pub open spec fn item_view(o: Option<String>) -> Option<Seq<char>> {
    match o {
        Some(t) => Some(t@),
        None => None,
    }
}

pub open spec fn items_view(v: Seq<Option<String>>) -> Seq<Option<Seq<char>>> {
    v.map_values(|o: Option<String>| item_view(o))
}

enum Cursor {
    Elem,
    Quoted,
    QuotedEscape,
    Nested(usize, usize),
    Unquoted(usize),
    AfterElem,
}

spec fn cursor_state(cur: Cursor, text: Seq<char>) -> ListScan {
    match cur {
        Cursor::Elem => ListScan::Elem,
        Cursor::Quoted => ListScan::Quoted(text),
        Cursor::QuotedEscape => ListScan::QuotedEscape(text),
        Cursor::Nested(d, st) => ListScan::Nested(d as nat, st as int),
        Cursor::Unquoted(st) => ListScan::Unquoted(st as int),
        Cursor::AfterElem => ListScan::AfterElem,
    }
}

/// Splits a list literal into its elements: `None` for an unquoted `NULL`,
/// otherwise the element's text (unescaped for a quoted element, verbatim
/// for a nested list).
pub fn split_list(s: &str) -> (r: Result<Vec<Option<String>>, ListError>)
    ensures
        match r {
            Ok(v) => list_items(s@) == Ok::<Seq<Option<Seq<char>>>, ListError>(items_view(v@)),
            Err(e) => list_items(s@) == Err::<Seq<Option<Seq<char>>>, ListError>(e),
        },
{
    let cs = chars_of(s);
    if cs.len() == 0 {
        return Err(ListError::UnexpectedEnd);
    }
    if cs[0] != '{' {
        return Err(ListError::ExpectedOpenBrace(cs[0]));
    }
    let ghost target = list_items(s@);
    let mut items: Vec<Option<String>> = Vec::new();
    let mut cur = Cursor::Elem;
    let mut text = String::new();
    let mut i: usize = 1;
    assert(items_view(items@) =~= Seq::<Option<Seq<char>>>::empty());
    while i < cs.len()
        invariant
            cs@ == s@,
            1 <= i <= cs@.len(),
            target == list_items(s@),
            target == scan_list(cs@, i as int, cursor_state(cur, text@), items_view(items@)),
            match cur {
                Cursor::Nested(d, st) => 1 <= d <= i && st < i,
                Cursor::Unquoted(st) => st < i && text@ == cs@.subrange(st as int, i as int),
                _ => true,
            },
        decreases cs@.len() - i,
    {
        let c = cs[i];
        let ghost before = items_view(items@);
        match cur {
            Cursor::Elem => {
                if c == '}' {
                    return if i + 1 < cs.len() {
                        Err(ListError::UnexpectedLeftover(cs[i + 1]))
                    } else {
                        Ok(items)
                    };
                } else if c == ' ' {
                } else if c == '"' {
                    text = String::new();
                    cur = Cursor::Quoted;
                } else if c == '{' {
                    cur = Cursor::Nested(1, i);
                } else if c == ',' {
                    items.push(Some(String::new()));
                    assert(items_view(items@) =~= before.push(Some(Seq::empty())));
                } else {
                    text = String::new();
                    text.push(c);
                    cur = Cursor::Unquoted(i);
                    assert(text@ =~= cs@.subrange(i as int, i + 1));
                }
            },
            Cursor::Unquoted(start) => {
                if c == '}' || c == ',' || c == ' ' {
                    let (a, b) = trim_bounds(&cs, start, i);
                    let ghost t = cs@.subrange(start as int, i as int);
                    let is_null = b - a == 4 && cs[a] == 'N' && cs[a + 1] == 'U' && cs[a + 2] == 'L'
                        && cs[a + 3] == 'L';
                    proof {
                        let tt = cs@.subrange(a as int, b as int);
                        if b - a == 4 {
                            assert(tt[0] == cs@[a as int]);
                            assert(tt[1] == cs@[a + 1]);
                            assert(tt[2] == cs@[a + 2]);
                            assert(tt[3] == cs@[a + 3]);
                        }
                        if is_null {
                            assert(tt =~= null_token());
                        }
                        if tt == null_token() {
                            assert(null_token().len() == 4);
                            assert(b - a == 4);
                            assert(null_token()[0] == 'N' && null_token()[1] == 'U');
                            assert(null_token()[2] == 'L' && null_token()[3] == 'L');
                            assert(cs@[a as int] == 'N' && cs@[a + 1] == 'U');
                            assert(cs@[a + 2] == 'L' && cs@[a + 3] == 'L');
                        }
                        assert(trim(t) == tt);
                        assert(is_null == (trim(t) == null_token()));
                    }
                    let item = if is_null {
                        None
                    } else {
                        Some(text)
                    };
                    assert(item_view(item) == unquoted_item(t));
                    text = String::new();
                    items.push(item);
                    assert(items_view(items@) =~= before.push(unquoted_item(t)));
                    if c == '}' {
                        return if i + 1 < cs.len() {
                            Err(ListError::UnexpectedLeftover(cs[i + 1]))
                        } else {
                            Ok(items)
                        };
                    } else if c == ',' {
                        cur = Cursor::Elem;
                    } else {
                        cur = Cursor::AfterElem;
                    }
                } else {
                    text.push(c);
                    assert(text@ =~= cs@.subrange(start as int, i + 1));
                }
            },
            Cursor::Quoted => {
                if c == '"' {
                    let t = text;
                    text = String::new();
                    items.push(Some(t));
                    assert(items_view(items@) =~= before.push(Some(t@)));
                    cur = Cursor::AfterElem;
                } else if c == '\\' {
                    cur = Cursor::QuotedEscape;
                } else {
                    text.push(c);
                }
            },
            Cursor::QuotedEscape => {
                if c == '\\' || c == '"' {
                    text.push(c);
                    cur = Cursor::Quoted;
                } else {
                    return Err(ListError::BadEscape(c));
                }
            },
            Cursor::Nested(depth, start) => {
                if c == '{' {
                    cur = Cursor::Nested(depth + 1, start);
                } else if c == '}' {
                    if depth <= 1 {
                        let t = crate::text::string_of(&cs, start, i + 1);
                        items.push(Some(t));
                        assert(items_view(items@) =~= before.push(Some(cs@.subrange(start as int, i + 1))));
                        cur = Cursor::AfterElem;
                    } else {
                        cur = Cursor::Nested(depth - 1, start);
                    }
                }
            },
            Cursor::AfterElem => {
                if c == ' ' {
                } else if c == ',' {
                    cur = Cursor::Elem;
                } else if c == '}' {
                    return if i + 1 < cs.len() {
                        Err(ListError::UnexpectedLeftover(cs[i + 1]))
                    } else {
                        Ok(items)
                    };
                } else {
                    return Err(ListError::ExpectedDelimiter(c));
                }
            },
        }
        i = i + 1;
    }
    Err(ListError::UnexpectedEnd)
}


/// Every element before index `i` that is not null was parsed without
/// error by `parse_elem`.
pub open spec fn elems_parsed<T, P: Fn(&str) -> Result<T, ParseError>>(
    items: Seq<Option<Seq<char>>>,
    i: int,
    parse_elem: P,
) -> bool {
    forall|j: int|
        0 <= j < i && #[trigger] items[j] is Some ==> exists|y: &str, v: T|
            y@ == items[j]->Some_0 && parse_elem.ensures((y,), Ok::<T, ParseError>(v))
}

/// Parses a list literal. An unquoted `NULL` element becomes `make_null()`;
/// every other element's text is handed to `parse_elem`. A malformed literal
/// fails with [`ParseError::List`]; otherwise the first element that
/// `parse_elem` rejects fails with its error.
pub fn parse_list<T, N, P>(s: &str, make_null: N, parse_elem: P) -> (r: Result<Vec<T>, ParseError>)
    where
        N: Fn() -> T,
        P: Fn(&str) -> Result<T, ParseError>,
    requires
        make_null.requires(()),
        forall|x: &str| parse_elem.requires((x,)),
    ensures
        list_items(s@) is Err ==> r == Err::<Vec<T>, ParseError>(ParseError::List(list_items(s@)->Err_0)),
        r is Ok ==> {
            &&& list_items(s@) is Ok
            &&& r->Ok_0@.len() == list_items(s@)->Ok_0.len()
            &&& forall|i: int|
                0 <= i < r->Ok_0@.len() ==> match #[trigger] list_items(s@)->Ok_0[i] {
                    None => make_null.ensures((), r->Ok_0@[i]),
                    Some(t) => exists|x: &str| x@ == t && parse_elem.ensures((x,), Ok::<T, ParseError>(r->Ok_0@[i])),
                }
        },
        r is Err && list_items(s@) is Ok ==> exists|i: int, x: &str|
            0 <= i < list_items(s@)->Ok_0.len() && list_items(s@)->Ok_0[i] == Some(x@)
                && parse_elem.ensures((x,), Err::<T, ParseError>(r->Err_0)) && elems_parsed(
                list_items(s@)->Ok_0,
                i,
                parse_elem,
            ),
{
    let items = match split_list(s) {
        Ok(items) => items,
        Err(e) => return Err(ParseError::List(e)),
    };
    let ghost iv = items_view(items@);
    let mut out: Vec<T> = Vec::new();
    let mut i: usize = 0;
    while i < items.len()
        invariant
            list_items(s@) == Ok::<Seq<Option<Seq<char>>>, ListError>(iv),
            iv == items_view(items@),
            i <= items@.len(),
            out@.len() == i,
            make_null.requires(()),
            forall|x: &str| parse_elem.requires((x,)),
            forall|j: int|
                0 <= j < i ==> match #[trigger] iv[j] {
                    None => make_null.ensures((), out@[j]),
                    Some(t) => exists|x: &str| x@ == t && parse_elem.ensures((x,), Ok::<T, ParseError>(out@[j])),
                },
        decreases items@.len() - i,
    {
        assert(iv[i as int] == item_view(items@[i as int]));
        match &items[i] {
            None => {
                let v = make_null();
                out.push(v);
            },
            Some(t) => {
                let x = t.as_str();
                match parse_elem(x) {
                    Ok(v) => {
                        out.push(v);
                    },
                    Err(e) => {
                        return Err(e);
                    },
                }
            },
        }
        i = i + 1;
    }
    Ok(out)
}


/// A word that can stand unquoted in a list literal and needs no escaping.
pub open spec fn plain_word(w: Seq<char>) -> bool {
    (w.len() as int) > 0 && forall|j: int| 0 <= j < (w.len() as int) ==> !is_list_special(#[trigger] w[j])
}

proof fn lemma_scan_unquoted(s: Seq<char>, start: int, j: int, e: int, items: Seq<Option<Seq<char>>>)
    requires
        0 <= start < j <= e < s.len(),
        forall|k: int| start <= k < e ==> !is_list_special(#[trigger] s[k]),
    ensures
        scan_list(s, j, ListScan::Unquoted(start), items) == scan_list(s, e, ListScan::Unquoted(start), items),
    decreases e - j,
{
    if j < e {
        lemma_scan_unquoted(s, start, j + 1, e, items);
    }
}

/// A nested list literal: braces around text that holds no brace.
pub open spec fn braced_word(w: Seq<char>) -> bool {
    &&& w.len() >= 2
    &&& w[0] == '{'
    &&& w.last() == '}'
    &&& forall|j: int| 0 < j < w.len() - 1 ==> #[trigger] w[j] != '{' && w[j] != '}'
}

/// A word that stands in a list literal as it is: plain, or a nested list.
pub open spec fn simple_word(w: Seq<char>) -> bool {
    plain_word(w) || braced_word(w)
}

/// What a simple word splits back into.
pub open spec fn simple_item(w: Seq<char>) -> Option<Seq<char>> {
    if braced_word(w) {
        Some(w)
    } else {
        unquoted_item(w)
    }
}

proof fn lemma_scan_nested(s: Seq<char>, start: int, j: int, e: int, items: Seq<Option<Seq<char>>>)
    requires
        0 <= start < j <= e < s.len(),
        forall|k: int| j <= k < e ==> #[trigger] s[k] != '{' && s[k] != '}',
    ensures
        scan_list(s, j, ListScan::Nested(1, start), items) == scan_list(
            s,
            e,
            ListScan::Nested(1, start),
            items,
        ),
    decreases e - j,
{
    if j < e {
        lemma_scan_nested(s, start, j + 1, e, items);
    }
}

proof fn lemma_scan_simple(s: Seq<char>, i: int, w: Seq<char>, items: Seq<Option<Seq<char>>>)
    requires
        simple_word(w),
        0 <= i,
        i + (w.len() as int) < s.len(),
        s.subrange(i, i + (w.len() as int)) == w,
    ensures
        s[i + (w.len() as int)] == ',' ==> scan_list(s, i, ListScan::Elem, items) == scan_list(
            s,
            i + (w.len() as int) + 1,
            ListScan::Elem,
            items.push(simple_item(w)),
        ),
        s[i + (w.len() as int)] == '}' ==> scan_list(s, i, ListScan::Elem, items) == list_end(
            s,
            i + (w.len() as int),
            items.push(simple_item(w)),
        ),
{
    let e = i + (w.len() as int);
    assert(s[i] == w[0]);
    assert(s.subrange(i, e) == w);
    if braced_word(w) {
        assert forall|k: int| i + 1 <= k < e - 1 implies #[trigger] s[k] != '{' && s[k] != '}' by {
            assert(s[k] == w[k - i]);
        }
        assert(s[e - 1] == w.last());
        assert(scan_list(s, i, ListScan::Elem, items) == scan_list(s, i + 1, ListScan::Nested(1, i), items));
        lemma_scan_nested(s, i, i + 1, e - 1, items);
        let found = items.push(Some(w));
        assert(scan_list(s, e - 1, ListScan::Nested(1, i), items) == scan_list(
            s,
            e,
            ListScan::AfterElem,
            found,
        ));
        assert(simple_item(w) == Some(w));
    } else {
        assert(!braced_word(w)) by {
            assert(!is_list_special(w[0]));
        }
        assert forall|k: int| i <= k < e implies !is_list_special(#[trigger] s[k]) by {
            assert(s[k] == w[k - i]);
        }
        assert(!is_list_special(w[0]));
        if i + 1 < e {
            lemma_scan_unquoted(s, i, i + 1, e, items);
        }
    }
}

/// A formatter output that splits back into what it stands for: a simple
/// word that needs no escaping, or any text to be escaped, except one that
/// stays unquoted and yet reads as `NULL` once trimmed.
pub open spec fn listable(o: (Seq<char>, Nestable)) -> bool {
    if o.1 == Nestable::Yes {
        simple_word(o.0)
    } else {
        needs_quotes(o.0) || trim(o.0) != null_token()
    }
}

/// What a listable output splits back into.
pub open spec fn listed_item(o: (Seq<char>, Nestable)) -> Option<Seq<char>> {
    if o.1 == Nestable::Yes {
        simple_item(o.0)
    } else {
        Some(o.0)
    }
}

pub open spec fn listed_items(outs: Seq<(Seq<char>, Nestable)>) -> Seq<Option<Seq<char>>> {
    outs.map_values(|o: (Seq<char>, Nestable)| listed_item(o))
}

pub open spec fn listable_outputs(outs: Seq<(Seq<char>, Nestable)>) -> bool {
    forall|k: int| 0 <= k < outs.len() ==> listable(#[trigger] outs[k])
}

proof fn lemma_scan_quoted(s: Seq<char>, j: int, e: Seq<char>, acc: Seq<char>, items: Seq<Option<Seq<char>>>)
    requires
        0 <= j,
        j + backslashed(e).len() < s.len(),
        s.subrange(j, j + backslashed(e).len()) == backslashed(e),
    ensures
        scan_list(s, j, ListScan::Quoted(acc), items) == scan_list(
            s,
            j + backslashed(e).len(),
            ListScan::Quoted(acc + e),
            items,
        ),
    decreases e.len(),
{
    if e.len() == 0 {
        assert(acc + e =~= acc);
    } else {
        let c = e[0];
        let rest = e.subrange(1, e.len() as int);
        lemma_backslashed_split(e, 1);
        assert(e.subrange(0, 1) =~= seq![c]);
        lemma_backslashed_one(c);
        let k = if needs_backslash(c) {
            2int
        } else {
            1int
        };
        let bc = backslashed(seq![c]);
        assert(bc.len() == k);
        assert(backslashed(e) == bc + backslashed(rest));
        assert(s[j] == backslashed(e)[0]);
        assert(s.subrange(j + k, j + k + backslashed(rest).len()) =~= backslashed(rest)) by {
            assert forall|m: int| 0 <= m < backslashed(rest).len() implies s[j + k + m] == backslashed(rest)[m] by {
                assert(s.subrange(j, j + backslashed(e).len())[k + m] == s[j + k + m]);
                assert(backslashed(e)[k + m] == backslashed(rest)[m]);
            }
        }
        assert(backslashed(e)[0] == bc[0]);
        if needs_backslash(c) {
            assert(backslashed(e)[1] == bc[1]);
            assert(s[j + 1] == backslashed(e)[1]);
            assert(s[j] == '\\' && s[j + 1] == c);
            assert(scan_list(s, j, ListScan::Quoted(acc), items) == scan_list(
                s,
                j + 1,
                ListScan::QuotedEscape(acc),
                items,
            ));
        } else {
            assert(s[j] == c);
        }
        assert(scan_list(s, j, ListScan::Quoted(acc), items) == scan_list(
            s,
            j + k,
            ListScan::Quoted(acc.push(c)),
            items,
        ));
        lemma_scan_quoted(s, j + k, rest, acc.push(c), items);
        assert(acc.push(c) + rest =~= acc + e);
    }
}

proof fn lemma_scan_output(s: Seq<char>, i: int, o: (Seq<char>, Nestable), items: Seq<Option<Seq<char>>>)
    requires
        listable(o),
        0 <= i,
        i + placed(o).len() < s.len(),
        s.subrange(i, i + placed(o).len()) == placed(o),
    ensures
        s[i + placed(o).len()] == ',' ==> scan_list(s, i, ListScan::Elem, items) == scan_list(
            s,
            i + placed(o).len() + 1,
            ListScan::Elem,
            items.push(listed_item(o)),
        ),
        s[i + placed(o).len()] == '}' ==> scan_list(s, i, ListScan::Elem, items) == list_end(
            s,
            i + placed(o).len(),
            items.push(listed_item(o)),
        ),
{
    let e = o.0;
    if o.1 == Nestable::Yes {
        lemma_scan_simple(s, i, e, items);
    } else if !needs_quotes(e) {
        assert(plain_word(e));
        assert(!braced_word(e)) by {
            assert(!is_list_special(e[0]));
        }
        lemma_scan_simple(s, i, e, items);
        assert(simple_item(e) == Some(e));
    } else {
        let w = placed(o);
        let bs = backslashed(e);
        assert(w == seq!['"'] + bs + seq!['"']);
        let end = i + w.len();
        assert(s[i] == w[0]);
        assert(s.subrange(i + 1, i + 1 + bs.len()) =~= bs) by {
            assert forall|m: int| 0 <= m < bs.len() implies s[i + 1 + m] == bs[m] by {
                assert(s.subrange(i, end)[1 + m] == s[i + 1 + m]);
            }
        }
        assert(s[end - 1] == w[w.len() - 1]) by {
            assert(s.subrange(i, end)[w.len() - 1] == s[end - 1]);
        }
        assert(s[i] == '"');
        assert(scan_list(s, i, ListScan::Elem, items) == scan_list(
            s,
            i + 1,
            ListScan::Quoted(Seq::empty()),
            items,
        ));
        lemma_scan_quoted(s, i + 1, e, Seq::empty(), items);
        assert(Seq::<char>::empty() + e =~= e);
        assert(s[end - 1] == '"');
        assert(end - 1 == i + 1 + bs.len());
        assert(scan_list(s, end - 1, ListScan::Quoted(e), items) == scan_list(
            s,
            end,
            ListScan::AfterElem,
            items.push(Some(e)),
        ));
        assert(listed_item(o) == Some(e));
    }
}


proof fn lemma_joined_listed(outs: Seq<(Seq<char>, Nestable)>, k: int, s: Seq<char>)
    requires
        listable_outputs(outs),
        1 <= k <= outs.len(),
        (joined(outs.subrange(0, k)).len() as int) + 1 < s.len(),
        s.subrange(0, (joined(outs.subrange(0, k)).len() as int) + 1) == seq!['{'] + joined(outs.subrange(0, k)),
        s[(joined(outs.subrange(0, k)).len() as int) + 1] == ',',
    ensures
        scan_list(s, 1, ListScan::Elem, Seq::empty()) == scan_list(
            s,
            (joined(outs.subrange(0, k)).len() as int) + 2,
            ListScan::Elem,
            listed_items(outs.subrange(0, k)),
        ),
    decreases k,
{
    let pk = outs.subrange(0, k);
    let jk = joined(pk);
    let o = pk.last();
    let w = placed(o);
    assert(pk.last() == outs[k - 1]);
    assert(listed_items(pk) =~= listed_items(pk.drop_last()).push(listed_item(o)));
    if k == 1 {
        assert(jk == w);
        assert(s.subrange(1, 1 + (w.len() as int)) =~= w) by {
            assert forall|j: int| 1 <= j < 1 + (w.len() as int) implies s[j] == w[j - 1] by {
                assert(s.subrange(0, (jk.len() as int) + 1)[j] == s[j]);
            }
        }
        lemma_scan_output(s, 1, o, Seq::empty());
        assert(listed_items(pk.drop_last()) =~= Seq::<Option<Seq<char>>>::empty());
    } else {
        let prev = outs.subrange(0, k - 1);
        assert(pk.drop_last() =~= prev);
        let jp = joined(prev);
        assert(jk == jp + seq![','] + w);
        assert(s.subrange(0, (jp.len() as int) + 1) =~= seq!['{'] + jp) by {
            assert forall|j: int| 0 <= j < (jp.len() as int) + 1 implies s[j] == (seq!['{'] + jp)[j] by {
                assert(s.subrange(0, (jk.len() as int) + 1)[j] == s[j]);
            }
        }
        assert(s[(jp.len() as int) + 1] == ',') by {
            assert(s.subrange(0, (jk.len() as int) + 1)[(jp.len() as int) + 1] == s[(jp.len() as int) + 1]);
        }
        lemma_joined_listed(outs, k - 1, s);
        assert(s.subrange((jp.len() as int) + 2, (jp.len() as int) + 2 + (w.len() as int)) =~= w) by {
            assert forall|j: int| 0 <= j < (w.len() as int) implies s[(jp.len() as int) + 2 + j] == w[j] by {
                assert(s.subrange(0, (jk.len() as int) + 1)[(jp.len() as int) + 2 + j] == s[(jp.len() as int) + 2 + j]);
            }
        }
        lemma_scan_output(s, (jp.len() as int) + 2, o, listed_items(prev));
    }
}

/// A list literal of listable formatter outputs splits back into what
/// they stand for.
pub proof fn lemma_listed_split(outs: Seq<(Seq<char>, Nestable)>)
    requires
        listable_outputs(outs),
    ensures
        list_items(list_literal(outs)) == Ok::<Seq<Option<Seq<char>>>, ListError>(listed_items(outs)),
{
    let s = list_literal(outs);
    let n = outs.len() as int;
    assert(outs.subrange(0, n) =~= outs);
    if n == 0 {
        assert(s =~= seq!['{', '}']);
        assert(listed_items(outs) =~= Seq::<Option<Seq<char>>>::empty());
    } else {
        let o = outs[n - 1];
        let w = placed(o);
        assert(outs.last() == o);
        assert(listed_items(outs) =~= listed_items(outs.drop_last()).push(listed_item(o)));
        let jn = joined(outs);
        if n == 1 {
            assert(jn == w);
            assert(s.subrange(1, 1 + (w.len() as int)) =~= w);
            lemma_scan_output(s, 1, o, Seq::empty());
            assert(listed_items(outs.drop_last()) =~= Seq::<Option<Seq<char>>>::empty());
        } else {
            let prev = outs.subrange(0, n - 1);
            assert(outs.drop_last() =~= prev);
            let jp = joined(prev);
            assert(jn == jp + seq![','] + w);
            assert(s.subrange(0, (jp.len() as int) + 1) =~= seq!['{'] + jp);
            assert(s[(jp.len() as int) + 1] == ',');
            lemma_joined_listed(outs, n - 1, s);
            assert(s.subrange((jp.len() as int) + 2, (jp.len() as int) + 2 + (w.len() as int)) =~= w);
            lemma_scan_output(s, (jp.len() as int) + 2, o, listed_items(prev));
        }
    }
}

/// The list text of an optional `i32`: its digits, or `NULL`.
pub open spec fn int_elem_text(o: Option<i32>) -> Seq<char> {
    match o {
        Some(v) => int_text(v as int),
        None => null_token(),
    }
}

/// What a formatter that writes integers, and `NULL` for a missing one,
/// hands to [`format_list`].
pub open spec fn int_list_outputs(items: Seq<Option<i32>>) -> Seq<(Seq<char>, Nestable)> {
    items.map_values(|o: Option<i32>| (int_elem_text(o), Nestable::Yes))
}

/// What [`split_list`] gives for such a list: the digits of each integer,
/// and `None` for each null.
pub open spec fn int_list_items(items: Seq<Option<i32>>) -> Seq<Option<Seq<char>>> {
    items.map_values(
        |o: Option<i32>|
            match o {
                Some(v) => Some(int_text(v as int)),
                None => None,
            },
    )
}

/// A list of integers with nulls, formatted and parsed again, gives back
/// each element: null markers where there were nulls, and texts that parse
/// as `i32` to the original values.
pub proof fn law_int_list_round_trip(items: Seq<Option<i32>>)
    ensures
        list_items(list_literal(int_list_outputs(items))) == Ok::<Seq<Option<Seq<char>>>, ListError>(
            int_list_items(items),
        ),
        forall|i: int|
            0 <= i < items.len() && #[trigger] items[i] is Some ==> int_value(
                trim(int_text(items[i]->Some_0 as int)),
                i32::MIN as int,
                i32::MAX as int,
            ) == Ok::<int, IntError>(items[i]->Some_0 as int),
{
    let outs = int_list_outputs(items);
    lemma_int_outputs_plain(items);
    lemma_listed_split(outs);
    assert forall|k: int| 0 <= k < items.len() implies #[trigger] listed_items(outs)[k] == int_list_items(items)[k] by {
        assert(plain_word(outs[k].0));
        match items[k] {
            Some(v) => {
                lemma_int_text(v as int);
                crate::strconv::lemma_int_text_chars(v as int, 0);
                assert(int_text(v as int) != null_token()) by {
                    assert(null_token()[0] == 'N');
                }
            },
            None => {
                lemma_trim_plain(null_token());
            },
        }
    }
    assert(listed_items(outs) =~= int_list_items(items));
    assert forall|i: int| 0 <= i < items.len() && #[trigger] items[i] is Some implies int_value(
        trim(int_text(items[i]->Some_0 as int)),
        i32::MIN as int,
        i32::MAX as int,
    ) == Ok::<int, IntError>(items[i]->Some_0 as int) by {
        crate::strconv::law_int32_round_trip(items[i]->Some_0);
    }
}

proof fn lemma_int_outputs_plain(items: Seq<Option<i32>>)
    ensures
        listable_outputs(int_list_outputs(items)),
        forall|k: int| 0 <= k < items.len() ==> plain_word(#[trigger] int_list_outputs(items)[k].0),
{
    let outs = int_list_outputs(items);
    assert forall|k: int| 0 <= k < outs.len() implies plain_word(#[trigger] outs[k].0) && outs[k].1
        == Nestable::Yes by {
        let w = outs[k].0;
        match items[k] {
            Some(v) => {
                lemma_int_text(v as int);
                assert forall|j: int| 0 <= j < (w.len() as int) implies !is_list_special(#[trigger] w[j]) by {
                    crate::strconv::lemma_int_text_chars(v as int, j);
                }
                crate::strconv::lemma_int_text_chars(v as int, 0);
            },
            None => {},
        }
    }
}


proof fn lemma_joined_no_braces(outs: Seq<(Seq<char>, Nestable)>)
    requires
        forall|k: int| 0 <= k < outs.len() ==> plain_word(#[trigger] outs[k].0) && outs[k].1
            == Nestable::Yes,
    ensures
        forall|j: int| 0 <= j < joined(outs).len() ==> #[trigger] joined(outs)[j] != '{' && joined(outs)[j] != '}',
    decreases outs.len(),
{
    let jn = joined(outs);
    if outs.len() == 1 {
        let w = outs[0].0;
        assert(jn == w);
        assert forall|j: int| 0 <= j < jn.len() implies #[trigger] jn[j] != '{' && jn[j] != '}' by {
            assert(!is_list_special(w[j]));
        }
    } else if outs.len() > 1 {
        let p = outs.drop_last();
        lemma_joined_no_braces(p);
        let w = outs.last().0;
        assert(plain_word(outs[outs.len() - 1].0));
        let jp = joined(p);
        assert(jn == jp + seq![','] + w);
        assert forall|j: int| 0 <= j < jn.len() implies #[trigger] jn[j] != '{' && jn[j] != '}' by {
            if j < jp.len() {
                assert(jn[j] == jp[j]);
            } else if j > jp.len() {
                assert(jn[j] == w[j - jp.len() - 1]);
                assert(!is_list_special(w[j - jp.len() - 1]));
            }
        }
    }
}

/// What a formatter that writes each inner list of integers with
/// [`format_list`] hands to the outer [`format_list`].
pub open spec fn nested_int_list_outputs(lists: Seq<Seq<Option<i32>>>) -> Seq<(Seq<char>, Nestable)> {
    lists.map_values(|l: Seq<Option<i32>>| (list_literal(int_list_outputs(l)), Nestable::Yes))
}

/// A list of lists of integers with nulls, formatted and parsed again,
/// splits into the literal of each inner list, and each of those splits
/// back into its integers and null markers.
pub proof fn law_nested_int_list_round_trip(lists: Seq<Seq<Option<i32>>>)
    ensures
        list_items(list_literal(nested_int_list_outputs(lists))) == Ok::<Seq<Option<Seq<char>>>, ListError>(
            lists.map_values(|l: Seq<Option<i32>>| Some(list_literal(int_list_outputs(l)))),
        ),
        forall|k: int|
            0 <= k < lists.len() ==> list_items(list_literal(int_list_outputs(#[trigger] lists[k])))
                == Ok::<Seq<Option<Seq<char>>>, ListError>(int_list_items(lists[k])),
{
    let outs = nested_int_list_outputs(lists);
    assert forall|k: int| 0 <= k < outs.len() implies simple_word(#[trigger] outs[k].0) && outs[k].1
        == Nestable::Yes && simple_item(outs[k].0) == Some(outs[k].0) by {
        let inner = int_list_outputs(lists[k]);
        lemma_int_outputs_plain(lists[k]);
        lemma_joined_no_braces(inner);
        let w = outs[k].0;
        let jn = joined(inner);
        assert(w == seq!['{'] + jn + seq!['}']);
        assert forall|j: int| 0 < j < w.len() - 1 implies #[trigger] w[j] != '{' && w[j] != '}' by {
            assert(w[j] == jn[j - 1]);
        }
        assert(braced_word(w));
    }
    lemma_listed_split(outs);
    assert(listed_items(outs) =~= lists.map_values(
        |l: Seq<Option<i32>>| Some(list_literal(int_list_outputs(l))),
    ));
    assert forall|k: int| 0 <= k < lists.len() implies list_items(
        list_literal(int_list_outputs(#[trigger] lists[k])),
    ) == Ok::<Seq<Option<Seq<char>>>, ListError>(int_list_items(lists[k])) by {
        law_int_list_round_trip(lists[k]);
    }
}


/// What a string formatter, which reports that its output may need
/// escaping, hands to [`format_list`].
pub open spec fn string_list_outputs(elems: Seq<Seq<char>>) -> Seq<(Seq<char>, Nestable)> {
    elems.map_values(|e: Seq<char>| (e, Nestable::MayNeedEscaping))
}

/// A list of strings, escaped by [`format_list`] and split again, gives
/// back every string. Left out are strings that stay unquoted and yet read
/// as `NULL` once trimmed, such as a tab before `NULL`.
pub proof fn law_string_list_round_trip(elems: Seq<Seq<char>>)
    requires
        forall|k: int| 0 <= k < elems.len() ==> needs_quotes(#[trigger] elems[k]) || trim(elems[k]) != null_token(),
    ensures
        list_items(list_literal(string_list_outputs(elems))) == Ok::<Seq<Option<Seq<char>>>, ListError>(
            elems.map_values(|e: Seq<char>| Some(e)),
        ),
{
    let outs = string_list_outputs(elems);
    assert forall|k: int| 0 <= k < outs.len() implies listable(#[trigger] outs[k]) by {
        assert(outs[k] == (elems[k], Nestable::MayNeedEscaping));
    }
    lemma_listed_split(outs);
    assert(listed_items(outs) =~= elems.map_values(|e: Seq<char>| Some(e)));
}

} // verus!
