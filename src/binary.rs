//! The binary `COPY` format: a fixed header, one framed record per row, and
//! a fixed trailer. All integers are big-endian.

use vstd::prelude::*;

use crate::cast::{self, RangeError};

verus! {

/// The 11-byte signature that opens every binary `COPY` stream:
/// `PGCOPY\n\xFF\r\n\0`.
pub open spec fn signature() -> Seq<u8> {
    seq![0x50u8, 0x47, 0x43, 0x4F, 0x50, 0x59, 0x0A, 0xFF, 0x0D, 0x0A, 0x00]
}

/// The signature, the 32-bit flags field and the 32-bit header extension
/// length, both zero.
pub open spec fn header() -> Seq<u8> {
    signature() + seq![0u8, 0, 0, 0] + seq![0u8, 0, 0, 0]
}

/// `n` as two big-endian bytes.
pub open spec fn be16(n: nat) -> Seq<u8> {
    seq![(n / 256) as u8, (n % 256) as u8]
}

/// `n` as four big-endian bytes.
pub open spec fn be32(n: nat) -> Seq<u8> {
    seq![(n / 0x100_0000) as u8, ((n / 0x1_0000) % 256) as u8, ((n / 256) % 256) as u8, (n % 256) as u8]
}

/// The 32-bit value -1, which stands for a NULL field.
pub open spec fn null_marker() -> Seq<u8> {
    seq![0xFFu8, 0xFF, 0xFF, 0xFF]
}

/// The 16-bit value -1, which ends the stream.
pub open spec fn trailer() -> Seq<u8> {
    seq![0xFFu8, 0xFF]
}

/// One field: the NULL marker, or the payload's length and the payload.
pub open spec fn field_bytes(d: Option<Seq<u8>>) -> Seq<u8> {
    match d {
        None => null_marker(),
        Some(p) => be32(p.len()) + p,
    }
}

/// The fields of a row, one after another.
pub open spec fn fields_bytes(row: Seq<Option<Seq<u8>>>) -> Seq<u8>
    decreases row.len(),
{
    if row.len() == 0 {
        Seq::empty()
    } else {
        fields_bytes(row.drop_last()) + field_bytes(row.last())
    }
}

/// One record: the field count, then the fields.
pub open spec fn row_bytes(count: nat, row: Seq<Option<Seq<u8>>>) -> Seq<u8> {
    be16(count) + fields_bytes(row)
}

/// The payloads of a row as the library sees them.
pub open spec fn row_view(row: Seq<Option<Vec<u8>>>) -> Seq<Option<Seq<u8>>> {
    row.map_values(
        |d: Option<Vec<u8>>|
            match d {
                Some(p) => Some(p@),
                None => None,
            },
    )
}

/// A row whose length differs from the schema's arity.
#[derive(Debug, Clone, Copy, PartialEq, Eq, Structural)]
pub struct ArityError {
    /// The schema's arity.
    pub expected: usize,
    /// The row's length.
    pub found: usize,
}

/// An encoder of rows into the binary `COPY` format.
///
/// Each field of a row is handed over already in its type's binary
/// encoding, or as `None` for NULL.
pub struct CopyToBinary {
    field_count: i16,
    out_buf: Vec<u8>,
    flushed: Ghost<Seq<u8>>,
}

fn push_be16(buf: &mut Vec<u8>, n: u16)
    ensures
        final(buf)@ == old(buf)@ + be16(n as nat),
{
    buf.push((n / 256) as u8);
    buf.push((n % 256) as u8);
    assert(buf@ =~= old(buf)@ + be16(n as nat));
}

fn push_be32(buf: &mut Vec<u8>, n: u32)
    ensures
        final(buf)@ == old(buf)@ + be32(n as nat),
{
    buf.push((n / 0x100_0000) as u8);
    buf.push(((n / 0x1_0000) % 256) as u8);
    buf.push(((n / 256) % 256) as u8);
    buf.push((n % 256) as u8);
    assert(buf@ =~= old(buf)@ + be32(n as nat));
}

impl CopyToBinary {
    /// The number of columns of the schema.
    pub closed spec fn arity(&self) -> nat {
        self.field_count as nat
    }

    /// The bytes encoded and not yet handed out by [`CopyToBinary::flush`].
    pub closed spec fn pending(&self) -> Seq<u8> {
        self.out_buf@
    }

    /// Every byte of the stream so far: those handed out, then the pending
    /// ones.
    pub closed spec fn stream(&self) -> Seq<u8> {
        self.flushed@ + self.out_buf@
    }

    /// The encoder's invariant: at most 32767 columns, and a stream that
    /// begins with the header.
    pub closed spec fn wf(&self) -> bool {
        &&& 0 <= self.field_count
        &&& self.stream().len() >= header().len()
        &&& self.stream().subrange(0, header().len() as int) == header()
    }

    /// Creates an encoder for a schema of `arity` columns, with the header
    /// already written. Fails if the field count does not fit the format's
    /// 16-bit slot.
    pub fn new(arity: usize) -> (r: Result<CopyToBinary, RangeError>)
        ensures
            arity <= i16::MAX ==> r is Ok && r->Ok_0.wf() && r->Ok_0.arity() == arity && r->Ok_0.pending()
                == header() && r->Ok_0.stream() == header(),
            arity > i16::MAX ==> r is Err && r->Err_0.context == "field count" && r->Err_0.width
                == cast::IntWidth::I16,
    {
        let field_count = match cast::i16_from_unsigned("field count", arity as u128) {
            Ok(n) => n,
            Err(e) => return Err(e),
        };
        let mut out_buf: Vec<u8> = Vec::new();
        // 11-byte signature.
        out_buf.push(0x50);
        out_buf.push(0x47);
        out_buf.push(0x43);
        out_buf.push(0x4F);
        out_buf.push(0x50);
        out_buf.push(0x59);
        out_buf.push(0x0A);
        out_buf.push(0xFF);
        out_buf.push(0x0D);
        out_buf.push(0x0A);
        out_buf.push(0x00);
        // 32-bit flags field.
        push_be32(&mut out_buf, 0);
        // 32-bit header extension length field.
        push_be32(&mut out_buf, 0);
        let enc = CopyToBinary { field_count, out_buf, flushed: Ghost(Seq::empty()) };
        assert(enc.out_buf@ =~= header());
        assert(enc.stream() =~= header());
        assert(enc.stream().subrange(0, header().len() as int) =~= header());
        Ok(enc)
    }

    /// Appends one record: the field count, then for each field either the
    /// NULL marker or the payload's length and the payload. Fails, writing
    /// nothing, if the row's length is not the schema's arity.
    pub fn encode_row(&mut self, row: &[Option<Vec<u8>>]) -> (r: Result<(), ArityError>)
        requires
            old(self).wf(),
            forall|i: int|
                0 <= i < row@.len() && (#[trigger] row@[i]) is Some ==> row@[i]->Some_0@.len()
                    <= i32::MAX,
        ensures
            final(self).wf(),
            final(self).arity() == old(self).arity(),
            row@.len() == old(self).arity() ==> r is Ok && final(self).pending() == old(self).pending()
                + row_bytes(old(self).arity(), row_view(row@)) && final(self).stream() == old(self).stream()
                + row_bytes(old(self).arity(), row_view(row@)),
            row@.len() != old(self).arity() ==> r == Err::<(), ArityError>(
                ArityError { expected: old(self).arity() as usize, found: row@.len() as usize },
            ) && final(self).pending() == old(self).pending() && final(self).stream() == old(
                self,
            ).stream(),
    {
        let n = self.field_count as usize;
        if row.len() != n {
            return Err(ArityError { expected: n, found: row.len() });
        }
        let ghost old_stream = self.stream();
        let ghost old_pending = self.out_buf@;
        push_be16(&mut self.out_buf, self.field_count as u16);
        let mut i: usize = 0;
        while i < row.len()
            invariant
                i <= row@.len(),
                self.field_count == old(self).field_count,
                self.flushed == old(self).flushed,
                forall|k: int|
                    0 <= k < row@.len() && (#[trigger] row@[k]) is Some ==> row@[k]->Some_0@.len()
                        <= i32::MAX,
                self.out_buf@ == old_pending + be16(n as nat) + fields_bytes(
                    row_view(row@.subrange(0, i as int)),
                ),
            decreases row@.len() - i,
        {
            let ghost before = self.out_buf@;
            match &row[i] {
                None => {
                    self.out_buf.push(0xFF);
                    self.out_buf.push(0xFF);
                    self.out_buf.push(0xFF);
                    self.out_buf.push(0xFF);
                    assert(self.out_buf@ =~= before + null_marker());
                },
                Some(payload) => {
                    push_be32(&mut self.out_buf, payload.len() as u32);
                    let mut k: usize = 0;
                    while k < payload.len()
                        invariant
                            k <= payload@.len(),
                            self.field_count == old(self).field_count,
                            self.flushed == old(self).flushed,
                            self.out_buf@ == before + be32(payload@.len()) + payload@.subrange(0, k as int),
                        decreases payload@.len() - k,
                    {
                        self.out_buf.push(payload[k]);
                        k = k + 1;
                        assert(self.out_buf@ =~= before + be32(payload@.len()) + payload@.subrange(0, k as int));
                    }
                    assert(payload@.subrange(0, payload@.len() as int) =~= payload@);
                },
            }
            proof {
                let pre = row_view(row@.subrange(0, i as int));
                let post = row_view(row@.subrange(0, i + 1));
                assert(post.drop_last() =~= pre);
                assert(post.last() == row_view(row@)[i as int]);
            }
            i = i + 1;
        }
        assert(row@.subrange(0, row@.len() as int) =~= row@);
        assert(self.out_buf@ =~= old_pending + row_bytes(n as nat, row_view(row@)));
        assert(self.stream() =~= old_stream + row_bytes(n as nat, row_view(row@)));
        proof {
            assert(self.stream().subrange(0, header().len() as int) =~= old_stream.subrange(
                0,
                header().len() as int,
            ));
        }
        Ok(())
    }

    /// Returns the bytes encoded so far and clears them, without changing
    /// the stream.
    pub fn flush(&mut self) -> (r: Vec<u8>)
        requires
            old(self).wf(),
        ensures
            final(self).wf(),
            r@ == old(self).pending(),
            final(self).pending() == Seq::<u8>::empty(),
            final(self).stream() == old(self).stream(),
            final(self).arity() == old(self).arity(),
    {
        let out = self.out_buf.split_off(0);
        self.flushed = Ghost(self.flushed@ + out@);
        assert(self.stream() =~= old(self).stream());
        out
    }

    /// Appends the trailer and returns the remaining bytes, ending the
    /// stream.
    pub fn finish(self) -> (r: Vec<u8>)
        requires
            self.wf(),
        ensures
            r@ == self.pending() + trailer(),
    {
        let mut out = self.out_buf;
        out.push(0xFF);
        out.push(0xFF);
        assert(out@ =~= self.pending() + trailer());
        out
    }
}

/// The stream of every encoder begins with the 11-byte signature.
pub proof fn law_signature_first(enc: &CopyToBinary)
    requires
        enc.wf(),
    ensures
        enc.stream().subrange(0, 11) == signature(),
{
    assert(enc.stream().subrange(0, 11) =~= enc.stream().subrange(0, header().len() as int).subrange(0, 11));
    assert(header().subrange(0, 11) =~= signature());
}

/// A NULL field is exactly the four bytes of -1, with no payload.
pub proof fn law_null_field()
    ensures
        field_bytes(None) == seq![0xFFu8, 0xFF, 0xFF, 0xFF],
{
}


proof fn lemma_fields_concat(a: Seq<Option<Seq<u8>>>, b: Seq<Option<Seq<u8>>>)
    ensures
        fields_bytes(a + b) == fields_bytes(a) + fields_bytes(b),
    decreases b.len(),
{
    if b.len() == 0 {
        assert(a + b =~= a);
        assert(fields_bytes(a) + Seq::<u8>::empty() =~= fields_bytes(a));
    } else {
        lemma_fields_concat(a, b.drop_last());
        assert((a + b).drop_last() =~= a + b.drop_last());
        assert((a + b).last() == b.last());
        assert(fields_bytes(a + b) =~= fields_bytes(a) + fields_bytes(b));
    }
}

/// In a record, a NULL field is exactly the four bytes of -1: the fields
/// before it, those four bytes, then the fields after it, with no length or
/// payload of its own.
pub proof fn law_null_field_in_row(count: nat, row: Seq<Option<Seq<u8>>>, k: int)
    requires
        0 <= k < row.len(),
        row[k] is None,
    ensures
        row_bytes(count, row) == be16(count) + fields_bytes(row.subrange(0, k)) + seq![0xFFu8, 0xFF, 0xFF, 0xFF]
            + fields_bytes(row.subrange(k + 1, row.len() as int)),
{
    let pre = row.subrange(0, k);
    let post = row.subrange(k + 1, row.len() as int);
    assert(row =~= pre + seq![row[k]] + post);
    lemma_fields_concat(pre + seq![row[k]], post);
    lemma_fields_concat(pre, seq![row[k]]);
    let one = seq![row[k]];
    assert(one.drop_last() =~= Seq::<Option<Seq<u8>>>::empty());
    assert(fields_bytes(Seq::<Option<Seq<u8>>>::empty()) == Seq::<u8>::empty());
    assert(one.last() == row[k]);
    assert(field_bytes(one.last()) == null_marker());
    assert(fields_bytes(one) == fields_bytes(one.drop_last()) + field_bytes(one.last()));
    assert(fields_bytes(one) =~= null_marker());
}

/// An encoder that has handed nothing out by [`CopyToBinary::flush`]
/// finishes with bytes that begin with the 11-byte signature.
pub proof fn law_finish_signature_first(enc: &CopyToBinary)
    requires
        enc.wf(),
        enc.pending() == enc.stream(),
    ensures
        (enc.pending() + trailer()).subrange(0, 11) == signature(),
{
    law_signature_first(enc);
    assert((enc.pending() + trailer()).subrange(0, 11) =~= enc.stream().subrange(0, 11));
}

} // verus!
