use vstd::prelude::*;

use crate::error::Error;
use crate::varint::{lemma_varint_decode_len, varint_at, varint_decode};
use crate::wire::{
    fields_view, Binary, Field, FieldView, ValueView, WireValue, WIRE_TYPE_32BITS,
    WIRE_TYPE_64BITS, WIRE_TYPE_LENGTH_DELIMITED, WIRE_TYPE_VARINT,
};

verus! {

/// The field at the start of `s` and the number of bytes it takes: a tag
/// varint, then a payload chosen by the tag's low three bits.
pub open spec fn decode_field(s: Seq<u8>) -> Result<(FieldView, nat), Error> {
    match varint_decode(s) {
        None => Err(Error::Varint),
        Some((x, n)) => {
            let number = x >> 3;
            let wt = (x & 7) as u8;
            let rest = s.skip(n as int);
            if wt == WIRE_TYPE_VARINT {
                match varint_decode(rest) {
                    None => Err(Error::Varint),
                    Some((y, m)) => Ok(
                        (
                            FieldView {
                                field_number: number,
                                wire_type: wt,
                                value: Some(ValueView::Varint(y)),
                            },
                            n + m,
                        ),
                    ),
                }
            } else if wt == WIRE_TYPE_64BITS {
                if rest.len() < 8 {
                    Err(Error::Truncated)
                } else {
                    Ok(
                        (
                            FieldView {
                                field_number: number,
                                wire_type: wt,
                                value: Some(ValueView::Fixed64(rest.take(8))),
                            },
                            n + 8,
                        ),
                    )
                }
            } else if wt == WIRE_TYPE_32BITS {
                if rest.len() < 4 {
                    Err(Error::Truncated)
                } else {
                    Ok(
                        (
                            FieldView {
                                field_number: number,
                                wire_type: wt,
                                value: Some(ValueView::Fixed32(rest.take(4))),
                            },
                            n + 4,
                        ),
                    )
                }
            } else if wt == WIRE_TYPE_LENGTH_DELIMITED {
                match varint_decode(rest) {
                    None => Err(Error::Varint),
                    Some((len, m)) => {
                        if len > rest.len() - m {
                            Err(Error::Truncated)
                        } else {
                            Ok(
                                (
                                    FieldView {
                                        field_number: number,
                                        wire_type: wt,
                                        value: Some(
                                            ValueView::LengthDelimited(
                                                rest.subrange(m as int, m + len),
                                            ),
                                        ),
                                    },
                                    (n + m + len) as nat,
                                ),
                            )
                        }
                    },
                }
            } else {
                Ok((FieldView { field_number: number, wire_type: wt, value: None }, n))
            }
        },
    }
}

/// All the fields of `s`, in the order they appear, or the first error met.
pub open spec fn decode_fields(s: Seq<u8>) -> Result<Seq<FieldView>, Error>
    decreases s.len(),
{
    if s.len() == 0 {
        Ok(seq![])
    } else {
        match decode_field(s) {
            Err(e) => Err(e),
            Ok((f, n)) => {
                // every decoded field takes between one byte and all of `s`
                // (lemma_decode_field_len), so the second branch is never taken
                if 0 < n <= s.len() {
                    prepend(seq![f], decode_fields(s.skip(n as int)))
                } else {
                    Err(Error::Varint)
                }
            },
        }
    }
}

/// `fs` followed by what `r` decoded, or `r`'s error.
pub open spec fn prepend(fs: Seq<FieldView>, r: Result<Seq<FieldView>, Error>) -> Result<
    Seq<FieldView>,
    Error,
> {
    match r {
        Ok(rest) => Ok(fs + rest),
        Err(e) => Err(e),
    }
}

/// A decoded field takes at least one byte and no more than its input holds.
pub proof fn lemma_decode_field_len(s: Seq<u8>)
    ensures
        decode_field(s) matches Ok((f, n)) ==> 0 < n <= s.len(),
{
    lemma_varint_decode_len(s);
    if let Some((x, n)) = varint_decode(s) {
        lemma_varint_decode_len(s.skip(n as int));
    }
}

/// The number of bytes that each field of `s` takes, in order, as far as `s` decodes.
pub open spec fn field_spans(s: Seq<u8>) -> Seq<nat>
    decreases s.len(),
{
    if s.len() == 0 {
        seq![]
    } else {
        match decode_field(s) {
            Ok((f, n)) => {
                if 0 < n <= s.len() {
                    seq![n] + field_spans(s.skip(n as int))
                } else {
                    seq![]
                }
            },
            Err(_) => seq![],
        }
    }
}

/// The sum of a sequence of counts.
pub open spec fn total(ns: Seq<nat>) -> nat
    decreases ns.len(),
{
    if ns.len() == 0 {
        0
    } else {
        ns[0] + total(ns.drop_first())
    }
}

proof fn lemma_total_prefix(ns: Seq<nat>, i: int)
    requires
        0 <= i <= ns.len(),
    ensures
        total(ns.take(i)) <= total(ns),
    decreases ns.len(),
{
    if i > 0 {
        assert(ns.take(i).drop_first() =~= ns.drop_first().take(i - 1));
        lemma_total_prefix(ns.drop_first(), i - 1);
    }
}

/// When `s` decodes, its fields lie back to back and cover it exactly: field
/// `i` is what decoding yields where the spans before it end, it takes span
/// `i`, and the spans add up to the length of `s`.
pub proof fn lemma_exact_consumption(s: Seq<u8>)
    requires
        decode_fields(s) is Ok,
    ensures
        field_spans(s).len() == decode_fields(s)->Ok_0.len(),
        total(field_spans(s)) == s.len(),
        forall|i: int|
            0 <= i < field_spans(s).len() ==> decode_field(
                s.skip(total(field_spans(s).take(i)) as int),
            ) == Ok::<_, Error>((decode_fields(s)->Ok_0[i], field_spans(s)[i])),
    decreases s.len(),
{
    if s.len() > 0 {
        lemma_decode_field_len(s);
        let (f, n) = decode_field(s)->Ok_0;
        let t = s.skip(n as int);
        lemma_exact_consumption(t);
        let sp = field_spans(s);
        let spt = field_spans(t);
        let fs = decode_fields(s)->Ok_0;
        let fst = decode_fields(t)->Ok_0;
        assert(sp == seq![n] + spt);
        assert(fs == seq![f] + fst);
        assert(sp.drop_first() =~= spt);
        assert forall|i: int| 0 <= i < sp.len() implies decode_field(
            s.skip(total(sp.take(i)) as int),
        ) == Ok::<_, Error>((fs[i], sp[i])) by {
            if i == 0 {
                assert(sp.take(0).len() == 0);
                assert(s.skip(0) =~= s);
            } else {
                assert(sp.take(i).drop_first() =~= spt.take(i - 1));
                let x = total(spt.take(i - 1));
                lemma_total_prefix(spt, i - 1);
                assert(s.skip((n + x) as int) =~= t.skip(x as int));
            }
        }
    } else {
        assert(field_spans(s).take(0).len() == 0);
    }
}

/// A length-delimited field whose declared length is more than the bytes that
/// remain after it fails the whole decode as truncated, however large the
/// declared length.
pub proof fn lemma_truncation_detected(s: Seq<u8>, tag: u64, n: nat, len: u64, m: nat)
    requires
        varint_decode(s) == Some((tag, n)),
        tag & 7 == 2,
        varint_decode(s.skip(n as int)) == Some((len, m)),
        len > s.len() - n - m,
    ensures
        decode_field(s) == Err::<(FieldView, nat), Error>(Error::Truncated),
        decode_fields(s) == Err::<Seq<FieldView>, Error>(Error::Truncated),
{
    lemma_varint_decode_len(s);
    assert((tag & 7) as u8 == 2u8);
}

/// Splits a tag varint into its field number and wire type.
pub fn split_tag(x: u64) -> (r: (u64, u8))
    ensures
        r.0 == x >> 3,
        r.1 == x & 7,
        r.0 == x / 8,
        r.1 == x % 8,
        r.0 * 8 + r.1 == x,
{
    assert(x >> 3 == x / 8 && x & 7 == x % 8 && x & 7 < 8) by (bit_vector);
    (x >> 3, (x & 7) as u8)
}

/// A copy of `buf[from..to]`.
fn copy_span(buf: &[u8], from: usize, to: usize) -> (r: Vec<u8>)
    requires
        from <= to <= buf@.len(),
    ensures
        r@ == buf@.subrange(from as int, to as int),
{
    let mut out: Vec<u8> = Vec::new();
    let mut j: usize = from;
    while j < to
        invariant
            from <= j <= to <= buf@.len(),
            out@ == buf@.subrange(from as int, j as int),
        decreases to - j,
    {
        out.push(buf[j]);
        assert(out@ =~= buf@.subrange(from as int, j + 1));
        j = j + 1;
    }
    out
}

/// Decodes the field that starts at `buf[i]`, reading no further than `buf[end - 1]`.
fn decode_field_at(buf: &[u8], i: usize, end: usize) -> (r: Result<(Field, usize), Error>)
    requires
        i <= end <= buf@.len(),
    ensures
        match r {
            Ok((f, n)) => decode_field(buf@.subrange(i as int, end as int)) == Ok::<_, Error>((f@, n as nat)),
            Err(e) => decode_field(buf@.subrange(i as int, end as int)) == Err::<(FieldView, nat), Error>(e),
        },
{
    let ghost s = buf@.subrange(i as int, end as int);
    let (x, n) = match varint_at(buf, i, end) {
        None => return Err(Error::Varint),
        Some(p) => p,
    };
    proof {
        lemma_varint_decode_len(s);
    }
    let (number, wt) = split_tag(x);
    assert(wt == (x & 7) as u8);
    let j = i + n;
    let ghost rest = s.skip(n as int);
    assert(rest =~= buf@.subrange(j as int, end as int));
    if wt == WIRE_TYPE_VARINT {
        match varint_at(buf, j, end) {
            None => Err(Error::Varint),
            Some((y, m)) => {
                proof {
                    lemma_varint_decode_len(rest);
                }
                let f = Field { field_number: number, wire_type: wt, value: Some(WireValue::Varint(y)) };
                Ok((f, n + m))
            },
        }
    } else if wt == WIRE_TYPE_64BITS {
        if end - j < 8 {
            return Err(Error::Truncated);
        }
        let b = Binary { bin: copy_span(buf, j, j + 8) };
        assert(b@ =~= rest.take(8));
        let f = Field { field_number: number, wire_type: wt, value: Some(WireValue::Fixed64(b)) };
        Ok((f, n + 8))
    } else if wt == WIRE_TYPE_32BITS {
        if end - j < 4 {
            return Err(Error::Truncated);
        }
        let b = Binary { bin: copy_span(buf, j, j + 4) };
        assert(b@ =~= rest.take(4));
        let f = Field { field_number: number, wire_type: wt, value: Some(WireValue::Fixed32(b)) };
        Ok((f, n + 4))
    } else if wt == WIRE_TYPE_LENGTH_DELIMITED {
        let (len, m) = match varint_at(buf, j, end) {
            None => return Err(Error::Varint),
            Some(p) => p,
        };
        proof {
            lemma_varint_decode_len(rest);
        }
        let k = j + m;
        if len > (end - k) as u64 {
            return Err(Error::Truncated);
        }
        let len = len as usize;
        let b = Binary { bin: copy_span(buf, k, k + len) };
        assert(b@ =~= rest.subrange(m as int, m + len));
        let f = Field {
            field_number: number,
            wire_type: wt,
            value: Some(WireValue::LengthDelimited(b)),
        };
        Ok((f, n + m + len))
    } else {
        Ok((Field { field_number: number, wire_type: wt, value: None }, n))
    }
}

/// Decodes every field of `buf[start..end]`, all or nothing.
fn decode_range(buf: &[u8], start: usize, end: usize) -> (r: Result<Vec<Field>, Error>)
    requires
        start <= end <= buf@.len(),
    ensures
        match r {
            Ok(fs) => decode_fields(buf@.subrange(start as int, end as int)) == Ok::<_, Error>(
                fields_view(fs@),
            ),
            Err(e) => decode_fields(buf@.subrange(start as int, end as int)) == Err::<Seq<FieldView>, Error>(e),
        },
{
    let mut out: Vec<Field> = Vec::new();
    let mut i: usize = start;
    assert(fields_view(out@) =~= seq![]);
    assert(buf@.subrange(start as int, end as int) == buf@.subrange(i as int, end as int));
    while i < end
        invariant
            start <= i <= end <= buf@.len(),
            decode_fields(buf@.subrange(start as int, end as int)) == prepend(
                fields_view(out@),
                decode_fields(buf@.subrange(i as int, end as int)),
            ),
        decreases end - i,
    {
        let ghost s = buf@.subrange(i as int, end as int);
        match decode_field_at(buf, i, end) {
            Err(e) => {
                return Err(e);
            },
            Ok((f, n)) => {
                proof {
                    lemma_decode_field_len(s);
                    assert(s.skip(n as int) =~= buf@.subrange(i + n, end as int));
                }
                let ghost before = fields_view(out@);
                let ghost fv = f@;
                out.push(f);
                proof {
                    assert(fields_view(out@) =~= before.push(fv));
                    match decode_fields(buf@.subrange(i + n, end as int)) {
                        Ok(rest) => {
                            assert(before + (seq![fv] + rest) =~= before.push(fv) + rest);
                        },
                        Err(_) => {},
                    }
                }
                i = i + n;
            },
        }
    }
    assert(buf@.subrange(i as int, end as int).len() == 0);
    assert(fields_view(out@) + seq![] =~= fields_view(out@));
    Ok(out)
}

/// Decodes a whole buffer into its fields, in the order they appear. On any
/// malformed or truncated input the whole call fails and nothing is returned.
pub fn unmarshal(buf: &[u8]) -> (r: Result<Vec<Field>, Error>)
    ensures
        match r {
            Ok(fs) => decode_fields(buf@) == Ok::<_, Error>(fields_view(fs@)),
            Err(e) => decode_fields(buf@) == Err::<Seq<FieldView>, Error>(e),
        },
{
    assert(buf@.subrange(0, buf@.len() as int) =~= buf@);
    decode_range(buf, 0, buf.len())
}

/// Decodes the varint at the start of `buf` as its value and length, or
/// `(0, 0)` when `buf` does not start with a valid varint.
pub fn decode_varint(buf: &[u8]) -> (r: (u64, usize))
    ensures
        match varint_decode(buf@) {
            Some((v, n)) => r == (v, n as usize) && n == r.1,
            None => r == (0u64, 0usize),
        },
{
    assert(buf@.subrange(0, buf@.len() as int) =~= buf@);
    match varint_at(buf, 0, buf.len()) {
        Some(p) => p,
        None => (0, 0),
    }
}

/// A cursor over `buf[..len]` whose read position `idx` only moves forward.
pub struct Buffer<'a> {
    pub buf: &'a [u8],
    pub idx: usize,
    pub len: usize,
}

impl<'a> Buffer<'a> {
    /// The read position lies within the readable part, which lies within `buf`.
    pub open spec fn wf(&self) -> bool {
        self.idx <= self.len <= self.buf@.len()
    }

    /// The bytes not read yet.
    pub open spec fn rest(&self) -> Seq<u8> {
        self.buf@.subrange(self.idx as int, self.len as int)
    }

    /// A cursor at the start of the whole of `buf`.
    pub fn new(buf: &'a [u8]) -> (r: Buffer<'a>)
        ensures
            r.buf == buf,
            r.idx == 0,
            r.len == buf@.len(),
            r.wf(),
            r.rest() == buf@,
    {
        let r = Buffer { buf, idx: 0, len: buf.len() };
        assert(r.rest() =~= buf@);
        r
    }

    /// Reads the varint at the read position and moves past it; on failure the
    /// cursor stays where it was.
    pub fn decode_varint(&mut self) -> (r: Result<u64, Error>)
        requires
            old(self).wf(),
        ensures
            final(self).buf == old(self).buf,
            final(self).len == old(self).len,
            final(self).wf(),
            match varint_decode(old(self).rest()) {
                Some((v, n)) => r == Ok::<u64, Error>(v) && final(self).idx == old(self).idx + n,
                None => r == Err::<u64, Error>(Error::Varint) && *final(self) == *old(self),
            },
    {
        match varint_at(self.buf, self.idx, self.len) {
            Some((v, n)) => {
                proof {
                    lemma_varint_decode_len(self.rest());
                }
                self.idx = self.idx + n;
                Ok(v)
            },
            None => Err(Error::Varint),
        }
    }

    /// Decodes every field from the read position to the end. On success the
    /// cursor ends at `len`; on failure it stays where it was and nothing is
    /// returned.
    pub fn unmarshal(&mut self) -> (r: Result<Vec<Field>, Error>)
        requires
            old(self).wf(),
        ensures
            final(self).buf == old(self).buf,
            final(self).len == old(self).len,
            final(self).wf(),
            match r {
                Ok(fs) => decode_fields(old(self).rest()) == Ok::<_, Error>(fields_view(fs@))
                    && final(self).idx == old(self).len,
                Err(e) => decode_fields(old(self).rest()) == Err::<Seq<FieldView>, Error>(e)
                    && *final(self) == *old(self),
            },
    {
        let r = decode_range(self.buf, self.idx, self.len);
        if r.is_ok() {
            self.idx = self.len;
        }
        r
    }
}

} // verus!
