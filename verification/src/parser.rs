//! The executable codec: the value representation, the cursor over a byte
//! buffer, and the decoder and encoder, each specified against the wire
//! model.

use vstd::prelude::*;
use vstd::slice::slice_to_vec;

use crate::wire::{
    all_digits, crlf, crlf_at, dec_int, dec_nat, digits_val, encoding, encoding_list, find_crlf,
    has_crlf, lemma_bounded_list, lemma_decode_advances, lemma_digits_val_prefix_le,
    lemma_digits_val_push, lemma_find_crlf_found, lemma_find_crlf_none, lemma_texts_ok_list,
    parse_int, parse_len, spec_decode, spec_decode_list, texts_ok, texts_ok_list, wf,
    DecodeError, EncodeError, RespData,
};

verus! {

/// A protocol value: the tagged union the decoder produces and the encoder
/// consumes. Text and payload fields are raw bytes; the codec is binary-safe.
#[derive(Debug, PartialEq)]
pub enum Resp {
    SimpStr(Vec<u8>),
    Error(Vec<u8>),
    Int(i64),
    BulkStr(Vec<u8>),
    Arr(Vec<Resp>),
}

impl Resp {
    /// The abstract value this representation stands for.
    pub open spec fn deep(&self) -> RespData
        decreases self, 0int,
    {
        match self {
            Resp::SimpStr(s) => RespData::SimpStr(s@),
            Resp::Error(s) => RespData::Error(s@),
            Resp::Int(n) => RespData::Int(*n as int),
            Resp::BulkStr(b) => RespData::BulkStr(b@),
            Resp::Arr(es) => RespData::Arr(deep_list(es@, 0)),
        }
    }
}

/// The abstract values of the elements of `s` from index `i` on.
pub open spec fn deep_list(s: Seq<Resp>, i: int) -> Seq<RespData>
    decreases s, s.len() - i,
{
    if i < 0 || i >= s.len() {
        Seq::empty()
    } else {
        seq![s[i].deep()] + deep_list(s, i + 1)
    }
}

/// `deep_list` maps each element to its abstract value, in order.
pub proof fn lemma_deep_list(s: Seq<Resp>, i: int)
    requires
        0 <= i <= s.len(),
    ensures
        deep_list(s, i).len() == s.len() - i,
        forall|k: int| 0 <= k < s.len() - i ==> deep_list(s, i)[k] == s[i + k].deep(),
    decreases s.len() - i,
{
    if i < s.len() {
        lemma_deep_list(s, i + 1);
    }
}

/// A read position over an immutable byte buffer, with the line-scanning and
/// fixed-length-read primitives of the wire format.
pub struct ParserCursor {
    input: Vec<u8>,
    pos: usize,
}

impl ParserCursor {
    /// The whole underlying buffer.
    pub closed spec fn bytes(&self) -> Seq<u8> {
        self.input@
    }

    /// The current read position.
    pub closed spec fn at(&self) -> int {
        self.pos as int
    }

    /// The position never passes the end of the buffer.
    pub closed spec fn inv(&self) -> bool {
        self.pos <= self.input.len()
    }

    /// A cursor over `input`, positioned at its start.
    pub fn new(input: &[u8]) -> (c: ParserCursor)
        ensures
            c.bytes() == input@,
            c.at() == 0,
            c.inv(),
    {
        ParserCursor { input: slice_to_vec(input), pos: 0 }
    }

    /// The byte at the current position, or nothing at the end of the buffer;
    /// the position does not move.
    pub fn peek(&self) -> (r: Option<u8>)
        ensures
            r == if self.at() < self.bytes().len() {
                Some(self.bytes()[self.at()])
            } else {
                None::<u8>
            },
    {
        if self.pos < self.input.len() {
            Some(self.input[self.pos])
        } else {
            None
        }
    }

    /// Moves the position forward by `n` bytes; the caller guarantees that
    /// `n` bytes remain.
    pub fn step(&mut self, n: usize)
        requires
            old(self).inv(),
            old(self).at() + n <= old(self).bytes().len(),
        ensures
            final(self).inv(),
            final(self).bytes() == old(self).bytes(),
            final(self).at() == old(self).at() + n,
    {
        self.pos = self.pos + n;
    }

    /// The bytes from the current position up to the first terminator, which
    /// is consumed as well; fails without moving if no terminator remains.
    pub fn next_line(&mut self) -> (r: Result<Vec<u8>, DecodeError>)
        requires
            old(self).inv(),
        ensures
            final(self).inv(),
            final(self).bytes() == old(self).bytes(),
            match r {
                Ok(line) => {
                    &&& find_crlf(old(self).bytes(), old(self).at()) == Some(
                        old(self).at() + line@.len(),
                    )
                    &&& line@ == old(self).bytes().subrange(
                        old(self).at(),
                        old(self).at() + line@.len(),
                    )
                    &&& final(self).at() == old(self).at() + line@.len() + 2
                },
                Err(e) => {
                    &&& e == DecodeError::UnterminatedLine
                    &&& find_crlf(old(self).bytes(), old(self).at()) is None
                    &&& final(self).at() == old(self).at()
                },
            },
    {
        let ghost s = self.input@;
        let ghost p0 = self.pos as int;
        let mut i: usize = self.pos;
        while self.input.len() - i >= 2 && !(self.input[i] == 13u8 && self.input[i + 1] == 10u8)
            invariant
                *self == *old(self),
                old(self).inv(),
                p0 == old(self).at(),
                s == old(self).bytes(),
                p0 <= i as int <= s.len(),
                forall|j: int| p0 <= j < i as int ==> !crlf_at(s, j),
            decreases s.len() - i,
        {
            i = i + 1;
        }
        if self.input.len() - i >= 2 {
            proof {
                lemma_find_crlf_found(s, p0, i as int);
            }
            let mut line: Vec<u8> = Vec::new();
            let mut j: usize = self.pos;
            while j < i
                invariant
                    *self == *old(self),
                    s == old(self).bytes(),
                    p0 == old(self).at(),
                    p0 <= j as int <= i as int,
                    i as int + 2 <= s.len(),
                    line@ == s.subrange(p0, j as int),
                decreases i - j,
            {
                line.push(self.input[j]);
                proof {
                    assert(s.subrange(p0, j as int + 1) =~= s.subrange(p0, j as int).push(
                        s[j as int],
                    ));
                }
                j = j + 1;
            }
            self.pos = i + 2;
            Ok(line)
        } else {
            proof {
                assert forall|j: int| p0 <= j implies !crlf_at(s, j) by {
                    if j >= i as int {
                        assert(j + 2 > s.len());
                    }
                }
                lemma_find_crlf_none(s, p0);
            }
            Err(DecodeError::UnterminatedLine)
        }
    }

    /// Exactly `len` bytes from the current position, which must be followed
    /// by the terminator; both are consumed. Fails without moving if fewer
    /// than `len + 2` bytes remain or the terminator is missing.
    pub fn consume_bytes(&mut self, len: usize) -> (r: Result<Vec<u8>, DecodeError>)
        requires
            old(self).inv(),
        ensures
            final(self).inv(),
            final(self).bytes() == old(self).bytes(),
            ({
                let s = old(self).bytes();
                let a = old(self).at();
                match r {
                    Ok(data) => {
                        &&& a + len + 2 <= s.len()
                        &&& s[a + len] == 13u8
                        &&& s[a + len + 1] == 10u8
                        &&& data@ == s.subrange(a, a + len)
                        &&& final(self).at() == a + len + 2
                    },
                    Err(e) => {
                        &&& e == DecodeError::Truncated
                        &&& !(a + len + 2 <= s.len() && s[a + len] == 13u8 && s[a + len + 1]
                            == 10u8)
                        &&& final(self).at() == a
                    },
                }
            }),
    {
        let ghost s = self.input@;
        let ghost p0 = self.pos as int;
        let remaining = self.input.len() - self.pos;
        if len > remaining || remaining - len < 2 {
            return Err(DecodeError::Truncated);
        }
        let end = self.pos + len;
        if self.input[end] != 13u8 || self.input[end + 1] != 10u8 {
            return Err(DecodeError::Truncated);
        }
        let mut data: Vec<u8> = Vec::new();
        let mut j: usize = self.pos;
        while j < end
            invariant
                *self == *old(self),
                s == old(self).bytes(),
                p0 == old(self).at(),
                p0 <= j as int <= end as int,
                end as int == p0 + len,
                end + 2 <= s.len(),
                data@ == s.subrange(p0, j as int),
            decreases end - j,
        {
            data.push(self.input[j]);
            proof {
                assert(s.subrange(p0, j as int + 1) =~= s.subrange(p0, j as int).push(s[j as int]));
            }
            j = j + 1;
        }
        self.pos = end + 2;
        Ok(data)
    }
}

/// Appends every byte of `src` to `out`, in order.
fn push_all(out: &mut Vec<u8>, src: &Vec<u8>)
    ensures
        final(out)@ == old(out)@ + src@,
{
    let mut j: usize = 0;
    while j < src.len()
        invariant
            j <= src@.len(),
            out@ == old(out)@ + src@.subrange(0, j as int),
        decreases src@.len() - j,
    {
        out.push(src[j]);
        proof {
            assert(src@.subrange(0, j as int + 1) =~= src@.subrange(0, j as int).push(
                src@[j as int],
            ));
        }
        j = j + 1;
    }
    proof {
        assert(src@.subrange(0, src@.len() as int) =~= src@);
    }
}

/// Whether `s` contains the terminator sequence anywhere.
fn contains_crlf(s: &Vec<u8>) -> (b: bool)
    ensures
        b == has_crlf(s@),
{
    let mut i: usize = 0;
    while s.len() - i >= 2 && !(s[i] == 13u8 && s[i + 1] == 10u8)
        invariant
            i <= s@.len(),
            forall|j: int| 0 <= j < i as int ==> !crlf_at(s@, j),
        decreases s@.len() - i,
    {
        i = i + 1;
    }
    if s.len() - i >= 2 {
        proof {
            assert(crlf_at(s@, i as int));
        }
        true
    } else {
        proof {
            assert forall|j: int| true implies !crlf_at(s@, j) by {
                if j >= i as int {
                    assert(j + 2 > s@.len());
                }
            }
        }
        false
    }
}

/// The canonical decimal digits of `n`, most significant first.
fn u64_digits(n: u64) -> (d: Vec<u8>)
    ensures
        d@ == dec_nat(n as int),
    decreases n,
{
    if n < 10 {
        let mut d: Vec<u8> = Vec::new();
        d.push(48u8 + n as u8);
        proof {
            assert(d@ =~= seq![(48 + n as int) as u8]);
        }
        d
    } else {
        let mut d = u64_digits(n / 10);
        d.push(48u8 + (n % 10) as u8);
        d
    }
}

/// The canonical decimal digits of a payload length or element count.
fn len_digits(n: usize) -> (d: Vec<u8>)
    ensures
        d@ == dec_nat(n as int),
{
    u64_digits(n as u64)
}

/// The canonical decimal form of `n`, with a leading minus sign if negative.
fn int_digits(n: i64) -> (d: Vec<u8>)
    ensures
        d@ == dec_int(n as int),
{
    if n >= 0 {
        u64_digits(n as u64)
    } else {
        let mag: u64 = if n == i64::MIN {
            9223372036854775808u64
        } else {
            (-n) as u64
        };
        proof {
            assert(mag as int == -(n as int));
        }
        let mut d: Vec<u8> = Vec::new();
        d.push(45u8);
        let m = u64_digits(mag);
        push_all(&mut d, &m);
        proof {
            assert(d@ =~= seq![45u8] + dec_nat(-(n as int)));
        }
        d
    }
}

/// Reads the digits of `line` from `start` on as a decimal number, refusing
/// an empty field, a non-digit byte, or a value above `limit`.
fn parse_digits_u64(line: &Vec<u8>, start: usize, limit: u64) -> (r: Option<u64>)
    requires
        start <= line@.len(),
    ensures
        ({
            let d = line@.subrange(start as int, line@.len() as int);
            match r {
                Some(v) => d.len() >= 1 && all_digits(d) && digits_val(d) == v && v <= limit,
                None => !(d.len() >= 1 && all_digits(d) && digits_val(d) <= limit),
            }
        }),
{
    let ghost d = line@.subrange(start as int, line@.len() as int);
    if start == line.len() {
        return None;
    }
    let mut acc: u64 = 0;
    let mut k: usize = start;
    while k < line.len()
        invariant
            start <= k <= line@.len(),
            start < line@.len(),
            d == line@.subrange(start as int, line@.len() as int),
            all_digits(line@.subrange(start as int, k as int)),
            acc == digits_val(line@.subrange(start as int, k as int)),
            acc <= limit,
        decreases line@.len() - k,
    {
        let ghost pk = line@.subrange(start as int, k as int);
        let b = line[k];
        if b < 48u8 || b > 57u8 {
            proof {
                assert(d[k as int - start as int] == line@[k as int]);
            }
            return None;
        }
        let dig = (b - 48u8) as u64;
        let ghost pk1 = line@.subrange(start as int, k as int + 1);
        proof {
            assert(pk1 =~= pk.push(line@[k as int]));
            lemma_digits_val_push(pk, line@[k as int]);
            assert(all_digits(pk1)) by {
                assert(forall|i: int|
                    0 <= i < pk.len() ==> #[trigger] pk1[i] == pk[i]);
                assert(pk1[pk.len() as int] == line@[k as int]);
            }
        }
        if acc > limit / 10 {
            proof {
                assert(limit == (limit / 10) * 10 + limit % 10);
                assert(acc * 10 >= (limit / 10) * 10 + 10);
                assert(digits_val(pk1) > limit);
                if all_digits(d) {
                    assert(pk1 =~= d.subrange(0, k as int + 1 - start as int));
                    lemma_digits_val_prefix_le(d, k as int + 1 - start as int);
                }
            }
            return None;
        }
        let acc10 = acc * 10;
        if dig > limit - acc10 {
            proof {
                assert(digits_val(pk1) > limit);
                if all_digits(d) {
                    assert(pk1 =~= d.subrange(0, k as int + 1 - start as int));
                    lemma_digits_val_prefix_le(d, k as int + 1 - start as int);
                }
            }
            return None;
        }
        acc = acc10 + dig;
        k = k + 1;
    }
    proof {
        assert(d =~= line@.subrange(start as int, k as int));
    }
    Some(acc)
}

/// Reads a whole line as a length or count header, exactly as the wire
/// model's `parse_len` does.
fn parse_len_bytes(line: &Vec<u8>) -> (r: Option<usize>)
    ensures
        match r {
            Some(n) => parse_len(line@) == Some(n as int),
            None => parse_len(line@) is None,
        },
{
    proof {
        assert(line@.subrange(0, line@.len() as int) =~= line@);
    }
    match parse_digits_u64(line, 0, usize::MAX as u64) {
        Some(v) => Some(v as usize),
        None => None,
    }
}

/// The decoder and encoder over complete byte buffers.
pub struct Parser;

impl Parser {
    /// Turns a value into its exact wire form, or refuses it if a text field
    /// contains the terminator sequence.
    pub fn serialize(resp_type: Resp) -> (r: Result<Vec<u8>, EncodeError>)
        ensures
            match r {
                Ok(out) => wf(resp_type.deep()) && out@ == encoding(resp_type.deep()),
                Err(e) => e == EncodeError::InvalidContent && !texts_ok(resp_type.deep()),
            },
    {
        Self::encode_value(&resp_type)
    }

    /// Decodes one value from the start of `data`, reporting the exact error
    /// the wire grammar assigns to any input it refuses. Bytes after the
    /// first complete value are ignored.
    pub fn deserialize(data: &[u8]) -> (r: Result<Resp, DecodeError>)
        ensures
            match (r, spec_decode(data@, 0)) {
                (Ok(v), Ok(dp)) => v.deep() == dp.0,
                (Err(e1), Err(e2)) => e1 == e2,
                _ => false,
            },
    {
        let mut cursor = ParserCursor::new(data);
        Self::parse_from_str(&mut cursor)
    }

    /// The recursive-descent reader behind `deserialize`: one value from the
    /// cursor's position, which on success ends up just past it.
    #[verifier::loop_isolation(false)]
    #[verifier::rlimit(50)]
    fn parse_from_str(cursor: &mut ParserCursor) -> (r: Result<Resp, DecodeError>)
        requires
            old(cursor).inv(),
        ensures
            final(cursor).inv(),
            final(cursor).bytes() == old(cursor).bytes(),
            match (r, spec_decode(old(cursor).bytes(), old(cursor).at())) {
                (Ok(v), Ok(dp)) => v.deep() == dp.0 && final(cursor).at() == dp.1,
                (Err(e1), Err(e2)) => e1 == e2,
                _ => false,
            },
        decreases cursor.bytes().len() - cursor.at(),
    {
        let ghost s = cursor.bytes();
        let ghost p0 = cursor.at();
        let tag = match cursor.peek() {
            Some(b) => b,
            None => {
                return Err(DecodeError::Incomplete);
            },
        };
        if tag == 43u8 {  // '+'
            cursor.step(1);
            match cursor.next_line() {
                Ok(line) => Ok(Resp::SimpStr(line)),
                Err(e) => Err(e),
            }
        } else if tag == 45u8 {  // '-'
            cursor.step(1);
            match cursor.next_line() {
                Ok(line) => Ok(Resp::Error(line)),
                Err(e) => Err(e),
            }
        } else if tag == 58u8 {  // ':'
            cursor.step(1);
            let line = match cursor.next_line() {
                Ok(l) => l,
                Err(e) => {
                    return Err(e);
                },
            };
            match parse_int_bytes(&line) {
                Some(n) => Ok(Resp::Int(n)),
                None => Err(DecodeError::InvalidInteger),
            }
        } else if tag == 36u8 {  // '$'
            cursor.step(1);
            let line = match cursor.next_line() {
                Ok(l) => l,
                Err(e) => {
                    return Err(e);
                },
            };
            let n = match parse_len_bytes(&line) {
                Some(n) => n,
                None => {
                    return Err(DecodeError::InvalidInteger);
                },
            };
            match cursor.consume_bytes(n) {
                Ok(data) => Ok(Resp::BulkStr(data)),
                Err(e) => Err(e),
            }
        } else if tag == 42u8 {  // '*'
            cursor.step(1);
            let line = match cursor.next_line() {
                Ok(l) => l,
                Err(e) => {
                    return Err(e);
                },
            };
            let n = match parse_len_bytes(&line) {
                Some(n) => n,
                None => {
                    return Err(DecodeError::InvalidInteger);
                },
            };
            let ghost hdr = cursor.at();
            let mut elems: Vec<Resp> = Vec::new();
            let mut k: usize = 0;
            while k < n
                invariant
                    cursor.inv(),
                    cursor.bytes() == s,
                    hdr <= cursor.at() <= s.len(),
                    k <= n,
                    elems@.len() == k,
                    spec_decode_list(s, hdr, n as int) == (match spec_decode_list(
                        s,
                        cursor.at(),
                        n as int - k as int,
                    ) {
                        Ok(t) => Ok::<(Seq<RespData>, int), DecodeError>(
                            (deep_list(elems@, 0) + t.0, t.1),
                        ),
                        Err(e) => Err(e),
                    }),
                decreases n - k,
            {
                let ghost a_prev = cursor.at();
                let ghost ev = elems@;
                match Self::parse_from_str(cursor) {
                    Ok(elem) => {
                        proof {
                            lemma_decode_advances(s, a_prev);
                        }
                        elems.push(elem);
                        proof {
                            lemma_deep_list(ev, 0);
                            lemma_deep_list(ev.push(elem), 0);
                            assert(deep_list(ev.push(elem), 0) =~= deep_list(ev, 0) + seq![
                                elem.deep(),
                            ]);
                            match spec_decode_list(s, cursor.at(), n as int - k as int - 1) {
                                Ok(t) => {
                                    assert((deep_list(ev, 0) + seq![elem.deep()]) + t.0
                                        =~= deep_list(ev, 0) + (seq![elem.deep()] + t.0));
                                },
                                Err(_) => {},
                            }
                        }
                        k = k + 1;
                    },
                    Err(e) => {
                        return Err(e);
                    },
                }
            }
            proof {
                assert(deep_list(elems@, 0) + Seq::<RespData>::empty() =~= deep_list(
                    elems@,
                    0,
                ));
            }
            Ok(Resp::Arr(elems))
        } else {
            Err(DecodeError::UnknownType)
        }
    }

    /// The recursive writer behind `serialize`.
    #[verifier::loop_isolation(false)]
    fn encode_value(v: &Resp) -> (r: Result<Vec<u8>, EncodeError>)
        ensures
            match r {
                Ok(out) => wf(v.deep()) && out@ == encoding(v.deep()),
                Err(e) => e == EncodeError::InvalidContent && !texts_ok(v.deep()),
            },
        decreases v,
    {
        match v {
            Resp::SimpStr(s) => {
                if contains_crlf(s) {
                    Err(EncodeError::InvalidContent)
                } else {
                    let mut out: Vec<u8> = Vec::new();
                    out.push(43u8);
                    push_all(&mut out, s);
                    out.push(13u8);
                    out.push(10u8);
                    proof {
                        assert(out@ =~= seq![43u8] + s@ + crlf());
                    }
                    Ok(out)
                }
            },
            Resp::Error(s) => {
                if contains_crlf(s) {
                    Err(EncodeError::InvalidContent)
                } else {
                    let mut out: Vec<u8> = Vec::new();
                    out.push(45u8);
                    push_all(&mut out, s);
                    out.push(13u8);
                    out.push(10u8);
                    proof {
                        assert(out@ =~= seq![45u8] + s@ + crlf());
                    }
                    Ok(out)
                }
            },
            Resp::Int(n) => {
                let mut out: Vec<u8> = Vec::new();
                out.push(58u8);
                let digits = int_digits(*n);
                push_all(&mut out, &digits);
                out.push(13u8);
                out.push(10u8);
                proof {
                    assert(out@ =~= seq![58u8] + dec_int(*n as int) + crlf());
                }
                Ok(out)
            },
            Resp::BulkStr(b) => {
                let mut out: Vec<u8> = Vec::new();
                out.push(36u8);
                let digits = len_digits(b.len());
                push_all(&mut out, &digits);
                out.push(13u8);
                out.push(10u8);
                push_all(&mut out, b);
                out.push(13u8);
                out.push(10u8);
                proof {
                    assert(out@ =~= seq![36u8] + dec_nat(b@.len() as int) + crlf() + b@
                        + crlf());
                }
                Ok(out)
            },
            Resp::Arr(es) => {
                let count = es.len();
                let ghost ds = deep_list(es@, 0);
                let ghost header = seq![42u8] + dec_nat(count as int) + crlf();
                let mut out: Vec<u8> = Vec::new();
                out.push(42u8);
                let digits = len_digits(count);
                push_all(&mut out, &digits);
                out.push(13u8);
                out.push(10u8);
                proof {
                    lemma_deep_list(es@, 0);
                    assert(out@ =~= header);
                    assert(out@ + encoding_list(ds, 0) == header + encoding_list(ds, 0));
                }
                let mut j: usize = 0;
                while j < count
                    invariant
                        count == es@.len(),
                        j <= count,
                        ds == deep_list(es@, 0),
                        ds.len() == count,
                        forall|k: int| 0 <= k < count ==> ds[k] == es@[k].deep(),
                        header == seq![42u8] + dec_nat(count as int) + crlf(),
                        out@ + encoding_list(ds, j as int) == header + encoding_list(ds, 0),
                        forall|k: int| 0 <= k < j ==> wf(#[trigger] ds[k]),
                    decreases count - j,
                {
                    proof {
                        assert(decreases_to!(*v => v->Arr_0));
                        assert(decreases_to!(v->Arr_0 => v->Arr_0@));
                        assert(decreases_to!(v->Arr_0@ => v->Arr_0@[j as int]));
                    }
                    match Self::encode_value(&es[j]) {
                        Ok(eb) => {
                            proof {
                                assert(encoding_list(ds, j as int) == encoding(ds[j as int])
                                    + encoding_list(ds, j as int + 1));
                                assert((out@ + eb@) + encoding_list(ds, j as int + 1) =~= out@
                                    + (eb@ + encoding_list(ds, j as int + 1)));
                            }
                            push_all(&mut out, &eb);
                        },
                        Err(e) => {
                            proof {
                                assert(ds[j as int] == es@[j as int].deep());
                                assert(!texts_ok(ds[j as int]));
                                lemma_texts_ok_list(ds, 0);
                                assert(!texts_ok_list(ds, 0));
                            }
                            return Err(e);
                        },
                    }
                    j = j + 1;
                }
                proof {
                    assert(encoding_list(ds, count as int) == Seq::<u8>::empty());
                    assert(out@ + Seq::<u8>::empty() =~= out@);
                    lemma_texts_ok_list(ds, 0);
                    lemma_bounded_list(ds, 0);
                }
                Ok(out)
            },
        }
    }
}

/// Reads a whole line as a signed integer, exactly as the wire model's
/// `parse_int` does.
fn parse_int_bytes(line: &Vec<u8>) -> (r: Option<i64>)
    ensures
        match r {
            Some(n) => parse_int(line@) == Some(n as int),
            None => parse_int(line@) is None,
        },
{
    if line.len() >= 1 && line[0] == 45u8 {
        match parse_digits_u64(line, 1, 9223372036854775808u64) {
            Some(v) => {
                if v == 9223372036854775808u64 {
                    Some(i64::MIN)
                } else {
                    Some(-(v as i64))
                }
            },
            None => None,
        }
    } else {
        proof {
            assert(line@.subrange(0, line@.len() as int) =~= line@);
        }
        match parse_digits_u64(line, 0, 9223372036854775807u64) {
            Some(v) => Some(v as i64),
            None => None,
        }
    }
}

} // verus!
