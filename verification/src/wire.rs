//! The mathematical model of the wire format: the value model, the grammar of
//! an encoded value, and the meaning of decoding a byte buffer.

use vstd::prelude::*;

verus! {

/// The abstract form of a protocol value: what a decoded or encodable value
/// means, independent of its executable representation.
pub enum RespData {
    SimpStr(Seq<u8>),
    Error(Seq<u8>),
    Int(int),
    BulkStr(Seq<u8>),
    Arr(Seq<RespData>),
}

/// Why a byte buffer failed to decode.
#[derive(Debug, Clone, Copy, PartialEq, Eq, Structural)]
pub enum DecodeError {
    /// The input ended while a tag byte was still expected; a transport may
    /// wait for more bytes and retry.
    Incomplete,
    /// No terminator was found though more structure was expected.
    UnterminatedLine,
    /// A declared length exceeds the available bytes, or the terminator after
    /// a fixed-length payload is missing or mismatched.
    Truncated,
    /// A length, count or integer field is non-numeric or out of range.
    InvalidInteger,
    /// The leading tag byte selects no known value kind.
    UnknownType,
}

/// Why a value was refused by the encoder.
#[derive(Debug, Clone, Copy, PartialEq, Eq, Structural)]
pub enum EncodeError {
    /// A text field contains an embedded terminator, which would corrupt the
    /// framing if emitted.
    InvalidContent,
}

/// The two-byte line terminator, carriage return then line feed.
pub open spec fn crlf() -> Seq<u8> {
    seq![13u8, 10u8]
}

/// The terminator stands at position `i` of `s`.
pub open spec fn crlf_at(s: Seq<u8>, i: int) -> bool {
    0 <= i && i + 2 <= s.len() && s[i] == 13u8 && s[i + 1] == 10u8
}

/// `s` contains the terminator somewhere.
pub open spec fn has_crlf(s: Seq<u8>) -> bool {
    exists|i: int| crlf_at(s, i)
}

/// The position of the first terminator at or after `pos`, if any.
pub open spec fn find_crlf(s: Seq<u8>, pos: int) -> Option<int>
    decreases s.len() - pos,
{
    if pos + 2 <= s.len() {
        if s[pos] == 13u8 && s[pos + 1] == 10u8 {
            Some(pos)
        } else {
            find_crlf(s, pos + 1)
        }
    } else {
        None
    }
}

/// `b` is an ASCII decimal digit.
pub open spec fn is_digit(b: u8) -> bool {
    48u8 <= b <= 57u8
}

/// Every byte of `s` is an ASCII decimal digit.
pub open spec fn all_digits(s: Seq<u8>) -> bool {
    forall|i: int| 0 <= i < s.len() ==> is_digit(#[trigger] s[i])
}

/// The number denoted by a sequence of decimal digits, most significant first.
pub open spec fn digits_val(s: Seq<u8>) -> int
    decreases s.len(),
{
    if s.len() == 0 {
        0
    } else {
        digits_val(s.drop_last()) * 10 + (s.last() - 48u8)
    }
}

/// The canonical decimal digits of a non-negative number: no leading zeros
/// except for the single digit of zero itself.
pub open spec fn dec_nat(n: int) -> Seq<u8>
    recommends
        n >= 0,
    decreases n,
{
    if n < 10 {
        seq![(n + 48u8) as u8]
    } else {
        dec_nat(n / 10).push((n % 10 + 48u8) as u8)
    }
}

/// The canonical decimal form of a signed number: an optional leading minus
/// sign, then the digits of its magnitude.
pub open spec fn dec_int(n: int) -> Seq<u8> {
    if n < 0 {
        seq![45u8] + dec_nat(-n)
    } else {
        dec_nat(n)
    }
}

/// The meaning of a length or count header line: a non-empty, all-digit field
/// whose value fits in `usize`; anything else is rejected.
pub open spec fn parse_len(s: Seq<u8>) -> Option<int> {
    if s.len() >= 1 && all_digits(s) && digits_val(s) <= usize::MAX {
        Some(digits_val(s))
    } else {
        None
    }
}

/// The meaning of a signed integer line: an optional leading minus sign, then
/// one or more digits, with the value confined to the signed 64-bit range;
/// anything else is rejected.
pub open spec fn parse_int(s: Seq<u8>) -> Option<int> {
    if s.len() >= 1 && s[0] == 45u8 {
        let d = s.subrange(1, s.len() as int);
        if d.len() >= 1 && all_digits(d) && -digits_val(d) >= i64::MIN {
            Some(-digits_val(d))
        } else {
            None
        }
    } else if s.len() >= 1 && all_digits(s) && digits_val(s) <= i64::MAX {
        Some(digits_val(s))
    } else {
        None
    }
}

/// No text field anywhere in `d` contains the terminator sequence; exactly
/// the values the encoder accepts.
pub open spec fn texts_ok(d: RespData) -> bool
    decreases d, 0int,
{
    match d {
        RespData::SimpStr(s) => !has_crlf(s),
        RespData::Error(s) => !has_crlf(s),
        RespData::Int(_) => true,
        RespData::BulkStr(_) => true,
        RespData::Arr(es) => texts_ok_list(es, 0),
    }
}

/// `texts_ok` of every element of `es` from index `i` on.
pub open spec fn texts_ok_list(es: Seq<RespData>, i: int) -> bool
    decreases es, es.len() - i,
{
    if i < 0 || i >= es.len() {
        true
    } else {
        texts_ok(es[i]) && texts_ok_list(es, i + 1)
    }
}

/// Every number in `d` fits its machine representation: integers in the
/// signed 64-bit range, payload lengths and element counts in `usize`.
/// The abstraction of any executable value satisfies this by construction.
pub open spec fn bounded(d: RespData) -> bool
    decreases d, 0int,
{
    match d {
        RespData::SimpStr(_) => true,
        RespData::Error(_) => true,
        RespData::Int(n) => i64::MIN <= n <= i64::MAX,
        RespData::BulkStr(b) => b.len() <= usize::MAX,
        RespData::Arr(es) => es.len() <= usize::MAX && bounded_list(es, 0),
    }
}

/// `bounded` of every element of `es` from index `i` on.
pub open spec fn bounded_list(es: Seq<RespData>, i: int) -> bool
    decreases es, es.len() - i,
{
    if i < 0 || i >= es.len() {
        true
    } else {
        bounded(es[i]) && bounded_list(es, i + 1)
    }
}

/// A value the encoder accepts and the decoder can reproduce.
pub open spec fn wf(d: RespData) -> bool {
    texts_ok(d) && bounded(d)
}

/// The exact byte form of a value on the wire: one tag byte, then the payload
/// framing of its kind. Total as a mathematical function; only `wf` values
/// round-trip.
pub open spec fn encoding(d: RespData) -> Seq<u8>
    decreases d, 0int,
{
    match d {
        RespData::SimpStr(s) => seq![43u8] + s + crlf(),
        RespData::Error(s) => seq![45u8] + s + crlf(),
        RespData::Int(n) => seq![58u8] + dec_int(n) + crlf(),
        RespData::BulkStr(b) => seq![36u8] + dec_nat(b.len() as int) + crlf() + b + crlf(),
        RespData::Arr(es) => seq![42u8] + dec_nat(es.len() as int) + crlf() + encoding_list(
            es,
            0,
        ),
    }
}

/// The concatenated encodings of the elements of `es` from index `i` on.
pub open spec fn encoding_list(es: Seq<RespData>, i: int) -> Seq<u8>
    decreases es, es.len() - i,
{
    if i < 0 || i >= es.len() {
        Seq::empty()
    } else {
        encoding(es[i]) + encoding_list(es, i + 1)
    }
}

/// Scanning finds exactly the first terminator: if one stands at `i` and none
/// stands before it, the scan from `pos` reports `i`.
pub proof fn lemma_find_crlf_found(s: Seq<u8>, pos: int, i: int)
    requires
        0 <= pos <= i,
        crlf_at(s, i),
        forall|j: int| pos <= j < i ==> !crlf_at(s, j),
    ensures
        find_crlf(s, pos) == Some(i),
    decreases i - pos,
{
    if pos < i {
        assert(!crlf_at(s, pos));
        lemma_find_crlf_found(s, pos + 1, i);
    }
}

/// If no terminator stands anywhere at or after `pos`, the scan reports none.
pub proof fn lemma_find_crlf_none(s: Seq<u8>, pos: int)
    requires
        0 <= pos,
        forall|j: int| pos <= j ==> !crlf_at(s, j),
    ensures
        find_crlf(s, pos) is None,
    decreases s.len() - pos,
{
    if pos + 2 <= s.len() {
        assert(!crlf_at(s, pos));
        lemma_find_crlf_none(s, pos + 1);
    }
}

/// What a scan result means: a found position carries the terminator and
/// nothing earlier does; a miss means no terminator at or after `pos`.
pub proof fn lemma_find_crlf_props(s: Seq<u8>, pos: int)
    requires
        0 <= pos,
    ensures
        match find_crlf(s, pos) {
            Some(i) => pos <= i && crlf_at(s, i) && forall|j: int| pos <= j < i ==> !crlf_at(s, j),
            None => forall|j: int| j >= pos ==> !crlf_at(s, j),
        },
    decreases s.len() - pos,
{
    if pos + 2 <= s.len() {
        if !(s[pos] == 13u8 && s[pos + 1] == 10u8) {
            lemma_find_crlf_props(s, pos + 1);
        }
    }
}

/// A digit string denotes a non-negative number.
pub proof fn lemma_digits_val_nonneg(s: Seq<u8>)
    requires
        all_digits(s),
    ensures
        digits_val(s) >= 0,
    decreases s.len(),
{
    if s.len() > 0 {
        assert(all_digits(s.drop_last())) by {
            assert(forall|i: int| 0 <= i < s.len() - 1 ==> s.drop_last()[i] == s[i]);
        }
        lemma_digits_val_nonneg(s.drop_last());
    }
}

/// Dropping trailing digits never increases the denoted number.
pub proof fn lemma_digits_val_prefix_le(s: Seq<u8>, i: int)
    requires
        all_digits(s),
        0 <= i <= s.len(),
    ensures
        0 <= digits_val(s.subrange(0, i)) <= digits_val(s),
    decreases s.len(),
{
    if i == s.len() {
        assert(s.subrange(0, i) =~= s);
        lemma_digits_val_nonneg(s);
    } else {
        let dl = s.drop_last();
        assert(all_digits(dl)) by {
            assert(forall|k: int| 0 <= k < s.len() - 1 ==> dl[k] == s[k]);
        }
        lemma_digits_val_nonneg(dl);
        lemma_digits_val_prefix_le(dl, i);
        assert(dl.subrange(0, i) =~= s.subrange(0, i));
    }
}

/// Appending one digit multiplies the denoted number by ten and adds it.
pub proof fn lemma_digits_val_push(s: Seq<u8>, b: u8)
    ensures
        digits_val(s.push(b)) == digits_val(s) * 10 + (b - 48),
{
    assert(s.push(b).drop_last() =~= s);
}

/// `texts_ok_list` from `i` is exactly `texts_ok` of every element from `i`.
pub proof fn lemma_texts_ok_list(es: Seq<RespData>, i: int)
    requires
        0 <= i <= es.len(),
    ensures
        texts_ok_list(es, i) <==> (forall|k: int|
            i <= k < es.len() ==> texts_ok(#[trigger] es[k])),
    decreases es.len() - i,
{
    if i < es.len() {
        lemma_texts_ok_list(es, i + 1);
    }
}

/// `bounded_list` from `i` is exactly `bounded` of every element from `i`.
pub proof fn lemma_bounded_list(es: Seq<RespData>, i: int)
    requires
        0 <= i <= es.len(),
    ensures
        bounded_list(es, i) <==> (forall|k: int| i <= k < es.len() ==> bounded(#[trigger] es[k])),
    decreases es.len() - i,
{
    if i < es.len() {
        lemma_bounded_list(es, i + 1);
    }
}

/// The meaning of decoding one value from `s` at position `pos`: either the
/// value together with the position just past it, or the specific error the
/// grammar assigns to the input.
pub open spec fn spec_decode(s: Seq<u8>, pos: int) -> Result<(RespData, int), DecodeError>
    decreases s.len() - pos, 0int,
{
    if pos < 0 || pos >= s.len() {
        Err(DecodeError::Incomplete)
    } else if s[pos] == 43u8 {  // tag '+'
        match find_crlf(s, pos + 1) {
            Some(i) => Ok((RespData::SimpStr(s.subrange(pos + 1, i)), i + 2)),
            None => Err(DecodeError::UnterminatedLine),
        }
    } else if s[pos] == 45u8 {  // tag '-'
        match find_crlf(s, pos + 1) {
            Some(i) => Ok((RespData::Error(s.subrange(pos + 1, i)), i + 2)),
            None => Err(DecodeError::UnterminatedLine),
        }
    } else if s[pos] == 58u8 {  // tag ':'
        match find_crlf(s, pos + 1) {
            Some(i) => match parse_int(s.subrange(pos + 1, i)) {
                Some(n) => Ok((RespData::Int(n), i + 2)),
                None => Err(DecodeError::InvalidInteger),
            },
            None => Err(DecodeError::UnterminatedLine),
        }
    } else if s[pos] == 36u8 {  // tag '$'
        match find_crlf(s, pos + 1) {
            Some(i) => match parse_len(s.subrange(pos + 1, i)) {
                Some(n) => if i + 2 + n + 2 <= s.len() && s[i + 2 + n] == 13u8 && s[i + 2 + n
                    + 1] == 10u8 {
                    Ok((RespData::BulkStr(s.subrange(i + 2, i + 2 + n)), i + 2 + n + 2))
                } else {
                    Err(DecodeError::Truncated)
                },
                None => Err(DecodeError::InvalidInteger),
            },
            None => Err(DecodeError::UnterminatedLine),
        }
    } else if s[pos] == 42u8 {  // tag '*'
        match find_crlf(s, pos + 1) {
            Some(i) => if pos + 1 <= i && i + 2 <= s.len() {
                match parse_len(s.subrange(pos + 1, i)) {
                    Some(n) => match spec_decode_list(s, i + 2, n) {
                        Ok((es, q)) => Ok((RespData::Arr(es), q)),
                        Err(e) => Err(e),
                    },
                    None => Err(DecodeError::InvalidInteger),
                }
            } else {
                Err(DecodeError::UnterminatedLine)
            },
            None => Err(DecodeError::UnterminatedLine),
        }
    } else {
        Err(DecodeError::UnknownType)
    }
}

/// The meaning of decoding `n` consecutive values from `s` at position `pos`:
/// the elements in parse order with the position past the last, or the first
/// element's error. Decoding a value always advances the position, so the
/// final branch is never reached; it only keeps the recursion well-founded.
pub open spec fn spec_decode_list(s: Seq<u8>, pos: int, n: int) -> Result<
    (Seq<RespData>, int),
    DecodeError,
>
    decreases s.len() - pos, n,
{
    if n <= 0 {
        Ok((Seq::empty(), pos))
    } else {
        match spec_decode(s, pos) {
            Ok((d, p)) => if pos < p <= s.len() {
                match spec_decode_list(s, p, n - 1) {
                    Ok((es, q)) => Ok((seq![d] + es, q)),
                    Err(e) => Err(e),
                }
            } else {
                Err(DecodeError::Truncated)
            },
            Err(e) => Err(e),
        }
    }
}

/// Decoding a value always consumes at least its tag byte: on success the
/// returned position lies strictly past `pos` and within the buffer.
pub proof fn lemma_decode_advances(s: Seq<u8>, pos: int)
    requires
        0 <= pos,
    ensures
        match spec_decode(s, pos) {
            Ok(dp) => pos < dp.1 <= s.len(),
            Err(_) => true,
        },
    decreases s.len() - pos, 0int,
{
    if 0 <= pos < s.len() {
        lemma_find_crlf_props(s, pos + 1);
        match find_crlf(s, pos + 1) {
            Some(i) => {
                if s[pos] == 36u8 {
                    match parse_len(s.subrange(pos + 1, i)) {
                        Some(n) => {
                            lemma_digits_val_nonneg(s.subrange(pos + 1, i));
                        },
                        None => {},
                    }
                } else if s[pos] == 42u8 {  // tag '*'
                    match parse_len(s.subrange(pos + 1, i)) {
                        Some(n) => {
                            lemma_decode_list_advances(s, i + 2, n);
                        },
                        None => {},
                    }
                }
            },
            None => {},
        }
    }
}

/// Decoding a run of values never moves the position backwards or past the
/// end of the buffer.
pub proof fn lemma_decode_list_advances(s: Seq<u8>, pos: int, n: int)
    requires
        0 <= pos <= s.len(),
    ensures
        match spec_decode_list(s, pos, n) {
            Ok(t) => pos <= t.1 <= s.len(),
            Err(_) => true,
        },
    decreases s.len() - pos, n,
{
    if n > 0 {
        lemma_decode_advances(s, pos);
        match spec_decode(s, pos) {
            Ok((d, p)) => {
                lemma_decode_list_advances(s, p, n - 1);
            },
            Err(_) => {},
        }
    }
}

} // verus!
