//! The laws of the codec: decoding inverts encoding, and the grammar assigns
//! each malformed input its specific error.

use vstd::prelude::*;

use crate::wire::{
    all_digits, crlf_at, dec_int, dec_nat, digits_val, encoding, encoding_list, find_crlf,
    has_crlf, is_digit, lemma_bounded_list, lemma_decode_advances, lemma_digits_val_push,
    lemma_find_crlf_found, lemma_find_crlf_props, lemma_texts_ok_list, parse_int, parse_len,
    spec_decode, spec_decode_list, wf, DecodeError, RespData,
};

verus! {

/// The canonical digits of a non-negative number denote exactly that number.
pub proof fn lemma_dec_nat_digits(n: int)
    requires
        n >= 0,
    ensures
        dec_nat(n).len() >= 1,
        all_digits(dec_nat(n)),
        digits_val(dec_nat(n)) == n,
    decreases n,
{
    if n < 10 {
        let d = dec_nat(n);
        assert(d.drop_last() =~= Seq::<u8>::empty());
        assert(digits_val(Seq::<u8>::empty()) == 0);
        assert(d.last() == (n + 48u8) as u8);
    } else {
        lemma_dec_nat_digits(n / 10);
        lemma_digits_val_push(dec_nat(n / 10), (n % 10 + 48u8) as u8);
        let prev = dec_nat(n / 10);
        let d = dec_nat(n);
        assert(all_digits(d)) by {
            assert forall|i: int| 0 <= i < d.len() implies is_digit(d[i]) by {
                if i < prev.len() {
                    assert(d[i] == prev[i]);
                } else {
                    assert(d[i] == (n % 10 + 48u8) as u8);
                }
            }
        }
    }
}

/// A length header produced by the encoder reads back as the same number.
pub proof fn lemma_parse_len_dec(n: int)
    requires
        0 <= n <= usize::MAX,
    ensures
        parse_len(dec_nat(n)) == Some(n),
{
    lemma_dec_nat_digits(n);
}

/// An integer line produced by the encoder reads back as the same number.
pub proof fn lemma_parse_int_dec(n: int)
    requires
        i64::MIN <= n <= i64::MAX,
    ensures
        parse_int(dec_int(n)) == Some(n),
{
    if n < 0 {
        lemma_dec_nat_digits(-n);
        let s = dec_int(n);
        assert(s.subrange(1, s.len() as int) =~= dec_nat(-n));
    } else {
        lemma_dec_nat_digits(n);
        assert(is_digit(dec_nat(n)[0]));
    }
}

/// No byte of an encoder-written number is a carriage return.
pub proof fn lemma_dec_int_no_cr(n: int)
    ensures
        forall|k: int| 0 <= k < dec_int(n).len() ==> #[trigger] dec_int(n)[k] != 13u8,
{
    if n < 0 {
        lemma_dec_nat_digits(-n);
        assert forall|k: int| 0 <= k < dec_int(n).len() implies #[trigger] dec_int(n)[k]
            != 13u8 by {
            if k >= 1 {
                assert(dec_int(n)[k] == dec_nat(-n)[k - 1]);
                assert(is_digit(dec_nat(-n)[k - 1]));
            }
        }
    } else {
        lemma_dec_nat_digits(n);
        assert forall|k: int| 0 <= k < dec_int(n).len() implies #[trigger] dec_int(n)[k]
            != 13u8 by {
            assert(is_digit(dec_nat(n)[k]));
        }
    }
}

/// A stretch without a carriage return cannot contain the terminator.
pub proof fn lemma_no_cr_no_crlf(t: Seq<u8>)
    requires
        forall|k: int| 0 <= k < t.len() ==> #[trigger] t[k] != 13u8,
    ensures
        !has_crlf(t),
{
    assert forall|i: int| true implies !crlf_at(t, i) by {
        if 0 <= i && i + 2 <= t.len() {
            assert(t[i] != 13u8);
        }
    }
}

/// If the bytes at `pos` are a terminator-free stretch of length `tl`
/// followed by the terminator, the scan from `pos` finds exactly its end.
pub proof fn lemma_find_crlf_after_text(s: Seq<u8>, pos: int, tl: int)
    requires
        0 <= pos,
        0 <= tl,
        pos + tl + 2 <= s.len(),
        forall|j: int| pos <= j < pos + tl - 1 ==> !(#[trigger] s[j] == 13u8 && s[j + 1] == 10u8),
        s[pos + tl] == 13u8,
        s[pos + tl + 1] == 10u8,
    ensures
        find_crlf(s, pos) == Some(pos + tl),
{
    assert forall|j: int| pos <= j < pos + tl implies !crlf_at(s, j) by {
        if j == pos + tl - 1 {
            assert(s[j + 1] == 13u8);
        }
    }
    lemma_find_crlf_found(s, pos, pos + tl);
}

/// A copy of a terminator-free line followed by the terminator is found
/// whole by the scan, and reads back as itself.
pub proof fn lemma_text_line(s: Seq<u8>, pos: int, t: Seq<u8>)
    requires
        0 <= pos,
        pos + t.len() + 2 <= s.len(),
        forall|k: int| 0 <= k < t.len() ==> s[pos + k] == #[trigger] t[k],
        s[pos + t.len()] == 13u8,
        s[pos + t.len() + 1] == 10u8,
        !has_crlf(t),
    ensures
        find_crlf(s, pos) == Some(pos + t.len()),
        s.subrange(pos, pos + t.len()) == t,
{
    let tl = t.len() as int;
    assert forall|j: int| pos <= j < pos + tl - 1 implies !(#[trigger] s[j] == 13u8 && s[j + 1]
        == 10u8) by {
        if s[j] == 13u8 && s[j + 1] == 10u8 {
            assert(s[pos + (j - pos)] == t[j - pos]);
            assert(s[pos + (j - pos + 1)] == t[j - pos + 1]);
            assert(crlf_at(t, j - pos));
        }
    }
    lemma_find_crlf_after_text(s, pos, tl);
    assert forall|k: int| 0 <= k < tl implies s.subrange(pos, pos + tl)[k] == t[k] by {
        assert(s[pos + k] == t[k]);
    }
    assert(s.subrange(pos, pos + tl) =~= t);
}

/// Wherever the encoding of a well-formed value stands in a buffer, decoding
/// from its first byte yields exactly that value and stops exactly past it.
pub proof fn lemma_decode_of_encoding(s: Seq<u8>, pos: int, d: RespData)
    requires
        wf(d),
        0 <= pos,
        pos + encoding(d).len() <= s.len(),
        s.subrange(pos, pos + encoding(d).len()) == encoding(d),
    ensures
        spec_decode(s, pos) == Ok::<(RespData, int), DecodeError>((d, pos + encoding(d).len())),
    decreases d, 0int,
{
    let e = encoding(d);
    let el = e.len() as int;
    assert forall|k: int| 0 <= k < el implies s[pos + k] == #[trigger] e[k] by {
        assert(e[k] == s.subrange(pos, pos + el)[k]);
    }
    match d {
        RespData::SimpStr(t) => {
            let tl = t.len() as int;
            assert(s[pos + 0] == e[0] && e[0] == 43u8);
            assert forall|k: int| 0 <= k < tl implies s[pos + 1 + k] == #[trigger] t[k] by {
                assert(s[pos + (1 + k)] == e[1 + k]);
                assert(e[1 + k] == t[k]);
            }
            assert(s[pos + (1 + tl)] == e[1 + tl] && e[1 + tl] == 13u8);
            assert(s[pos + (2 + tl)] == e[2 + tl] && e[2 + tl] == 10u8);
            lemma_text_line(s, pos + 1, t);
        },
        RespData::Error(t) => {
            let tl = t.len() as int;
            assert(s[pos + 0] == e[0] && e[0] == 45u8);
            assert forall|k: int| 0 <= k < tl implies s[pos + 1 + k] == #[trigger] t[k] by {
                assert(s[pos + (1 + k)] == e[1 + k]);
                assert(e[1 + k] == t[k]);
            }
            assert(s[pos + (1 + tl)] == e[1 + tl] && e[1 + tl] == 13u8);
            assert(s[pos + (2 + tl)] == e[2 + tl] && e[2 + tl] == 10u8);
            lemma_text_line(s, pos + 1, t);
        },
        RespData::Int(n) => {
            let dn = dec_int(n);
            let dl = dn.len() as int;
            lemma_parse_int_dec(n);
            lemma_dec_int_no_cr(n);
            lemma_no_cr_no_crlf(dn);
            assert(s[pos + 0] == e[0] && e[0] == 58u8);
            assert forall|k: int| 0 <= k < dl implies s[pos + 1 + k] == #[trigger] dn[k] by {
                assert(s[pos + (1 + k)] == e[1 + k]);
                assert(e[1 + k] == dn[k]);
            }
            assert(s[pos + (1 + dl)] == e[1 + dl] && e[1 + dl] == 13u8);
            assert(s[pos + (2 + dl)] == e[2 + dl] && e[2 + dl] == 10u8);
            lemma_text_line(s, pos + 1, dn);
        },
        RespData::BulkStr(b) => {
            let bl = b.len() as int;
            let h = dec_nat(bl);
            let hl = h.len() as int;
            lemma_dec_nat_digits(bl);
            lemma_parse_len_dec(bl);
            assert forall|k: int| 0 <= k < hl implies #[trigger] h[k] != 13u8 by {
                assert(is_digit(h[k]));
            }
            lemma_no_cr_no_crlf(h);
            assert(s[pos + 0] == e[0] && e[0] == 36u8);
            assert forall|k: int| 0 <= k < hl implies s[pos + 1 + k] == #[trigger] h[k] by {
                assert(s[pos + (1 + k)] == e[1 + k]);
                assert(e[1 + k] == h[k]);
            }
            assert(s[pos + (1 + hl)] == e[1 + hl] && e[1 + hl] == 13u8);
            assert(s[pos + (2 + hl)] == e[2 + hl] && e[2 + hl] == 10u8);
            lemma_text_line(s, pos + 1, h);
            let body = pos + 3 + hl;
            assert forall|k: int| 0 <= k < bl implies s.subrange(body, body + bl)[k] == b[k] by {
                assert(s[pos + (3 + hl + k)] == e[3 + hl + k]);
                assert(e[3 + hl + k] == b[k]);
            }
            assert(s.subrange(body, body + bl) =~= b);
            assert(s[pos + (3 + hl + bl)] == e[3 + hl + bl] && e[3 + hl + bl] == 13u8);
            assert(s[pos + (4 + hl + bl)] == e[4 + hl + bl] && e[4 + hl + bl] == 10u8);
        },
        RespData::Arr(es) => {
            let cnt = es.len() as int;
            let h = dec_nat(cnt);
            let hl = h.len() as int;
            lemma_dec_nat_digits(cnt);
            lemma_parse_len_dec(cnt);
            assert forall|k: int| 0 <= k < hl implies #[trigger] h[k] != 13u8 by {
                assert(is_digit(h[k]));
            }
            lemma_no_cr_no_crlf(h);
            assert(s[pos + 0] == e[0] && e[0] == 42u8);
            assert forall|k: int| 0 <= k < hl implies s[pos + 1 + k] == #[trigger] h[k] by {
                assert(s[pos + (1 + k)] == e[1 + k]);
                assert(e[1 + k] == h[k]);
            }
            assert(s[pos + (1 + hl)] == e[1 + hl] && e[1 + hl] == 13u8);
            assert(s[pos + (2 + hl)] == e[2 + hl] && e[2 + hl] == 10u8);
            lemma_text_line(s, pos + 1, h);
            lemma_texts_ok_list(es, 0);
            lemma_bounded_list(es, 0);
            let body = pos + 3 + hl;
            let tail = encoding_list(es, 0);
            let tll = tail.len() as int;
            assert forall|k: int| 0 <= k < tll implies s.subrange(body, body + tll)[k]
                == tail[k] by {
                assert(s[pos + (3 + hl + k)] == e[3 + hl + k]);
                assert(e[3 + hl + k] == tail[k]);
            }
            assert(s.subrange(body, body + tll) =~= tail);
            lemma_decode_list_of_encoding(s, body, es, 0);
            assert(es.subrange(0, cnt) =~= es);
        },
    }
}

/// Wherever the concatenated encodings of the elements of `es` from index `i`
/// stand in a buffer, decoding that many values yields exactly those elements.
pub proof fn lemma_decode_list_of_encoding(s: Seq<u8>, pos: int, es: Seq<RespData>, i: int)
    requires
        0 <= i <= es.len(),
        forall|k: int| 0 <= k < es.len() ==> wf(#[trigger] es[k]),
        0 <= pos,
        pos + encoding_list(es, i).len() <= s.len(),
        s.subrange(pos, pos + encoding_list(es, i).len()) == encoding_list(es, i),
    ensures
        spec_decode_list(s, pos, es.len() - i) == Ok::<(Seq<RespData>, int), DecodeError>(
            (es.subrange(i, es.len() as int), pos + encoding_list(es, i).len()),
        ),
    decreases es, es.len() - i,
{
    let w = encoding_list(es, i);
    let wl = w.len() as int;
    assert forall|k: int| 0 <= k < wl implies s[pos + k] == #[trigger] w[k] by {
        assert(w[k] == s.subrange(pos, pos + wl)[k]);
    }
    if i == es.len() {
        assert(es.subrange(i, es.len() as int) =~= Seq::<RespData>::empty());
    } else {
        let e0 = encoding(es[i]);
        let l0 = e0.len() as int;
        let rest = encoding_list(es, i + 1);
        let rl = rest.len() as int;
        assert(w == e0 + rest);
        assert forall|k: int| 0 <= k < l0 implies s.subrange(pos, pos + l0)[k] == e0[k] by {
            assert(s[pos + k] == w[k]);
            assert(w[k] == e0[k]);
        }
        assert(s.subrange(pos, pos + l0) =~= e0);
        lemma_decode_of_encoding(s, pos, es[i]);
        lemma_decode_advances(s, pos);
        assert forall|k: int| 0 <= k < rl implies s.subrange(pos + l0, pos + l0 + rl)[k]
            == rest[k] by {
            assert(s[pos + (l0 + k)] == w[l0 + k]);
            assert(w[l0 + k] == rest[k]);
        }
        assert(s.subrange(pos + l0, pos + l0 + rl) =~= rest);
        lemma_decode_list_of_encoding(s, pos + l0, es, i + 1);
        assert(seq![es[i]] + es.subrange(i + 1, es.len() as int) =~= es.subrange(
            i,
            es.len() as int,
        ));
    }
}

/// Round trip: the encoding of any value whose text fields are free of the
/// terminator sequence decodes back to exactly that value, consuming the
/// whole buffer.
pub proof fn lemma_round_trip(d: RespData)
    requires
        wf(d),
    ensures
        spec_decode(encoding(d), 0) == Ok::<(RespData, int), DecodeError>(
            (d, encoding(d).len() as int),
        ),
{
    assert(encoding(d).subrange(0, encoding(d).len() as int) =~= encoding(d));
    lemma_decode_of_encoding(encoding(d), 0, d);
}

/// Truncation is detected: a bulk payload whose declared length reaches past
/// the end of the buffer decodes to `Truncated`.
pub proof fn lemma_truncation_detected(s: Seq<u8>, pos: int, i: int)
    requires
        0 <= pos < s.len(),
        s[pos] == 36u8,
        find_crlf(s, pos + 1) == Some(i),
        parse_len(s.subrange(pos + 1, i)) is Some,
        i + 2 + parse_len(s.subrange(pos + 1, i))->0 + 2 > s.len(),
    ensures
        spec_decode(s, pos) == Err::<(RespData, int), DecodeError>(DecodeError::Truncated),
{
}

/// Tag exhaustiveness: any leading byte outside the five known tags decodes
/// to `UnknownType`.
pub proof fn lemma_unknown_tag(s: Seq<u8>, pos: int)
    requires
        0 <= pos < s.len(),
        s[pos] != 43u8,
        s[pos] != 45u8,
        s[pos] != 58u8,
        s[pos] != 36u8,
        s[pos] != 42u8,
    ensures
        spec_decode(s, pos) == Err::<(RespData, int), DecodeError>(DecodeError::UnknownType),
{
}

/// Numeric validation: a malformed integer line decodes to `InvalidInteger`.
pub proof fn lemma_invalid_integer(s: Seq<u8>, pos: int, i: int)
    requires
        0 <= pos < s.len(),
        s[pos] == 58u8,
        find_crlf(s, pos + 1) == Some(i),
        parse_int(s.subrange(pos + 1, i)) is None,
    ensures
        spec_decode(s, pos) == Err::<(RespData, int), DecodeError>(DecodeError::InvalidInteger),
{
}

/// Numeric validation: a malformed length or count header decodes to
/// `InvalidInteger`, for bulk strings and arrays alike.
pub proof fn lemma_invalid_header(s: Seq<u8>, pos: int, i: int)
    requires
        0 <= pos < s.len(),
        s[pos] == 36u8 || s[pos] == 42u8,
        find_crlf(s, pos + 1) == Some(i),
        parse_len(s.subrange(pos + 1, i)) is None,
    ensures
        spec_decode(s, pos) == Err::<(RespData, int), DecodeError>(DecodeError::InvalidInteger),
{
    lemma_find_crlf_props(s, pos + 1);
}

/// An array header declaring zero elements decodes to the empty array.
pub proof fn lemma_empty_array(s: Seq<u8>, pos: int)
    requires
        0 <= pos,
        pos + 4 <= s.len(),
        s[pos] == 42u8,
        s[pos + 1] == 48u8,
        s[pos + 2] == 13u8,
        s[pos + 3] == 10u8,
    ensures
        spec_decode(s, pos) == Ok::<(RespData, int), DecodeError>(
            (RespData::Arr(Seq::empty()), pos + 4),
        ),
{
    lemma_find_crlf_after_text(s, pos + 1, 1);
    let h = s.subrange(pos + 1, pos + 2);
    assert(h =~= seq![48u8]);
    assert(h.drop_last() =~= Seq::<u8>::empty());
    assert(digits_val(Seq::<u8>::empty()) == 0);
    assert(digits_val(h) == 0);
}

/// A bulk-string header declaring length zero decodes to the empty payload.
pub proof fn lemma_empty_bulk(s: Seq<u8>, pos: int)
    requires
        0 <= pos,
        pos + 6 <= s.len(),
        s[pos] == 36u8,
        s[pos + 1] == 48u8,
        s[pos + 2] == 13u8,
        s[pos + 3] == 10u8,
        s[pos + 4] == 13u8,
        s[pos + 5] == 10u8,
    ensures
        spec_decode(s, pos) == Ok::<(RespData, int), DecodeError>(
            (RespData::BulkStr(Seq::empty()), pos + 6),
        ),
{
    lemma_find_crlf_after_text(s, pos + 1, 1);
    let h = s.subrange(pos + 1, pos + 2);
    assert(h =~= seq![48u8]);
    assert(h.drop_last() =~= Seq::<u8>::empty());
    assert(digits_val(Seq::<u8>::empty()) == 0);
    assert(digits_val(h) == 0);
    assert(s.subrange(pos + 4, pos + 4) =~= Seq::<u8>::empty());
}

} // verus!

