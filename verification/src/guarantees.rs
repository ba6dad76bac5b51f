//! What reading PDF syntax gives, stated over all inputs of a given shape in
//! terms of their bytes: where a name ends, which object a token stands for,
//! which number follows `startxref`, and how a cross-reference subsection
//! files its entries.
use vstd::prelude::*;
use crate::error::SpecError;
use crate::lexer::spec::{lex_name, lex_next, lex_number, skip_trivia};
use crate::object::{SpecObject, SpecReal, SpecString};
use crate::parser::spec::{next_tok, parse_object, ParseState};
use crate::token::{Keyword, SpecToken};

verus! {

/// The sixteen bytes that end a name: the six white-space bytes and the ten
/// delimiters `( ) < > [ ] { } / %`.
pub open spec fn ends_name(t: u8) -> bool {
    ||| t == 0 || t == 9 || t == 10 || t == 12 || t == 13 || t == 32
    ||| t == 0x28 || t == 0x29 || t == 0x3c || t == 0x3e || t == 0x5b || t == 0x5d
    ||| t == 0x7b || t == 0x7d || t == 0x2f || t == 0x25
}

proof fn lemma_name_run(buf: Seq<u8>, r: int, q: int, acc: Seq<u8>)
    requires
        0 <= r <= q < buf.len(),
        forall|i: int| r <= i < q ==> !ends_name(#[trigger] buf[i]) && buf[i] != 0x23,
        ends_name(buf[q]),
    ensures
        lex_name(buf, r, acc) == (Ok::<Seq<u8>, SpecError>(acc + buf.subrange(r, q)), q),
    decreases q - r,
{
    if r < q {
        lemma_name_run(buf, r + 1, q, acc.push(buf[r]));
        assert(acc.push(buf[r]) + buf.subrange(r + 1, q) =~= acc + buf.subrange(r, q));
    } else {
        assert(acc + buf.subrange(r, q) =~= acc);
    }
}

/// A name ends at the first white-space byte or delimiter: `/`, then bytes
/// that are neither of those nor `#`, then one of the sixteen bytes that end
/// a name, is a name of exactly those bytes, and the lexer stops at the byte
/// that ended it. After a `[`, the next token is the start of an array.
pub proof fn law_names_end_at_delimiters(w: Seq<u8>, t: u8, rest: Seq<u8>)
    requires
        forall|i: int| 0 <= i < w.len() ==> !ends_name(#[trigger] w[i]) && w[i] != 0x23,
        ends_name(t),
    ensures
        lex_next(seq![0x2fu8] + w + seq![t] + rest, 0) == Some(
            (Some(Ok::<SpecToken, SpecError>(SpecToken::Name(w))), w.len() + 1int),
        ),
        t == 0x5b ==> lex_next(seq![0x2fu8] + w + seq![t] + rest, w.len() + 1int) == Some(
            (Some(Ok::<SpecToken, SpecError>(SpecToken::ArrayBegin)), w.len() + 2int),
        ),
{
    let buf = seq![0x2fu8] + w + seq![t] + rest;
    let q = w.len() + 1int;
    assert(buf[0] == 0x2f);
    assert(buf[q] == t);
    assert forall|i: int| 1 <= i < q implies !ends_name(#[trigger] buf[i]) && buf[i] != 0x23 by {
        assert(buf[i] == w[i - 1]);
    }
    lemma_name_run(buf, 1, q, seq![]);
    assert(seq![] + buf.subrange(1, q) =~= w);
    assert(skip_trivia(buf, 0, false) == 0);
    if t == 0x5b {
        assert(skip_trivia(buf, q, false) == q);
    }
}

/// A token that stands for an object by itself becomes that object, with the
/// same value: a real keeps its sign, integer part and fractional digits; a
/// boolean, a name or a string keeps its value; `null` gives the null object.
/// (An integer may start a reference, so it is not among them.)
pub proof fn law_tokens_become_objects(buf: Seq<u8>, s: ParseState)
    ensures
        next_tok(buf, s) matches Some((Some(Ok(SpecToken::Real(r))), s1)) ==> parse_object(buf, s) == Some(
            (Ok::<SpecObject, SpecError>(SpecObject::Real(r)), s1),
        ),
        next_tok(buf, s) matches Some((Some(Ok(SpecToken::Boolean(b))), s1)) ==> parse_object(buf, s) == Some(
            (Ok::<SpecObject, SpecError>(SpecObject::Boolean(b)), s1),
        ),
        next_tok(buf, s) matches Some((Some(Ok(SpecToken::Null)), s1)) ==> parse_object(buf, s) == Some(
            (Ok::<SpecObject, SpecError>(SpecObject::Null), s1),
        ),
        next_tok(buf, s) matches Some((Some(Ok(SpecToken::Name(n))), s1)) ==> parse_object(buf, s) == Some(
            (Ok::<SpecObject, SpecError>(SpecObject::Name(n)), s1),
        ),
        next_tok(buf, s) matches Some((Some(Ok(SpecToken::LiteralString(x))), s1)) ==> parse_object(buf, s)
            == Some((Ok::<SpecObject, SpecError>(SpecObject::String(SpecString::Literal(x))), s1)),
        next_tok(buf, s) matches Some((Some(Ok(SpecToken::HexString(x))), s1)) ==> parse_object(buf, s) == Some(
            (Ok::<SpecObject, SpecError>(SpecObject::String(SpecString::Hex(x))), s1),
        ),
{
}

/// A decimal digit byte, `0` to `9`.
pub open spec fn is_decimal(c: u8) -> bool {
    0x30 <= c <= 0x39
}

proof fn lemma_digits_to(buf: Seq<u8>, r: int, q: int)
    requires
        0 <= r <= q <= buf.len(),
        forall|i: int| r <= i < q ==> is_decimal(#[trigger] buf[i]),
        q == buf.len() || !is_decimal(buf[q]),
    ensures
        crate::lexer::spec::digit_end(buf, r) == q,
    decreases q - r,
{
    if r < q {
        lemma_digits_to(buf, r + 1, q);
    }
}

/// A real written as digits `d`, a point and digits `f` (either run may be
/// empty), followed by nothing or by a byte that is not a digit, is the real
/// with integer part the value of `d` and fractional digits those of `f`; it
/// is negative exactly when `-` comes before it, and `+` changes nothing. The
/// lexer stops where the rest begins.
pub proof fn law_real_literals(d: Seq<u8>, f: Seq<u8>, rest: Seq<u8>, sign: Seq<u8>)
    requires
        forall|i: int| 0 <= i < d.len() ==> is_decimal(#[trigger] d[i]),
        forall|i: int| 0 <= i < f.len() ==> is_decimal(#[trigger] f[i]),
        crate::lexer::spec::digits_value(d) <= i64::MAX,
        rest.len() == 0 || !is_decimal(rest[0]),
        sign == Seq::<u8>::empty() || sign == seq![0x2bu8] || sign == seq![0x2du8],
    ensures
        lex_number(sign + d + seq![0x2eu8] + f + rest, 0) == Some(
            (
                Ok::<SpecToken, SpecError>(
                    SpecToken::Real(
                        SpecReal {
                            negative: sign == seq![0x2du8],
                            int_part: crate::lexer::spec::digits_value(d) as i64,
                            frac_digits: f.map_values(|c: u8| (c - 0x30) as u8),
                        },
                    ),
                ),
                sign.len() + d.len() + 1int + f.len(),
            ),
        ),
{
    let buf = sign + d + seq![0x2eu8] + f + rest;
    let st = sign.len() as int;
    let e = st + d.len();
    let fe = e + 1 + f.len();
    assert forall|i: int| st <= i < e implies is_decimal(#[trigger] buf[i]) by {
        assert(buf[i] == d[i - st]);
    }
    assert(buf[e] == 0x2e);
    lemma_digits_to(buf, st, e);
    assert forall|i: int| e + 1 <= i < fe implies is_decimal(#[trigger] buf[i]) by {
        assert(buf[i] == f[i - e - 1]);
    }
    if fe < buf.len() {
        assert(buf[fe] == rest[0]);
    }
    lemma_digits_to(buf, e + 1, fe);
    assert(buf.subrange(st, e) =~= d);
    assert(buf.subrange(e + 1, fe) =~= f);
    assert(crate::lexer::spec::digit_values(buf.subrange(e + 1, fe)) =~= f.map_values(|c: u8| (c - 0x30) as u8));
    if sign.len() > 0 {
        assert(buf[0] == sign[0]);
    } else {
        assert(sign =~= Seq::<u8>::empty());
        if d.len() > 0 {
            assert(buf[0] == d[0]);
        } else {
            assert(buf[0] == 0x2e);
        }
    }
}

/// The bytes of the keyword `startxref`.
pub open spec fn startxref_bytes() -> Seq<u8> {
    seq![0x73u8, 0x74, 0x61, 0x72, 0x74, 0x78, 0x72, 0x65, 0x66]
}

proof fn lemma_label_at(t: Seq<u8>, i: int, k: int)
    requires
        0 <= i <= k,
        k + 9 <= t.len(),
        t.subrange(k, k + 9) == startxref_bytes(),
        forall|j: int| i <= j < k ==> #[trigger] t[j] != 0x73,
    ensures
        crate::reader::document::find_label(t, i) == Some(k),
    decreases k - i,
{
    if i < k {
        assert(t.subrange(i, i + 9)[0] == t[i]);
        lemma_label_at(t, i + 1, k);
    }
}

/// After `startxref` and an end of line (LF, or CR LF), the offset is the
/// value of the whole run of decimal digits that follows, when it fits in a
/// `usize`: for a tail of at most 100 bytes in which no `s` comes before
/// `startxref`.
pub proof fn law_startxref_reads_the_whole_number(pre: Seq<u8>, eol: Seq<u8>, d: Seq<u8>, rest: Seq<u8>)
    requires
        forall|i: int| 0 <= i < pre.len() ==> #[trigger] pre[i] != 0x73,
        eol == seq![10u8] || eol == seq![13u8, 10u8],
        d.len() > 0,
        forall|i: int| 0 <= i < d.len() ==> is_decimal(#[trigger] d[i]),
        crate::lexer::spec::digits_value(d) <= usize::MAX,
        rest.len() == 0 || !is_decimal(rest[0]),
        pre.len() + 9 + eol.len() + d.len() + rest.len() <= 100,
    ensures
        crate::reader::document::startxref_offset(pre + startxref_bytes() + eol + d + rest) == Ok::<
            usize,
            crate::reader::error::SpecDocError,
        >(crate::lexer::spec::digits_value(d) as usize),
{
    let t = pre + startxref_bytes() + eol + d + rest;
    let k = pre.len() as int;
    let j = k + 9;
    let p = j + eol.len();
    let e = p + d.len();
    assert(t.subrange(k, k + 9) =~= startxref_bytes());
    assert forall|m: int| 0 <= m < k implies #[trigger] t[m] != 0x73 by {
        assert(t[m] == pre[m]);
    }
    lemma_label_at(t, 0, k);
    assert(crate::reader::document::last_bytes(t) == t);
    assert(t[j] == eol[0]);
    if eol.len() == 2 {
        assert(t[j + 1] == eol[1]);
    }
    assert forall|m: int| p <= m < e implies is_decimal(#[trigger] t[m]) by {
        assert(t[m] == d[m - p]);
    }
    if e < t.len() {
        assert(t[e] == rest[0]);
    }
    lemma_digits_to(t, p, e);
    assert(t.subrange(p, e) =~= d);
}

/// The characters of a sequence of ASCII bytes.
spec fn chars_of(b: Seq<u8>) -> Seq<char> {
    b.map_values(|x: u8| x as char)
}

proof fn lemma_decimal_chars(b: Seq<u8>)
    requires
        forall|i: int| 0 <= i < b.len() ==> is_decimal(#[trigger] b[i]),
    ensures
        crate::reader::field::decimal_value(chars_of(b)) == crate::lexer::spec::digits_value(b),
    decreases b.len(),
{
    if b.len() > 0 {
        assert(chars_of(b).drop_last() =~= chars_of(b.drop_last()));
        lemma_decimal_chars(b.drop_last());
    }
}

/// A field of decimal digits, as UTF-8 text, trimmed and parsed as an
/// unsigned number, is the value of its digits.
proof fn lemma_field_of_digits(b: Seq<u8>, max: int)
    requires
        b.len() > 0,
        forall|i: int| 0 <= i < b.len() ==> is_decimal(#[trigger] b[i]),
        crate::lexer::spec::digits_value(b) <= max,
    ensures
        crate::reader::field::field_value(b, max) == Some(crate::lexer::spec::digits_value(b)),
{
    let chars = chars_of(b);
    assert(vstd::utf8::is_ascii_chars(chars));
    vstd::utf8::is_ascii_chars_encode_utf8(chars);
    assert(vstd::utf8::encode_utf8(chars) =~= b);
    vstd::utf8::encode_utf8_valid_utf8(chars);
    vstd::utf8::encode_utf8_decode_utf8(chars);
    assert(crate::reader::field::trim_start(chars, 0) == 0);
    assert(crate::reader::field::trim_end(chars, chars.len() as int) == chars.len());
    assert(chars.subrange(0, chars.len() as int) =~= chars);
    assert(crate::reader::field::trimmed(chars) == chars);
    assert(crate::reader::field::unsigned_digits(chars) == chars);
    lemma_decimal_chars(b);
}

proof fn lemma_status_from(bytes: Seq<u8>, i: int)
    requires
        bytes.len() == 20,
        0 <= i <= 17,
        forall|m: int| 0 <= m < 17 ==> is_decimal(#[trigger] bytes[m]) || bytes[m] == 0x20,
        bytes[17] == 0x6e || bytes[17] == 0x66,
    ensures
        crate::reader::xref::entry_status(bytes, i) == Some(bytes[17] == 0x6e),
    decreases 17 - i,
{
    if i < 17 {
        assert(is_decimal(bytes[i]) || bytes[i] == 0x20);
        lemma_status_from(bytes, i + 1);
    }
}

/// An entry of the cross-reference table written as ten digits, a space,
/// five digits, a space, a status byte and two bytes of white space gives
/// the offset and generation that the digits say (when they fit), and is in
/// use exactly when its status byte is `n` (free when it is `f`).
pub proof fn law_xref_entry_fields(bytes: Seq<u8>)
    requires
        bytes.len() == 20,
        forall|m: int| 0 <= m < 10 ==> is_decimal(#[trigger] bytes[m]),
        bytes[10] == 0x20,
        forall|m: int| 11 <= m < 16 ==> is_decimal(#[trigger] bytes[m]),
        bytes[16] == 0x20,
        bytes[17] == 0x6e || bytes[17] == 0x66,
        bytes[18] == 0x20 || bytes[18] == 0x0d || bytes[18] == 0x0a,
        bytes[19] == 0x20 || bytes[19] == 0x0d || bytes[19] == 0x0a,
        crate::lexer::spec::digits_value(bytes.subrange(0, 10)) <= usize::MAX,
        crate::lexer::spec::digits_value(bytes.subrange(11, 16)) <= u16::MAX,
    ensures
        crate::reader::xref::xref_entry(bytes) == Some(
            crate::reader::xref::SpecXRefEntry {
                offset: crate::lexer::spec::digits_value(bytes.subrange(0, 10)),
                generation: crate::lexer::spec::digits_value(bytes.subrange(11, 16)),
                in_use: bytes[17] == 0x6e,
            },
        ),
{
    let o = bytes.subrange(0, 10);
    let g = bytes.subrange(11, 16);
    assert forall|i: int| 0 <= i < o.len() implies is_decimal(#[trigger] o[i]) by {
        assert(o[i] == bytes[i]);
    }
    assert forall|i: int| 0 <= i < g.len() implies is_decimal(#[trigger] g[i]) by {
        assert(g[i] == bytes[i + 11]);
    }
    lemma_field_of_digits(o, usize::MAX as int);
    lemma_field_of_digits(g, u16::MAX as int);
    assert forall|m: int| 0 <= m < 17 implies is_decimal(#[trigger] bytes[m]) || bytes[m] == 0x20 by {
        if m < 10 {
        } else if m == 10 || m == 16 {
        } else {
            assert(11 <= m < 16);
        }
    }
    lemma_status_from(bytes, 0);
}

#[verifier::spinoff_prover]
#[verifier::rlimit(30)]
proof fn lemma_subsection_files(
    buf: Seq<u8>,
    p: int,
    id: i64,
    count: i64,
    j: int,
    m: Map<u32, crate::reader::xref::SpecXRefEntry>,
)
    requires
        0 <= p,
        0 <= j,
        0 <= id,
        id + count <= u32::MAX + 1,
    ensures
        crate::reader::xref::xref_subsection(buf, p, id, count, j, m) matches Some(Ok((q, m2))) ==> {
            &&& forall|i: int|
                j <= i < count ==> #[trigger] m2.contains_key((id + i) as u32) && Some(m2[(id + i) as u32])
                    == crate::reader::xref::xref_entry(buf.subrange(p + 20 * (i - j), p + 20 * (i - j) + 20))
            &&& forall|k: u32|
                #[trigger] m.contains_key(k) && (k < id + j || k >= id + count) ==> m2.contains_key(k) && m2[k]
                    == m[k]
            &&& (j <= count ==> q == p + 20 * (count - j))
            &&& (j > count ==> q == p)
        },
    decreases count - j,
{
    if j < count {
        if let (Ok(bytes), p1) = crate::lexer::spec::read_raw(buf, p, 20) {
            if let Some(e) = crate::reader::xref::xref_entry(bytes) {
                let m1 = m.insert((id + j) as u32, e);
                lemma_subsection_files(buf, p1, id, count, j + 1, m1);
                if let Some(Ok((q, m2))) = crate::reader::xref::xref_subsection(buf, p, id, count, j, m) {
                    assert(crate::reader::xref::xref_subsection(buf, p, id, count, j, m)
                        == crate::reader::xref::xref_subsection(buf, p1, id, count, j + 1, m1));
                    assert(m1.contains_key((id + j) as u32));
                    assert(((id + j) as u32) < id + (j + 1));
                    assert forall|i: int| j <= i < count implies #[trigger] m2.contains_key((id + i) as u32) && Some(
                        m2[(id + i) as u32],
                    ) == crate::reader::xref::xref_entry(buf.subrange(p + 20 * (i - j), p + 20 * (i - j) + 20)) by {
                        if i == j {
                            assert(m1[(id + j) as u32] == e);
                        } else {
                            assert(p1 + 20 * (i - (j + 1)) == p + 20 * (i - j));
                        }
                    }
                    assert forall|k: u32|
                        #[trigger] m.contains_key(k) && (k < id + j || k >= id + count) implies m2.contains_key(k)
                        && m2[k] == m[k] by {
                        assert(k != (id + j) as u32);
                        assert(m1.contains_key(k) && m1[k] == m[k]);
                    }
                }
            }
        }
    }
}

/// The `i`-th entry of a subsection headed `id count` is filed under the
/// object number `id + i`: it is the entry read from the `i`-th group of 20
/// bytes after the header, and the subsection ends after `count` such groups.
/// (For object numbers from `id` that fit in a `u32`.)
pub proof fn law_subsection_files_entries_by_number(
    buf: Seq<u8>,
    pos: int,
    id: i64,
    count: i64,
    m: Map<u32, crate::reader::xref::SpecXRefEntry>,
)
    requires
        0 <= pos,
        0 <= id,
        0 <= count,
        id + count <= u32::MAX + 1,
    ensures
        crate::reader::xref::xref_subsection(buf, pos, id, count, 0, m) matches Some(Ok((q, m2))) ==> {
            &&& q == pos + 20 * count
            &&& forall|i: int|
                0 <= i < count ==> #[trigger] m2.contains_key((id + i) as u32) && Some(m2[(id + i) as u32])
                    == crate::reader::xref::xref_entry(buf.subrange(pos + 20 * i, pos + 20 * i + 20))
            &&& forall|k: u32| #[trigger] m.contains_key(k) && (k < id || k >= id + count) ==> m2.contains_key(k) && m2[k] == m[k]
        },
{
    lemma_subsection_files(buf, pos, id, count, 0, m);
    if let Some(Ok((q, m2))) = crate::reader::xref::xref_subsection(buf, pos, id, count, 0, m) {
        assert forall|i: int| 0 <= i < count implies #[trigger] m2.contains_key((id + i) as u32) && Some(
            m2[(id + i) as u32],
        ) == crate::reader::xref::xref_entry(buf.subrange(pos + 20 * i, pos + 20 * i + 20)) by {
            assert(pos + 20 * (i - 0) == pos + 20 * i);
        }
        assert(q == pos + 20 * (count - 0));
    }
}

/// An ASCII letter.
pub open spec fn is_letter(c: u8) -> bool {
    (0x41 <= c <= 0x5a) || (0x61 <= c <= 0x7a)
}

proof fn lemma_letters_to(buf: Seq<u8>, r: int, q: int)
    requires
        0 <= r <= q <= buf.len(),
        forall|i: int| r <= i < q ==> is_letter(#[trigger] buf[i]),
        q == buf.len() || !is_letter(buf[q]),
    ensures
        crate::lexer::spec::alpha_end(buf, r) == q,
    decreases q - r,
{
    if r < q {
        lemma_letters_to(buf, r + 1, q);
    }
}

proof fn lemma_word(w: Seq<u8>, rest: Seq<u8>, t: SpecToken)
    requires
        w.len() > 0,
        forall|i: int| 0 <= i < w.len() ==> is_letter(#[trigger] w[i]),
        rest.len() == 0 || !is_letter(rest[0]),
        crate::lexer::spec::keyword_token(w) == Some(t),
    ensures
        lex_next(w + rest, 0) == Some((Some(Ok::<SpecToken, SpecError>(t)), w.len() as int)),
{
    let buf = w + rest;
    assert forall|i: int| 0 <= i < w.len() implies is_letter(#[trigger] buf[i]) by {
        assert(buf[i] == w[i]);
    }
    if w.len() < buf.len() {
        assert(buf[w.len() as int] == rest[0]);
    }
    lemma_letters_to(buf, 0, w.len() as int);
    assert(buf.subrange(0, w.len() as int) =~= w);
    assert(buf[0] == w[0]);
    assert(skip_trivia(buf, 0, false) == 0);
}

/// The eleven words of PDF syntax, followed by nothing or by a byte that is
/// not a letter, are the tokens they name: `true` and `false` the booleans,
/// `null` the null token, and `obj`, `endobj`, `stream`, `endstream`, `R`,
/// `xref`, `trailer` and `startxref` their keywords; the lexer stops right
/// after the word.
pub proof fn law_keywords(rest: Seq<u8>)
    requires
        rest.len() == 0 || !is_letter(rest[0]),
    ensures
        lex_next(seq![0x74u8, 0x72, 0x75, 0x65] + rest, 0) == Some((Some(Ok::<SpecToken, SpecError>(SpecToken::Boolean(true))), 4int)),
        lex_next(seq![0x66u8, 0x61, 0x6c, 0x73, 0x65] + rest, 0) == Some((Some(Ok::<SpecToken, SpecError>(SpecToken::Boolean(false))), 5int)),
        lex_next(seq![0x6eu8, 0x75, 0x6c, 0x6c] + rest, 0) == Some((Some(Ok::<SpecToken, SpecError>(SpecToken::Null)), 4int)),
        lex_next(seq![0x6fu8, 0x62, 0x6a] + rest, 0) == Some((Some(Ok::<SpecToken, SpecError>(SpecToken::Keyword(Keyword::Obj))), 3int)),
        lex_next(seq![0x65u8, 0x6e, 0x64, 0x6f, 0x62, 0x6a] + rest, 0) == Some((Some(Ok::<SpecToken, SpecError>(SpecToken::Keyword(Keyword::EndObj))), 6int)),
        lex_next(seq![0x73u8, 0x74, 0x72, 0x65, 0x61, 0x6d] + rest, 0) == Some((Some(Ok::<SpecToken, SpecError>(SpecToken::Keyword(Keyword::Stream))), 6int)),
        lex_next(seq![0x65u8, 0x6e, 0x64, 0x73, 0x74, 0x72, 0x65, 0x61, 0x6d] + rest, 0) == Some((Some(Ok::<SpecToken, SpecError>(SpecToken::Keyword(Keyword::EndStream))), 9int)),
        lex_next(seq![0x52u8] + rest, 0) == Some((Some(Ok::<SpecToken, SpecError>(SpecToken::Keyword(Keyword::R))), 1int)),
        lex_next(seq![0x78u8, 0x72, 0x65, 0x66] + rest, 0) == Some((Some(Ok::<SpecToken, SpecError>(SpecToken::Keyword(Keyword::XRef))), 4int)),
        lex_next(seq![0x74u8, 0x72, 0x61, 0x69, 0x6c, 0x65, 0x72] + rest, 0) == Some((Some(Ok::<SpecToken, SpecError>(SpecToken::Keyword(Keyword::Trailer))), 7int)),
        lex_next(seq![0x73u8, 0x74, 0x61, 0x72, 0x74, 0x78, 0x72, 0x65, 0x66] + rest, 0) == Some((Some(Ok::<SpecToken, SpecError>(SpecToken::Keyword(Keyword::StartXRef))), 9int)),
{
    assert(crate::lexer::spec::keyword_token(seq![0x74u8, 0x72, 0x75, 0x65]) == Some(SpecToken::Boolean(true)));
    lemma_word(seq![0x74u8, 0x72, 0x75, 0x65], rest, SpecToken::Boolean(true));
    assert(crate::lexer::spec::keyword_token(seq![0x66u8, 0x61, 0x6c, 0x73, 0x65]) == Some(SpecToken::Boolean(false)));
    lemma_word(seq![0x66u8, 0x61, 0x6c, 0x73, 0x65], rest, SpecToken::Boolean(false));
    assert(crate::lexer::spec::keyword_token(seq![0x6eu8, 0x75, 0x6c, 0x6c]) == Some(SpecToken::Null));
    lemma_word(seq![0x6eu8, 0x75, 0x6c, 0x6c], rest, SpecToken::Null);
    assert(crate::lexer::spec::keyword_token(seq![0x6fu8, 0x62, 0x6a]) == Some(SpecToken::Keyword(Keyword::Obj)));
    lemma_word(seq![0x6fu8, 0x62, 0x6a], rest, SpecToken::Keyword(Keyword::Obj));
    assert(crate::lexer::spec::keyword_token(seq![0x65u8, 0x6e, 0x64, 0x6f, 0x62, 0x6a]) == Some(SpecToken::Keyword(Keyword::EndObj)));
    lemma_word(seq![0x65u8, 0x6e, 0x64, 0x6f, 0x62, 0x6a], rest, SpecToken::Keyword(Keyword::EndObj));
    assert(crate::lexer::spec::keyword_token(seq![0x73u8, 0x74, 0x72, 0x65, 0x61, 0x6d]) == Some(SpecToken::Keyword(Keyword::Stream)));
    lemma_word(seq![0x73u8, 0x74, 0x72, 0x65, 0x61, 0x6d], rest, SpecToken::Keyword(Keyword::Stream));
    assert(crate::lexer::spec::keyword_token(seq![0x65u8, 0x6e, 0x64, 0x73, 0x74, 0x72, 0x65, 0x61, 0x6d]) == Some(SpecToken::Keyword(Keyword::EndStream)));
    lemma_word(seq![0x65u8, 0x6e, 0x64, 0x73, 0x74, 0x72, 0x65, 0x61, 0x6d], rest, SpecToken::Keyword(Keyword::EndStream));
    assert(crate::lexer::spec::keyword_token(seq![0x52u8]) == Some(SpecToken::Keyword(Keyword::R)));
    lemma_word(seq![0x52u8], rest, SpecToken::Keyword(Keyword::R));
    assert(crate::lexer::spec::keyword_token(seq![0x78u8, 0x72, 0x65, 0x66]) == Some(SpecToken::Keyword(Keyword::XRef)));
    lemma_word(seq![0x78u8, 0x72, 0x65, 0x66], rest, SpecToken::Keyword(Keyword::XRef));
    assert(crate::lexer::spec::keyword_token(seq![0x74u8, 0x72, 0x61, 0x69, 0x6c, 0x65, 0x72]) == Some(SpecToken::Keyword(Keyword::Trailer)));
    lemma_word(seq![0x74u8, 0x72, 0x61, 0x69, 0x6c, 0x65, 0x72], rest, SpecToken::Keyword(Keyword::Trailer));
    assert(crate::lexer::spec::keyword_token(seq![0x73u8, 0x74, 0x61, 0x72, 0x74, 0x78, 0x72, 0x65, 0x66]) == Some(SpecToken::Keyword(Keyword::StartXRef)));
    lemma_word(seq![0x73u8, 0x74, 0x61, 0x72, 0x74, 0x78, 0x72, 0x65, 0x66], rest, SpecToken::Keyword(Keyword::StartXRef));
}

proof fn lemma_plain_literal(buf: Seq<u8>, r: int, q: int, acc: Seq<u8>)
    requires
        0 <= r <= q < buf.len(),
        forall|i: int| r <= i < q ==> #[trigger] buf[i] != 0x28 && buf[i] != 0x29 && buf[i] != 0x5c,
        buf[q] == 0x29,
    ensures
        crate::lexer::spec::lex_literal(buf, r, 0, acc) == (Ok::<Seq<u8>, SpecError>(acc + buf.subrange(r, q)), q + 1),
    decreases q - r,
{
    if r < q {
        lemma_plain_literal(buf, r + 1, q, acc.push(buf[r]));
        assert(acc.push(buf[r]) + buf.subrange(r + 1, q) =~= acc + buf.subrange(r, q));
    } else {
        assert(acc + buf.subrange(r, q) =~= acc);
    }
}

/// Bytes with no parenthesis and no backslash, between `(` and `)`, are a
/// literal string of exactly those bytes, and the lexer stops after the `)`.
pub proof fn law_plain_literal_strings(w: Seq<u8>, rest: Seq<u8>)
    requires
        forall|i: int| 0 <= i < w.len() ==> #[trigger] w[i] != 0x28 && w[i] != 0x29 && w[i] != 0x5c,
    ensures
        lex_next(seq![0x28u8] + w + seq![0x29u8] + rest, 0) == Some(
            (Some(Ok::<SpecToken, SpecError>(SpecToken::LiteralString(w))), w.len() + 2int),
        ),
{
    let buf = seq![0x28u8] + w + seq![0x29u8] + rest;
    let q = w.len() + 1int;
    assert(buf[0] == 0x28);
    assert(buf[q] == 0x29);
    assert forall|i: int| 1 <= i < q implies #[trigger] buf[i] != 0x28 && buf[i] != 0x29 && buf[i] != 0x5c by {
        assert(buf[i] == w[i - 1]);
    }
    lemma_plain_literal(buf, 1, q, seq![]);
    assert(seq![] + buf.subrange(1, q) =~= w);
    assert(skip_trivia(buf, 0, false) == 0);
}

/// The value of a hexadecimal digit, in either case.
pub open spec fn hex_digit_value(c: u8) -> int {
    if 0x30 <= c <= 0x39 {
        c - 0x30
    } else if 0x41 <= c <= 0x46 {
        c - 0x41 + 10
    } else {
        c - 0x61 + 10
    }
}

pub open spec fn is_hex_digit(c: u8) -> bool {
    (0x30 <= c <= 0x39) || (0x41 <= c <= 0x46) || (0x61 <= c <= 0x66)
}

/// The bytes that pairs of hexadecimal digits stand for.
pub open spec fn hex_pairs(h: Seq<u8>) -> Seq<u8> {
    Seq::new(h.len() / 2, |i: int| (hex_digit_value(h[2 * i]) * 16 + hex_digit_value(h[2 * i + 1])) as u8)
}

proof fn lemma_hex_run(buf: Seq<u8>, start: int, k: int, n: int, acc: Seq<u8>)
    requires
        0 <= start,
        0 <= k <= n,
        start + 2 * n < buf.len(),
        forall|i: int| start <= i < start + 2 * n ==> is_hex_digit(#[trigger] buf[i]),
        buf[start + 2 * n] == 0x3e,
    ensures
        crate::lexer::spec::lex_hex(buf, start + 2 * k, acc, None) == (
            Ok::<Seq<u8>, SpecError>(
                acc + Seq::new(
                    (n - k) as nat,
                    |i: int|
                        (hex_digit_value(buf[start + 2 * k + 2 * i]) * 16 + hex_digit_value(
                            buf[start + 2 * k + 2 * i + 1],
                        )) as u8,
                ),
            ),
            start + 2 * n + 1,
        ),
    decreases n - k,
{
    let p = start + 2 * k;
    if k < n {
        let a = buf[p];
        let b = buf[p + 1];
        assert(is_hex_digit(a) && is_hex_digit(b));
        let v = (hex_digit_value(a) * 16 + hex_digit_value(b)) as u8;
        let ha = crate::lexer::spec::hex_value(a).unwrap();
        let hb = crate::lexer::spec::hex_value(b).unwrap();
        assert(ha as int == hex_digit_value(a));
        assert(hb as int == hex_digit_value(b));
        assert(crate::lexer::spec::lex_hex(buf, p, acc, None) == crate::lexer::spec::lex_hex(buf, p + 1, acc, Some(ha)));
        assert(crate::lexer::spec::lex_hex(buf, p + 1, acc, Some(ha)) == crate::lexer::spec::lex_hex(
            buf,
            p + 2,
            acc.push((ha * 16 + hb) as u8),
            None,
        ));
        assert((ha * 16 + hb) as u8 == v);
        lemma_hex_run(buf, start, k + 1, n, acc.push(v));
        assert(start + 2 * (k + 1) == p + 2);
        assert(acc.push(v) + Seq::new(
            (n - (k + 1)) as nat,
            |i: int|
                (hex_digit_value(buf[start + 2 * (k + 1) + 2 * i]) * 16 + hex_digit_value(
                    buf[start + 2 * (k + 1) + 2 * i + 1],
                )) as u8,
        ) =~= acc + Seq::new(
            (n - k) as nat,
            |i: int|
                (hex_digit_value(buf[start + 2 * k + 2 * i]) * 16 + hex_digit_value(buf[start + 2 * k + 2 * i + 1]))
                    as u8,
        ));
    } else {
        assert(acc + Seq::new(
            0nat,
            |i: int|
                (hex_digit_value(buf[start + 2 * k + 2 * i]) * 16 + hex_digit_value(buf[start + 2 * k + 2 * i + 1]))
                    as u8,
        ) =~= acc);
    }
}

/// An even number of hexadecimal digits (either case) between `<` and `>`
/// is a hexadecimal string whose bytes are the values of the digit pairs, the
/// first digit of each pair the high one; the lexer stops after the `>`.
pub proof fn law_hex_strings(h: Seq<u8>, rest: Seq<u8>)
    requires
        h.len() > 0,
        h.len() % 2 == 0,
        forall|i: int| 0 <= i < h.len() ==> is_hex_digit(#[trigger] h[i]),
    ensures
        lex_next(seq![0x3cu8] + h + seq![0x3eu8] + rest, 0) == Some(
            (Some(Ok::<SpecToken, SpecError>(SpecToken::HexString(hex_pairs(h)))), h.len() + 2int),
        ),
{
    let buf = seq![0x3cu8] + h + seq![0x3eu8] + rest;
    let n: int = (h.len() / 2) as int;
    assert(2 * n == h.len());
    assert(buf[0] == 0x3c);
    assert(buf[1] == h[0]);
    assert(buf[1 + 2 * n] == 0x3e);
    assert forall|i: int| 1 <= i < 1 + 2 * n implies is_hex_digit(#[trigger] buf[i]) by {
        assert(buf[i] == h[i - 1]);
    }
    lemma_hex_run(buf, 1, 0, n, seq![]);
    assert(seq![] + Seq::new(
        n as nat,
        |i: int| (hex_digit_value(buf[1 + 2 * 0 + 2 * i]) * 16 + hex_digit_value(buf[1 + 2 * 0 + 2 * i + 1])) as u8,
    ) =~= hex_pairs(h)) by {
        assert forall|i: int| 0 <= i < n implies #[trigger] buf[1 + 2 * i] == h[2 * i] && buf[1 + 2 * i + 1] == h[
            2 * i + 1] by {
        }
    }
    assert(skip_trivia(buf, 0, false) == 0);
}

/// The byte an escape `\e` stands for in a literal string: `\n`, `\r`, `\t`,
/// `\b`, `\f` the control bytes LF, CR, TAB, BS, FF, and `\(`, `\)`, `\\`
/// the byte itself.
pub open spec fn escape_meaning(e: u8) -> u8 {
    if e == 0x6e {
        10
    } else if e == 0x72 {
        13
    } else if e == 0x74 {
        9
    } else if e == 0x62 {
        8
    } else if e == 0x66 {
        12
    } else {
        e
    }
}

/// A literal string holding one escape is the one byte that escape stands
/// for, and the lexer stops after the closing `)`.
pub proof fn law_literal_escapes(e: u8, rest: Seq<u8>)
    requires
        e == 0x6e || e == 0x72 || e == 0x74 || e == 0x62 || e == 0x66 || e == 0x28 || e == 0x29 || e == 0x5c,
    ensures
        lex_next(seq![0x28u8, 0x5c, e, 0x29] + rest, 0) == Some(
            (Some(Ok::<SpecToken, SpecError>(SpecToken::LiteralString(seq![escape_meaning(e)]))), 4int),
        ),
{
    let buf = seq![0x28u8, 0x5c, e, 0x29] + rest;
    assert(buf[0] == 0x28 && buf[1] == 0x5c && buf[2] == e && buf[3] == 0x29);
    assert(skip_trivia(buf, 0, false) == 0);
    let acc = Seq::<u8>::empty().push(escape_meaning(e));
    assert(crate::lexer::spec::lex_literal(buf, 1, 0, seq![]) == crate::lexer::spec::lex_literal(buf, 3, 0, acc));
    assert(crate::lexer::spec::lex_literal(buf, 3, 0, acc) == (Ok::<Seq<u8>, SpecError>(acc), 4int));
    assert(acc =~= seq![escape_meaning(e)]);
}

/// One of the six white-space bytes (NUL, TAB, LF, FF, CR, SPACE) before
/// the rest changes nothing: reading from it is reading from just after it.
pub proof fn law_whitespace_is_skipped(w: u8, rest: Seq<u8>)
    requires
        w == 0 || w == 9 || w == 10 || w == 12 || w == 13 || w == 32,
    ensures
        lex_next(seq![w] + rest, 0) == lex_next(seq![w] + rest, 1),
{
    let buf = seq![w] + rest;
    assert(buf[0] == w);
    assert(skip_trivia(buf, 0, false) == skip_trivia(buf, 1, false));
}

proof fn lemma_comment_text(buf: Seq<u8>, r: int, q: int)
    requires
        0 <= r <= q < buf.len(),
        forall|i: int| r <= i < q ==> #[trigger] buf[i] != 10 && buf[i] != 13,
        buf[q] == 10 || buf[q] == 13,
    ensures
        skip_trivia(buf, r, true) == skip_trivia(buf, q + 1, false),
    decreases q - r,
{
    if r < q {
        lemma_comment_text(buf, r + 1, q);
    }
}

/// A comment (`%`, text without CR or LF, then CR or LF) before the rest
/// changes nothing: reading from the `%` is reading from after the line break.
pub proof fn law_comments_are_skipped(text: Seq<u8>, eol: u8, rest: Seq<u8>)
    requires
        forall|i: int| 0 <= i < text.len() ==> #[trigger] text[i] != 10 && text[i] != 13,
        eol == 10 || eol == 13,
    ensures
        lex_next(seq![0x25u8] + text + seq![eol] + rest, 0) == lex_next(
            seq![0x25u8] + text + seq![eol] + rest,
            text.len() + 2int,
        ),
{
    let buf = seq![0x25u8] + text + seq![eol] + rest;
    let q = text.len() + 1int;
    assert(buf[0] == 0x25);
    assert(buf[q] == eol);
    assert forall|i: int| 1 <= i < q implies #[trigger] buf[i] != 10 && buf[i] != 13 by {
        assert(buf[i] == text[i - 1]);
    }
    lemma_comment_text(buf, 1, q);
    assert(skip_trivia(buf, 0, false) == skip_trivia(buf, 1, true));
}

} // verus!
