//! A buffer that ends with another: lexing and parsing the inner buffer gives
//! the same tokens and objects as lexing and parsing the same bytes inside the
//! outer one, with every position moved by the offset of the inner buffer.
use vstd::prelude::*;
use crate::error::SpecError;
use crate::lexer::spec::{
    alpha_end, digit_end, lex_hex, lex_keyword, lex_literal, lex_name, lex_next, lex_number,
    lex_token_at, read_stream, skip_trivia, SpecLexed,
};
use crate::object::SpecObject;
use crate::token::SpecToken;
use super::lemmas::{lemma_lex_step, lemma_next_tok_ok, lemma_peek_ok, lemma_progress_nonneg, lemma_two_ahead};
use super::spec::{
    drop_queued, expect_endobj, fill, next_tok, parse_array, parse_dict, parse_indirect, parse_object,
    parse_stream, peek, progress, queue_weight, ParseState,
};

verus! {

/// `c` holds the bytes of `b` from offset `o` to its end.
pub open spec fn is_suffix_at(b: Seq<u8>, c: Seq<u8>, o: int) -> bool {
    &&& 0 <= o
    &&& c.len() == o + b.len()
    &&& forall|i: int| 0 <= i < b.len() ==> c[o + i] == b[i]
}

/// An error with its position moved by `o`.
pub open spec fn shift_err(e: SpecError, o: int) -> SpecError {
    match e {
        SpecError::InvalidByte(x, p) => SpecError::InvalidByte(x, p + o),
        SpecError::UnknownKeyword(w, p) => SpecError::UnknownKeyword(w, p + o),
        _ => e,
    }
}

pub open spec fn shift_res<T>(r: Result<T, SpecError>, o: int) -> Result<T, SpecError> {
    match r {
        Ok(v) => Ok(v),
        Err(e) => Err(shift_err(e, o)),
    }
}

pub open spec fn shift_at<T>(r: (Result<T, SpecError>, int), o: int) -> (Result<T, SpecError>, int) {
    (shift_res(r.0, o), r.1 + o)
}

pub open spec fn shift_lexed(t: SpecLexed, o: int) -> SpecLexed {
    match t {
        None => None,
        Some(r) => Some(shift_res(r, o)),
    }
}

/// A parser state with its position, and the positions of the errors it has
/// read ahead, moved by `o`.
pub open spec fn shift_state(s: ParseState, o: int) -> ParseState {
    ParseState { pos: s.pos + o, queue: s.queue.map_values(|r: Result<SpecToken, SpecError>| shift_res(r, o)) }
}

proof fn lemma_sh_skip(b: Seq<u8>, c: Seq<u8>, o: int, p: int, ic: bool)
    requires
        is_suffix_at(b, c, o),
        0 <= p,
    ensures
        skip_trivia(c, p + o, ic) == skip_trivia(b, p, ic) + o,
    decreases b.len() - p,
{
    if p < b.len() {
        assert(c[p + o] == b[p]);
        lemma_sh_skip(b, c, o, p + 1, true);
        lemma_sh_skip(b, c, o, p + 1, false);
        assert((p + 1) + o == p + o + 1);
    }
}

proof fn lemma_skip_ge(buf: Seq<u8>, p: int, ic: bool)
    ensures
        p <= skip_trivia(buf, p, ic),
    decreases buf.len() - p,
{
    if 0 <= p < buf.len() {
        lemma_skip_ge(buf, p + 1, true);
        lemma_skip_ge(buf, p + 1, false);
    }
}

proof fn lemma_sh_literal(b: Seq<u8>, c: Seq<u8>, o: int, p: int, d: nat, acc: Seq<u8>)
    requires
        is_suffix_at(b, c, o),
        0 <= p,
    ensures
        lex_literal(c, p + o, d, acc) == shift_at(lex_literal(b, p, d, acc), o),
    decreases b.len() - p,
{
    if p < b.len() {
        let x = b[p];
        assert(c[p + o] == x);
        assert((p + 1) + o == p + o + 1);
        assert((p + 2) + o == p + o + 2);
        if x == 0x29 && d == 0 {
        } else if x == 0x28 {
            lemma_sh_literal(b, c, o, p + 1, d + 1, acc.push(x));
        } else if x == 0x29 {
            lemma_sh_literal(b, c, o, p + 1, (d - 1) as nat, acc.push(x));
        } else if x == 0x5c && p + 1 < b.len() {
            assert(c[p + o + 1] == b[p + 1]);
            if let Some(e) = crate::lexer::spec::escaped_byte(b[p + 1]) {
                lemma_sh_literal(b, c, o, p + 2, d, acc.push(e));
            }
        } else {
            lemma_sh_literal(b, c, o, p + 1, d, acc.push(x));
        }
    }
}

proof fn lemma_sh_hex(b: Seq<u8>, c: Seq<u8>, o: int, p: int, acc: Seq<u8>, high: Option<u8>)
    requires
        is_suffix_at(b, c, o),
        0 <= p,
    ensures
        lex_hex(c, p + o, acc, high) == shift_at(lex_hex(b, p, acc, high), o),
    decreases b.len() - p,
{
    if p < b.len() {
        let x = b[p];
        assert(c[p + o] == x);
        assert((p + 1) + o == p + o + 1);
        lemma_sh_hex(b, c, o, p + 1, acc, high);
        if let Some(dg) = crate::lexer::spec::hex_value(x) {
            lemma_sh_hex(b, c, o, p + 1, acc, Some(dg));
            if let Some(a) = high {
                lemma_sh_hex(b, c, o, p + 1, acc.push((a * 16 + dg) as u8), None);
            }
        }
    }
}

proof fn lemma_sh_name(b: Seq<u8>, c: Seq<u8>, o: int, p: int, acc: Seq<u8>)
    requires
        is_suffix_at(b, c, o),
        0 <= p,
    ensures
        lex_name(c, p + o, acc) == shift_at(lex_name(b, p, acc), o),
    decreases b.len() - p,
{
    if p < b.len() {
        let x = b[p];
        assert(c[p + o] == x);
        assert((p + 1) + o == p + o + 1);
        assert((p + 2) + o == p + o + 2);
        assert((p + 3) + o == p + o + 3);
        if x == 0x23 && p + 2 < b.len() {
            assert(c[p + o + 1] == b[p + 1]);
            assert(c[p + o + 2] == b[p + 2]);
            if let Some(a) = crate::lexer::spec::hex_value(b[p + 1]) {
                if let Some(bb) = crate::lexer::spec::hex_value(b[p + 2]) {
                    lemma_sh_name(b, c, o, p + 3, acc.push((a * 16 + bb) as u8));
                }
            }
        } else {
            lemma_sh_name(b, c, o, p + 1, acc.push(x));
        }
    }
}

proof fn lemma_sh_alpha(b: Seq<u8>, c: Seq<u8>, o: int, p: int)
    requires
        is_suffix_at(b, c, o),
        0 <= p,
    ensures
        alpha_end(c, p + o) == alpha_end(b, p) + o,
    decreases b.len() - p,
{
    if p < b.len() {
        assert(c[p + o] == b[p]);
        assert((p + 1) + o == p + o + 1);
        lemma_sh_alpha(b, c, o, p + 1);
    }
}

proof fn lemma_sh_digits(b: Seq<u8>, c: Seq<u8>, o: int, p: int)
    requires
        is_suffix_at(b, c, o),
        0 <= p,
    ensures
        digit_end(c, p + o) == digit_end(b, p) + o,
    decreases b.len() - p,
{
    if p < b.len() {
        assert(c[p + o] == b[p]);
        assert((p + 1) + o == p + o + 1);
        lemma_sh_digits(b, c, o, p + 1);
    }
}

proof fn lemma_sh_sub(b: Seq<u8>, c: Seq<u8>, o: int, i: int, j: int)
    requires
        is_suffix_at(b, c, o),
        0 <= i <= j <= b.len(),
    ensures
        c.subrange(i + o, j + o) == b.subrange(i, j),
{
    assert(c.subrange(i + o, j + o) =~= b.subrange(i, j)) by {
        assert forall|k: int| 0 <= k < j - i implies c.subrange(i + o, j + o)[k] == b.subrange(i, j)[k] by {
            assert(c[i + o + k] == b[i + k]);
        }
    }
}

proof fn lemma_digit_end_le(buf: Seq<u8>, p: int)
    requires
        0 <= p,
    ensures
        p <= digit_end(buf, p),
        p <= buf.len() ==> digit_end(buf, p) <= buf.len(),
        p > buf.len() ==> digit_end(buf, p) == p,
    decreases buf.len() - p,
{
    if 0 <= p < buf.len() && crate::lexer::spec::is_digit_byte(buf[p]) {
        lemma_digit_end_le(buf, p + 1);
    }
}

proof fn lemma_alpha_end_le(buf: Seq<u8>, p: int)
    requires
        0 <= p <= buf.len(),
    ensures
        p <= alpha_end(buf, p) <= buf.len(),
    decreases buf.len() - p,
{
    if p < buf.len() && crate::lexer::spec::is_alpha_byte(buf[p]) {
        lemma_alpha_end_le(buf, p + 1);
    }
}

proof fn lemma_sh_token_at(b: Seq<u8>, c: Seq<u8>, o: int, p: int)
    requires
        is_suffix_at(b, c, o),
        0 <= p < b.len(),
    ensures
        lex_token_at(c, p + o) == (match lex_token_at(b, p) {
            Some(r) => Some(shift_at(r, o)),
            None => None,
        }),
{
    let x = b[p];
    assert(c[p + o] == x);
    assert((p + 1) + o == p + o + 1);
    if p + 1 < b.len() {
        assert(c[p + o + 1] == b[p + 1]);
    }
    lemma_sh_literal(b, c, o, p + 1, 0, seq![]);
    lemma_sh_hex(b, c, o, p + 1, seq![], None);
    lemma_sh_name(b, c, o, p + 1, seq![]);
    lemma_sh_alpha(b, c, o, p);
    lemma_alpha_end_le(b, p);
    lemma_sh_sub(b, c, o, p, alpha_end(b, p));
    if crate::lexer::spec::starts_number(x) {
        let start = if x == 0x2d || x == 0x2b { p + 1 } else { p };
        assert(start + o == if c[p + o] == 0x2d || c[p + o] == 0x2b { p + o + 1 } else { p + o });
        lemma_sh_digits(b, c, o, start);
        lemma_digit_end_le(b, start);
        let end = digit_end(b, start);
        lemma_sh_sub(b, c, o, start, end);
        if end < b.len() {
            assert(c[end + o] == b[end]);
            lemma_sh_digits(b, c, o, end + 1);
            lemma_digit_end_le(b, end + 1);
            lemma_sh_sub(b, c, o, end + 1, digit_end(b, end + 1));
            assert((end + 1) + o == end + o + 1);
        }
    }
}

/// Reading a token inside `c` is reading it inside `b`, moved by `o`.
pub proof fn lemma_sh_lex_next(b: Seq<u8>, c: Seq<u8>, o: int, p: int)
    requires
        is_suffix_at(b, c, o),
        0 <= p,
    ensures
        lex_next(c, p + o) == (match lex_next(b, p) {
            None => None,
            Some((t, q)) => Some((shift_lexed(t, o), q + o)),
        }),
{
    lemma_sh_skip(b, c, o, p, false);
    lemma_skip_ge(b, p, false);
    let q = skip_trivia(b, p, false);
    if 0 <= q < b.len() {
        lemma_sh_token_at(b, c, o, q);
        let r = lex_token_at(b, q);
        if let Some((r0, q0)) = r {
            assert(shift_lexed(Some(r0), o) == Some(shift_res(r0, o)));
        }
    }
}

proof fn lemma_sh_read_stream(b: Seq<u8>, c: Seq<u8>, o: int, p: int, l: int)
    requires
        is_suffix_at(b, c, o),
        c.len() <= usize::MAX,
        0 <= p,
        0 <= l,
    ensures
        read_stream(b, p, l) matches Some((Ok(d), q)) ==> read_stream(c, p + o, l) == Some(
            (Ok::<Seq<u8>, SpecError>(d), q + o),
        ),
{
    if p < b.len() {
        assert(c[p + o] == b[p]);
    }
    if p + 1 < b.len() {
        assert(c[p + o + 1] == b[p + 1]);
    }
    let p1 = if 0 <= p < b.len() && b[p] == 13 { p + 1 } else { p };
    let p2 = if 0 <= p1 < b.len() && b[p1] == 10 { p1 + 1 } else { p1 };
    if p2 + l <= b.len() {
        lemma_sh_sub(b, c, o, p2, p2 + l);
    }
}

proof fn lemma_sh_weight(q: Seq<Result<SpecToken, SpecError>>, o: int)
    ensures
        queue_weight(q.map_values(|r: Result<SpecToken, SpecError>| shift_res(r, o))) == queue_weight(q),
    decreases q.len(),
{
    if q.len() > 0 {
        let m = q.map_values(|r: Result<SpecToken, SpecError>| shift_res(r, o));
        assert(m.drop_first() =~= q.drop_first().map_values(|r: Result<SpecToken, SpecError>| shift_res(r, o)));
        lemma_sh_weight(q.drop_first(), o);
    }
}

pub proof fn lemma_sh_progress(b: Seq<u8>, c: Seq<u8>, o: int, s: ParseState)
    requires
        is_suffix_at(b, c, o),
        0 <= s.pos,
    ensures
        progress(c, shift_state(s, o)) == progress(b, s),
{
    lemma_sh_weight(s.queue, o);
}

proof fn lemma_sh_drop(s: ParseState, o: int, k: int)
    requires
        0 <= k <= s.queue.len(),
    ensures
        drop_queued(shift_state(s, o), k) == shift_state(drop_queued(s, k), o),
{
    assert(drop_queued(shift_state(s, o), k).queue =~= shift_state(drop_queued(s, k), o).queue);
}

/// Taking a token inside `c` is taking it inside `b`, moved by `o`.
pub proof fn lemma_sh_next_tok(b: Seq<u8>, c: Seq<u8>, o: int, s: ParseState)
    requires
        is_suffix_at(b, c, o),
        0 <= s.pos,
    ensures
        next_tok(c, shift_state(s, o)) == (match next_tok(b, s) {
            None => None,
            Some((t, s1)) => Some((shift_lexed(t, o), shift_state(s1, o))),
        }),
        next_tok(b, s) matches Some((_, s1)) ==> 0 <= s1.pos,
{
    lemma_lex_step(b, s.pos);
    if s.queue.len() > 0 {
        lemma_sh_drop(s, o, 1);
    } else {
        lemma_sh_lex_next(b, c, o, s.pos);
    }
}

proof fn lemma_fill_got(buf: Seq<u8>, s: ParseState, n: nat)
    ensures
        fill(buf, s, n) matches Some((true, s2)) ==> s2.queue.len() >= n + 1,
        fill(buf, s, n) matches Some((_, s2)) ==> s.pos <= s2.pos,
    decreases n + 1 - s.queue.len(),
{
    lemma_lex_step(buf, s.pos);
    if s.queue.len() < n + 1 {
        if let Some((Some(t), p)) = lex_next(buf, s.pos) {
            lemma_fill_got(buf, ParseState { pos: p, queue: s.queue.push(t) }, n);
        }
    }
}

proof fn lemma_sh_fill(b: Seq<u8>, c: Seq<u8>, o: int, s: ParseState, n: nat)
    requires
        is_suffix_at(b, c, o),
        0 <= s.pos,
    ensures
        fill(c, shift_state(s, o), n) == (match fill(b, s, n) {
            None => None,
            Some((f, s2)) => Some((f, shift_state(s2, o))),
        }),
    decreases n + 1 - s.queue.len(),
{
    lemma_lex_step(b, s.pos);
    if s.queue.len() < n + 1 {
        lemma_sh_lex_next(b, c, o, s.pos);
        match lex_next(b, s.pos) {
            Some((Some(t), p)) => {
                let s1 = ParseState { pos: p, queue: s.queue.push(t) };
                lemma_sh_fill(b, c, o, s1, n);
                assert(shift_state(s1, o) == ParseState {
                    pos: p + o,
                    queue: shift_state(s, o).queue.push(shift_res(t, o)),
                }) by {
                    assert(shift_state(s1, o).queue =~= shift_state(s, o).queue.push(shift_res(t, o)));
                }
            },
            _ => {},
        }
    }
}

proof fn lemma_sh_peek(b: Seq<u8>, c: Seq<u8>, o: int, s: ParseState, n: nat)
    requires
        is_suffix_at(b, c, o),
        0 <= s.pos,
    ensures
        peek(c, shift_state(s, o), n) == (match peek(b, s, n) {
            None => None,
            Some((t, s2)) => Some((shift_lexed(t, o), shift_state(s2, o))),
        }),
        peek(b, s, n) matches Some((_, s2)) ==> 0 <= s2.pos,
{
    lemma_sh_fill(b, c, o, s, n);
    lemma_fill_got(b, s, n);
}

proof fn lemma_sh_stream(b: Seq<u8>, c: Seq<u8>, o: int, s: ParseState, dict: Seq<(Seq<u8>, SpecObject)>)
    requires
        is_suffix_at(b, c, o),
        c.len() <= usize::MAX,
        0 <= s.pos,
    ensures
        parse_stream(b, s, dict) matches Some((Ok(x), s2)) ==> 0 <= s2.pos && parse_stream(c, shift_state(s, o), dict)
            == Some((Ok::<SpecObject, SpecError>(x), shift_state(s2, o))),
{
    if let Some(SpecObject::Integer(n)) = crate::object::dict_lookup(dict, super::spec::length_key()) {
        let l = (n as usize) as int;
        lemma_sh_read_stream(b, c, o, s.pos, l);
        if let Some((Ok(d), p)) = read_stream(b, s.pos, l) {
            let e = ParseState { pos: p, queue: seq![] };
            assert(shift_state(e, o) == ParseState { pos: p + o, queue: seq![] }) by {
                assert(shift_state(e, o).queue =~= seq![]);
            }
            crate::lexer::lemmas::lemma_skip_ws_forward(b, s.pos);
            assert(p >= 0);
            lemma_sh_next_tok(b, c, o, e);
        }
    }
}

/// An object parsed without error inside `b` is parsed the same inside `c`.
pub proof fn lemma_sh_object(b: Seq<u8>, c: Seq<u8>, o: int, s: ParseState)
    requires
        is_suffix_at(b, c, o),
        c.len() <= usize::MAX,
        0 <= s.pos,
    ensures
        parse_object(b, s) matches Some((Ok(x), s2)) ==> 0 <= s2.pos && parse_object(c, shift_state(s, o)) == Some(
            (Ok::<SpecObject, SpecError>(x), shift_state(s2, o)),
        ),
    decreases progress(b, s), 0int,
{
    lemma_sh_next_tok(b, c, o, s);
    lemma_next_tok_ok(b, s);
    if let Some((Some(Ok(t)), s1)) = next_tok(b, s) {
        lemma_progress_nonneg(b, s1);
        match t {
            SpecToken::Integer(n) => {
                lemma_sh_peek(b, c, o, s1, 0);
                if let Some((Some(Ok(SpecToken::Integer(g))), s2)) = peek(b, s1, 0) {
                    lemma_sh_peek(b, c, o, s2, 1);
                    lemma_fill_got(b, s1, 0);
                    if let Some((tk, s3)) = peek(b, s2, 1) {
                        if tk == Some(Ok::<SpecToken, SpecError>(SpecToken::Keyword(crate::token::Keyword::R)))
                            || tk == Some(Ok::<SpecToken, SpecError>(SpecToken::Keyword(crate::token::Keyword::Obj))) {
                            lemma_fill_got(b, s2, 1);
                            lemma_sh_drop(s3, o, 2);
                            lemma_two_ahead(b, s1);
                            lemma_progress_nonneg(b, drop_queued(s3, 2));
                            lemma_sh_indirect(b, c, o, drop_queued(s3, 2), n, g);
                        }
                    }
                }
            },
            SpecToken::ArrayBegin => {
                lemma_sh_array(b, c, o, s1, seq![]);
            },
            SpecToken::DictBegin => {
                lemma_sh_dict(b, c, o, s1, seq![]);
            },
            _ => {},
        }
    }
}

pub proof fn lemma_sh_array(b: Seq<u8>, c: Seq<u8>, o: int, s: ParseState, acc: Seq<SpecObject>)
    requires
        is_suffix_at(b, c, o),
        c.len() <= usize::MAX,
        0 <= s.pos,
    ensures
        parse_array(b, s, acc) matches Some((Ok(x), s2)) ==> 0 <= s2.pos && parse_array(c, shift_state(s, o), acc) == Some(
            (Ok::<SpecObject, SpecError>(x), shift_state(s2, o)),
        ),
    decreases progress(b, s), 1int,
{
    lemma_sh_peek(b, c, o, s, 0);
    lemma_fill_got(b, s, 0);
    if let Some((Some(Ok(t)), s1)) = peek(b, s, 0) {
        if t == SpecToken::ArrayEnd {
            lemma_sh_drop(s1, o, 1);
        } else {
            lemma_peek_ok(b, s, 0);
            lemma_progress_nonneg(b, s1);
            lemma_sh_object(b, c, o, s1);
            if let Some((Ok(x), s2)) = parse_object(b, s1) {
                lemma_sh_progress(b, c, o, s2);
                lemma_sh_progress(b, c, o, s);
                crate::parser::lemmas::lemma_object_progress(b, s1);
                if 0 <= progress(b, s2) < progress(b, s) {
                    lemma_sh_array(b, c, o, s2, acc.push(x));
                }
            }
        }
    }
}

pub proof fn lemma_sh_dict(b: Seq<u8>, c: Seq<u8>, o: int, s: ParseState, acc: Seq<(Seq<u8>, SpecObject)>)
    requires
        is_suffix_at(b, c, o),
        c.len() <= usize::MAX,
        0 <= s.pos,
    ensures
        parse_dict(b, s, acc) matches Some((Ok(x), s2)) ==> 0 <= s2.pos && parse_dict(c, shift_state(s, o), acc) == Some(
            (Ok::<SpecObject, SpecError>(x), shift_state(s2, o)),
        ),
    decreases progress(b, s), 1int,
{
    lemma_sh_next_tok(b, c, o, s);
    lemma_next_tok_ok(b, s);
    if let Some((Some(Ok(SpecToken::Name(key))), s1)) = next_tok(b, s) {
        lemma_progress_nonneg(b, s1);
        lemma_sh_object(b, c, o, s1);
        if let Some((Ok(v), s2)) = parse_object(b, s1) {
            lemma_sh_progress(b, c, o, s2);
            lemma_sh_progress(b, c, o, s);
            if 0 <= progress(b, s2) < progress(b, s) {
                lemma_sh_dict(b, c, o, s2, acc.push((key, v)));
            }
        }
    }
}

pub proof fn lemma_sh_indirect(b: Seq<u8>, c: Seq<u8>, o: int, s: ParseState, num: i64, generation: i64)
    requires
        is_suffix_at(b, c, o),
        c.len() <= usize::MAX,
        0 <= s.pos,
    ensures
        parse_indirect(b, s, num, generation) matches Some((Ok(x), s2)) ==> 0 <= s2.pos && parse_indirect(
            c,
            shift_state(s, o),
            num,
            generation,
        ) == Some((Ok::<SpecObject, SpecError>(x), shift_state(s2, o))),
    decreases progress(b, s), 1int,
{
    lemma_sh_object(b, c, o, s);
    if let Some((Ok(value), s1)) = parse_object(b, s) {
        lemma_sh_next_tok(b, c, o, s1);
        if let Some((Some(Ok(SpecToken::Keyword(crate::token::Keyword::Stream))), s2)) = next_tok(b, s1) {
            if let SpecObject::Dictionary(dict) = value {
                lemma_sh_stream(b, c, o, s2, dict);
                if let Some((Ok(stream), s3)) = parse_stream(b, s2, dict) {
                    lemma_sh_next_tok(b, c, o, s3);
                }
            }
        }
    }
}

} // verus!
