//! A buffer followed by a line feed and more bytes: an object parsed without
//! error inside the first buffer is parsed the same inside the longer one,
//! unless its parse looked past the end (only an integer can do that) or a
//! name at the end meets a `#` with fewer than two bytes after it.
use vstd::prelude::*;
use crate::error::SpecError;
use crate::lexer::spec::{
    alpha_end, digit_end, hex_value, is_delimiter_byte, is_whitespace_byte, lex_hex, lex_literal, lex_name,
    lex_next, lex_token_at, read_stream, skip_trivia, starts_number,
};
use crate::object::SpecObject;
use crate::token::{Keyword, SpecToken};
use super::lemmas::{lemma_fill, lemma_lex_step, lemma_next_tok_ok, lemma_peek_ok, lemma_progress_nonneg, lemma_two_ahead};
use super::spec::{
    ParseOutcome, drop_queued, expect_endobj, fill, next_tok, parse_array, parse_dict, parse_indirect, parse_object,
    parse_stream, peek, progress, ParseState,
};

verus! {

/// `c` is `a` followed by a line feed and possibly more bytes.
pub open spec fn is_prefix_then_lf(a: Seq<u8>, c: Seq<u8>) -> bool {
    &&& c.len() > a.len()
    &&& c[a.len() as int] == 10
    &&& forall|i: int| 0 <= i < a.len() ==> c[i] == a[i]
}

/// `c` is `a` followed by a line feed and at least one more byte.
pub open spec fn is_ext(a: Seq<u8>, c: Seq<u8>) -> bool {
    is_prefix_then_lf(a, c) && c.len() >= a.len() + 2
}

/// Whether the bytes of a name read from `p` on meet a `#` with fewer than
/// two bytes of `a` after it: at the end of `a` that `#` is an ordinary byte,
/// but with more bytes after it, it starts a `#xy` escape.
pub open spec fn name_hits_end(a: Seq<u8>, p: int) -> bool
    decreases a.len() - p,
{
    if !(0 <= p < a.len()) {
        false
    } else {
        let x = a[p];
        if x == 0x23 && p + 2 < a.len() {
            if hex_value(a[p + 1]) is Some && hex_value(a[p + 2]) is Some {
                name_hits_end(a, p + 3)
            } else {
                false
            }
        } else if x == 0x23 {
            true
        } else if is_whitespace_byte(x) || is_delimiter_byte(x) {
            false
        } else {
            name_hits_end(a, p + 1)
        }
    }
}

/// The token that the lexer reads from `p` on (after white space and
/// comments) is a name that meets a `#` near the end of `a`.
pub open spec fn name_at_end(a: Seq<u8>, p: int) -> bool {
    let q = skip_trivia(a, p, false);
    0 <= q < a.len() && a[q] == 0x2f && name_hits_end(a, q + 1)
}

proof fn lemma_pf_skip(a: Seq<u8>, c: Seq<u8>, p: int, ic: bool)
    requires
        is_prefix_then_lf(a, c),
        0 <= p <= a.len(),
    ensures
        skip_trivia(a, p, ic) < a.len() ==> skip_trivia(c, p, ic) == skip_trivia(a, p, ic),
        skip_trivia(a, p, ic) >= a.len() ==> skip_trivia(c, p, ic) == skip_trivia(c, a.len() + 1int, false),
    decreases a.len() - p,
{
    if p < a.len() {
        assert(c[p] == a[p]);
        lemma_pf_skip(a, c, p + 1, true);
        lemma_pf_skip(a, c, p + 1, false);
    }
}

proof fn lemma_pf_literal(a: Seq<u8>, c: Seq<u8>, p: int, d: nat, acc: Seq<u8>)
    requires
        is_prefix_then_lf(a, c),
        0 <= p <= a.len(),
    ensures
        lex_literal(a, p, d, acc).0 is Ok ==> lex_literal(c, p, d, acc) == lex_literal(a, p, d, acc),
    decreases a.len() - p,
{
    if p < a.len() {
        let x = a[p];
        assert(c[p] == x);
        if p + 1 < a.len() {
            assert(c[p + 1] == a[p + 1]);
        }
        if x == 0x29 && d == 0 {
        } else if x == 0x28 {
            lemma_pf_literal(a, c, p + 1, d + 1, acc.push(x));
        } else if x == 0x29 {
            lemma_pf_literal(a, c, p + 1, (d - 1) as nat, acc.push(x));
        } else if x == 0x5c && p + 1 < a.len() {
            if let Some(e) = crate::lexer::spec::escaped_byte(a[p + 1]) {
                lemma_pf_literal(a, c, p + 2, d, acc.push(e));
            }
        } else {
            lemma_pf_literal(a, c, p + 1, d, acc.push(x));
        }
    }
}

proof fn lemma_pf_hex(a: Seq<u8>, c: Seq<u8>, p: int, acc: Seq<u8>, high: Option<u8>)
    requires
        is_prefix_then_lf(a, c),
        0 <= p <= a.len(),
    ensures
        lex_hex(a, p, acc, high).0 is Ok ==> lex_hex(c, p, acc, high) == lex_hex(a, p, acc, high),
    decreases a.len() - p,
{
    if p < a.len() {
        let x = a[p];
        assert(c[p] == x);
        lemma_pf_hex(a, c, p + 1, acc, high);
        if let Some(dg) = hex_value(x) {
            lemma_pf_hex(a, c, p + 1, acc, Some(dg));
            if let Some(h) = high {
                lemma_pf_hex(a, c, p + 1, acc.push((h * 16 + dg) as u8), None);
            }
        }
    }
}

proof fn lemma_pf_name(a: Seq<u8>, c: Seq<u8>, p: int, acc: Seq<u8>)
    requires
        is_ext(a, c),
        0 <= p <= a.len(),
    ensures
        lex_name(a, p, acc).0 is Ok ==> {
            &&& name_hits_end(a, p) ==> lex_name(c, p, acc).0 is Err
            &&& !name_hits_end(a, p) ==> lex_name(c, p, acc) == lex_name(a, p, acc)
        },
    decreases a.len() - p,
{
    if p < a.len() {
        let x = a[p];
        assert(c[p] == x);
        if p + 1 < a.len() {
            assert(c[p + 1] == a[p + 1]);
        }
        if p + 2 < a.len() {
            assert(c[p + 2] == a[p + 2]);
        }
        if x == 0x23 && p + 2 < a.len() {
            if let Some(h) = hex_value(a[p + 1]) {
                if let Some(l) = hex_value(a[p + 2]) {
                    lemma_pf_name(a, c, p + 3, acc.push((h * 16 + l) as u8));
                }
            }
        } else if x == 0x23 {
            assert(c[a.len() as int] == 10);
        } else {
            lemma_pf_name(a, c, p + 1, acc.push(x));
        }
    }
}

proof fn lemma_pf_alpha(a: Seq<u8>, c: Seq<u8>, p: int)
    requires
        is_prefix_then_lf(a, c),
        0 <= p <= a.len(),
    ensures
        alpha_end(c, p) == alpha_end(a, p),
        p <= alpha_end(a, p) <= a.len(),
    decreases a.len() - p,
{
    if p < a.len() {
        assert(c[p] == a[p]);
        lemma_pf_alpha(a, c, p + 1);
    }
}

proof fn lemma_pf_digits(a: Seq<u8>, c: Seq<u8>, p: int)
    requires
        is_prefix_then_lf(a, c),
        0 <= p <= a.len(),
    ensures
        digit_end(c, p) == digit_end(a, p),
        p <= digit_end(a, p) <= a.len(),
    decreases a.len() - p,
{
    if p < a.len() {
        assert(c[p] == a[p]);
        lemma_pf_digits(a, c, p + 1);
    }
}

proof fn lemma_pf_sub(a: Seq<u8>, c: Seq<u8>, i: int, j: int)
    requires
        is_prefix_then_lf(a, c),
        0 <= i <= j <= a.len(),
    ensures
        c.subrange(i, j) == a.subrange(i, j),
{
    assert(c.subrange(i, j) =~= a.subrange(i, j)) by {
        assert forall|k: int| 0 <= k < j - i implies c.subrange(i, j)[k] == a.subrange(i, j)[k] by {
            assert(c[i + k] == a[i + k]);
        }
    }
}

proof fn lemma_pf_token_at(a: Seq<u8>, c: Seq<u8>, p: int)
    requires
        is_ext(a, c),
        0 <= p < a.len(),
    ensures
        lex_token_at(a, p) matches Some((Ok(_), _)) ==> {
            &&& (a[p] == 0x2f && name_hits_end(a, p + 1)) ==> (lex_token_at(c, p) matches Some((Err(_), _)))
            &&& !(a[p] == 0x2f && name_hits_end(a, p + 1)) ==> lex_token_at(c, p) == lex_token_at(a, p)
        },
{
    let x = a[p];
    assert(c[p] == x);
    if p + 1 < a.len() {
        assert(c[p + 1] == a[p + 1]);
    }
    lemma_pf_literal(a, c, p + 1, 0, seq![]);
    lemma_pf_hex(a, c, p + 1, seq![], None);
    lemma_pf_name(a, c, p + 1, seq![]);
    lemma_pf_alpha(a, c, p);
    lemma_pf_sub(a, c, p, alpha_end(a, p));
    if starts_number(x) {
        let start = if x == 0x2d || x == 0x2b { p + 1 } else { p };
        lemma_pf_digits(a, c, start);
        let end = digit_end(a, start);
        lemma_pf_sub(a, c, start, end);
        if end < a.len() {
            assert(c[end] == a[end]);
            lemma_pf_digits(a, c, end + 1);
            lemma_pf_sub(a, c, end + 1, digit_end(a, end + 1));
        }
    }
}

/// Reading a token inside `c` where `a` has one is reading that token, unless
/// it is a name that meets a `#` near the end of `a`, which is an error inside
/// `c`; where `a` has reached its end, `c` goes on after the line feed.
pub proof fn lemma_pf_lex_next(a: Seq<u8>, c: Seq<u8>, p: int)
    requires
        is_ext(a, c),
        0 <= p <= a.len(),
    ensures
        lex_next(a, p) matches Some((Some(Ok(_)), q)) ==> {
            &&& name_at_end(a, p) ==> (lex_next(c, p) matches Some((Some(Err(_)), _)))
            &&& !name_at_end(a, p) ==> lex_next(c, p) == lex_next(a, p) && p < q <= a.len()
        },
        lex_next(a, p) matches Some((None, _)) ==> lex_next(c, p) == lex_next(c, a.len() + 1int),
{
    lemma_pf_skip(a, c, p, false);
    crate::lexer::lemmas::lemma_lex_next_bounds(a, p);
    let q = skip_trivia(a, p, false);
    if q < a.len() {
        crate::lexer::lemmas::lemma_skip_trivia_bounds(a, p, false);
        lemma_pf_token_at(a, c, q);
    }
}

proof fn lemma_pf_read_stream(a: Seq<u8>, c: Seq<u8>, p: int, l: int)
    requires
        is_prefix_then_lf(a, c),
        0 <= p <= a.len(),
        0 <= l,
    ensures
        read_stream(a, p, l) matches Some((Ok(d), q)) ==> (q < a.len() ==> read_stream(c, p, l) == read_stream(a, p, l)),
{
    if p < a.len() {
        assert(c[p] == a[p]);
    }
    if p + 1 < a.len() {
        assert(c[p + 1] == a[p + 1]);
    }
    let p1 = if 0 <= p < a.len() && a[p] == 13 { p + 1 } else { p };
    let p2 = if 0 <= p1 < a.len() && a[p1] == 10 { p1 + 1 } else { p1 };
    if p2 + l < a.len() {
        lemma_pf_sub(a, c, p2, p2 + l);
    }
}


/// Every token read ahead was read without error.
pub open spec fn all_ok(q: Seq<Result<SpecToken, SpecError>>) -> bool {
    forall|i: int| 0 <= i < q.len() ==> #[trigger] q[i] is Ok
}

/// A state in which a parse of `a` has looked past its end: the tokens read
/// ahead are integers, perhaps followed by one error, and without that error
/// the lexer stands at the end of `a`.
pub open spec fn past_end(a: Seq<u8>, s: ParseState) -> bool {
    &&& forall|i: int|
        0 <= i < s.queue.len() ==> (#[trigger] s.queue[i] matches Ok(SpecToken::Integer(_))) || (i == s.queue.len()
            - 1 && s.queue[i] is Err)
    &&& (s.queue.len() > 0 && s.queue.last() is Err) || lex_next(a, s.pos) matches Some((None, _))
}

proof fn lemma_past_end_next(a: Seq<u8>, s: ParseState)
    requires
        past_end(a, s),
    ensures
        next_tok(a, s) is Some,
        next_tok(a, s) matches Some((Some(Ok(t)), s1)) ==> t is Integer && past_end(a, s1),
{
    if s.queue.len() > 0 {
        let s1 = drop_queued(s, 1);
        assert forall|i: int| 0 <= i < s1.queue.len() implies (#[trigger] s1.queue[i] matches Ok(
            SpecToken::Integer(_),
        )) || (i == s1.queue.len() - 1 && s1.queue[i] is Err) by {
            assert(s1.queue[i] == s.queue[i + 1]);
        }
        if s.queue.len() > 1 {
            assert(s1.queue.last() == s.queue.last());
        }
    }
}

proof fn lemma_past_end_object(a: Seq<u8>, s: ParseState)
    requires
        past_end(a, s),
    ensures
        parse_object(a, s) matches Some((Ok(x), s2)) ==> x is Integer && past_end(a, s2),
{
    lemma_past_end_next(a, s);
    if let Some((Some(Ok(SpecToken::Integer(n))), s1)) = next_tok(a, s) {
        if s1.queue.len() >= 1 {
            assert(fill(a, s1, 0) == Some((true, s1)));
            if s1.queue[0] matches Ok(SpecToken::Integer(_)) {
                if s1.queue.len() >= 2 {
                    assert(fill(a, s1, 1) == Some((true, s1)));
                    assert(s1.queue[1] matches Ok(SpecToken::Integer(_)) || s1.queue[1] is Err);
                } else {
                    assert(s1.queue.last() == s1.queue[0]);
                    crate::laws::lemma_end_again(a, s1.pos);
                    if let Some((None, p)) = lex_next(a, s1.pos) {
                        let s3 = ParseState { pos: p, queue: s1.queue };
                        assert(fill(a, s1, 1) == Some((false, s3)));
                    }
                }
            }
        } else {
            crate::laws::lemma_end_again(a, s1.pos);
            if let Some((None, p)) = lex_next(a, s1.pos) {
                let s2 = ParseState { pos: p, queue: s1.queue };
                assert(fill(a, s1, 0) == Some((false, s2)));
            }
        }
    }
}

proof fn lemma_past_end_array(a: Seq<u8>, s: ParseState, acc: Seq<SpecObject>)
    requires
        past_end(a, s),
    ensures
        !(parse_array(a, s, acc) matches Some((Ok(_), _))),
    decreases progress(a, s), 1int,
{
    if s.queue.len() >= 1 {
        assert(fill(a, s, 0) == Some((true, s)));
        if s.queue[0] is Ok {
            lemma_past_end_object(a, s);
            if let Some((Ok(o), s2)) = parse_object(a, s) {
                if 0 <= progress(a, s2) < progress(a, s) {
                    lemma_past_end_array(a, s2, acc.push(o));
                }
            }
        }
    } else {
        if let Some((None, p)) = lex_next(a, s.pos) {
            assert(fill(a, s, 0) == Some((false, ParseState { pos: p, queue: s.queue })));
        }
    }
}

/// An outcome that is not an object parsed without error.
pub open spec fn not_ok(r: ParseOutcome) -> bool {
    !(r matches Some((Ok(_), _)))
}

/// An outcome that, if it is an object, is an integer whose parse looked
/// past the end or kept an error read ahead.
pub open spec fn int_past_end(buf: Seq<u8>, r: ParseOutcome) -> bool {
    r matches Some((Ok(y), s3)) ==> y is Integer && past_end(buf, s3)
}

/// `c` and `d` both give what `a` gives.
pub open spec fn same3<T>(ra: T, rc: T, rd: T) -> bool {
    rc == ra && rd == ra
}

proof fn lemma_pf_next(a: Seq<u8>, c: Seq<u8>, d: Seq<u8>, s: ParseState)
    requires
        is_ext(a, c),
        is_ext(a, d),
        0 <= s.pos <= a.len(),
        all_ok(s.queue),
    ensures
        next_tok(a, s) matches Some((Some(Ok(_)), s1)) ==> {
            ||| same3(next_tok(a, s), next_tok(c, s), next_tok(d, s)) && 0 <= s1.pos <= a.len() && all_ok(s1.queue)
            ||| (next_tok(c, s) matches Some((Some(Err(_)), _))) && (next_tok(d, s) matches Some((Some(Err(_)), _)))
        },
{
    if s.queue.len() > 0 {
        let s1 = drop_queued(s, 1);
        assert forall|i: int| 0 <= i < s1.queue.len() implies #[trigger] s1.queue[i] is Ok by {
            assert(s1.queue[i] == s.queue[i + 1]);
        }
    } else {
        lemma_pf_lex_next(a, c, s.pos);
        lemma_pf_lex_next(a, d, s.pos);
    }
}

/// Reading one token ahead from an empty queue.
proof fn lemma_fill_one(buf: Seq<u8>, s: ParseState, n: nat)
    requires
        s.queue.len() == n,
    ensures
        lex_next(buf, s.pos) matches Some((Some(t), p)) ==> fill(buf, s, n) == Some(
            (true, ParseState { pos: p, queue: s.queue.push(t) }),
        ),
        lex_next(buf, s.pos) matches Some((None, p)) ==> fill(buf, s, n) == Some(
            (false, ParseState { pos: p, queue: s.queue }),
        ),
{
    if let Some((Some(t), p)) = lex_next(buf, s.pos) {
        let s1 = ParseState { pos: p, queue: s.queue.push(t) };
        assert(fill(buf, s1, n) == Some((true, s1)));
    }
}

proof fn lemma_pf_peek0(a: Seq<u8>, c: Seq<u8>, d: Seq<u8>, s: ParseState)
    requires
        is_ext(a, c),
        is_ext(a, d),
        0 <= s.pos <= a.len(),
        all_ok(s.queue),
    ensures
        peek(a, s, 0) matches Some((Some(Ok(_)), s1)) ==> {
            ||| same3(peek(a, s, 0), peek(c, s, 0), peek(d, s, 0)) && 0 <= s1.pos <= a.len() && all_ok(s1.queue)
            ||| (peek(c, s, 0) matches Some((Some(Err(_)), _))) && (peek(d, s, 0) matches Some((Some(Err(_)), _)))
        },
{
    if s.queue.len() > 0 {
        assert(fill(a, s, 0) == Some((true, s)));
        assert(fill(c, s, 0) == Some((true, s)));
        assert(fill(d, s, 0) == Some((true, s)));
    } else {
        lemma_pf_lex_next(a, c, s.pos);
        lemma_pf_lex_next(a, d, s.pos);
        lemma_fill_one(a, s, 0);
        lemma_fill_one(c, s, 0);
        lemma_fill_one(d, s, 0);
        if let Some((Some(t), p)) = lex_next(a, s.pos) {
            let s1 = ParseState { pos: p, queue: s.queue.push(t) };
            if t is Ok {
                assert(all_ok(s1.queue)) by {
                    assert(s1.queue[0] == t);
                }
            }
        }
    }
}

proof fn lemma_pf_progress(a: Seq<u8>, c: Seq<u8>, s: ParseState)
    requires
        is_prefix_then_lf(a, c),
        0 <= s.pos <= a.len(),
    ensures
        progress(c, s) == progress(a, s) + 3 * (c.len() - a.len()),
{
}

/// An object parsed without error inside `a` is parsed the same inside `c`
/// and `d`; or it is an integer whose parse looked past the end of `a`; or a
/// name that meets a `#` near the end of `a` makes the parse fail inside
/// both `c` and `d`, or leaves there an integer with that error read ahead.
pub proof fn lemma_pf_object(a: Seq<u8>, c: Seq<u8>, d: Seq<u8>, s: ParseState)
    requires
        is_ext(a, c),
        is_ext(a, d),
        0 <= s.pos <= a.len(),
        all_ok(s.queue),
    ensures
        parse_object(a, s) matches Some((Ok(x), s2)) ==> {
            ||| same3(parse_object(a, s), parse_object(c, s), parse_object(d, s)) && 0 <= s2.pos <= a.len()
                && all_ok(s2.queue)
            ||| x is Integer && past_end(a, s2)
            ||| not_ok(parse_object(c, s)) && not_ok(parse_object(d, s))
            ||| x is Integer && int_past_end(c, parse_object(c, s)) && int_past_end(d, parse_object(d, s))
        },
    decreases progress(a, s), 4int,
{
    lemma_pf_next(a, c, d, s);
    lemma_next_tok_ok(a, s);
    if let Some((Some(Ok(t)), s1)) = next_tok(a, s) {
        lemma_progress_nonneg(a, s1);
        if next_tok(c, s) == next_tok(a, s) && next_tok(d, s) == next_tok(a, s) {
            match t {
                SpecToken::Integer(n) => {
                    lemma_pf_integer(a, c, d, s, s1, n);
                },
                SpecToken::ArrayBegin => {
                    lemma_pf_array(a, c, d, s1, seq![]);
                },
                SpecToken::DictBegin => {
                    lemma_pf_dict(a, c, d, s1, seq![]);
                },
                _ => {},
            }
        }
    }
}

proof fn lemma_pf_integer(a: Seq<u8>, c: Seq<u8>, d: Seq<u8>, s: ParseState, s1: ParseState, n: i64)
    requires
        is_ext(a, c),
        is_ext(a, d),
        0 <= s.pos <= a.len(),
        all_ok(s.queue),
        next_tok(a, s) == Some((Some(Ok::<SpecToken, SpecError>(SpecToken::Integer(n))), s1)),
        next_tok(c, s) == next_tok(a, s),
        next_tok(d, s) == next_tok(a, s),
        0 <= s1.pos <= a.len(),
        all_ok(s1.queue),
        progress(a, s1) + 2 <= progress(a, s),
    ensures
        parse_object(a, s) matches Some((Ok(x), s2)) ==> {
            ||| same3(parse_object(a, s), parse_object(c, s), parse_object(d, s)) && 0 <= s2.pos <= a.len()
                && all_ok(s2.queue)
            ||| x is Integer && past_end(a, s2)
            ||| not_ok(parse_object(c, s)) && not_ok(parse_object(d, s))
            ||| x is Integer && int_past_end(c, parse_object(c, s)) && int_past_end(d, parse_object(d, s))
        },
    decreases progress(a, s), 3int,
{
    lemma_fill(a, s1, 0);
    if s1.queue.len() == 0 {
        crate::laws::lemma_end_again(a, s1.pos);
        lemma_fill_one(a, s1, 0);
        lemma_fill_one(c, s1, 0);
        lemma_fill_one(d, s1, 0);
        lemma_pf_lex_next(a, c, s1.pos);
        lemma_pf_lex_next(a, d, s1.pos);
        match lex_next(a, s1.pos) {
            Some((None, p)) => {
                assert(past_end(a, ParseState { pos: p, queue: s1.queue }));
            },
            Some((Some(t0), p)) => {
                let s2 = ParseState { pos: p, queue: s1.queue.push(t0) };
                if t0 is Err {
                    assert(past_end(a, s2));
                } else if name_at_end(a, s1.pos) {
                    lemma_err_ahead(c, s, s1, n);
                    lemma_err_ahead(d, s, s1, n);
                } else {
                    assert(all_ok(s2.queue)) by {
                        assert(s2.queue[0] == t0);
                    }
                    lemma_pf_second(a, c, d, s, s1, s2, n);
                }
            },
            None => {},
        }
    } else {
        assert(fill(a, s1, 0) == Some((true, s1)));
        assert(fill(c, s1, 0) == Some((true, s1)));
        assert(fill(d, s1, 0) == Some((true, s1)));
        lemma_pf_second(a, c, d, s, s1, s1, n);
    }
}

/// Inside `buf`, reading ahead after the integer `n` meets an error: the
/// integer stands alone, with the error kept.
proof fn lemma_err_ahead(buf: Seq<u8>, s: ParseState, s1: ParseState, n: i64)
    requires
        next_tok(buf, s) == Some((Some(Ok::<SpecToken, SpecError>(SpecToken::Integer(n))), s1)),
        s1.queue.len() == 0,
        lex_next(buf, s1.pos) matches Some((Some(Err(_)), _)),
    ensures
        int_past_end(buf, parse_object(buf, s)),
{
    lemma_fill_one(buf, s1, 0);
    if let Some((Some(t0), p)) = lex_next(buf, s1.pos) {
        let s2 = ParseState { pos: p, queue: s1.queue.push(t0) };
        assert(s2.queue.last() == t0);
        assert(s2.queue[0] == t0);
        assert(past_end(buf, s2));
    }
}

proof fn lemma_pf_second(
    a: Seq<u8>,
    c: Seq<u8>,
    d: Seq<u8>,
    s: ParseState,
    s1: ParseState,
    s2: ParseState,
    n: i64,
)
    requires
        is_ext(a, c),
        is_ext(a, d),
        next_tok(a, s) == Some((Some(Ok::<SpecToken, SpecError>(SpecToken::Integer(n))), s1)),
        next_tok(c, s) == next_tok(a, s),
        next_tok(d, s) == next_tok(a, s),
        fill(a, s1, 0) == Some((true, s2)),
        fill(c, s1, 0) == Some((true, s2)),
        fill(d, s1, 0) == Some((true, s2)),
        s2.queue.len() >= 1,
        0 <= s2.pos <= a.len(),
        all_ok(s2.queue),
        progress(a, s1) + 2 <= progress(a, s),
        progress(a, s2) <= progress(a, s1),
    ensures
        parse_object(a, s) matches Some((Ok(x), s3)) ==> {
            ||| same3(parse_object(a, s), parse_object(c, s), parse_object(d, s)) && 0 <= s3.pos <= a.len()
                && all_ok(s3.queue)
            ||| x is Integer && past_end(a, s3)
            ||| not_ok(parse_object(c, s)) && not_ok(parse_object(d, s))
            ||| x is Integer && int_past_end(c, parse_object(c, s)) && int_past_end(d, parse_object(d, s))
        },
    decreases progress(a, s), 2int,
{
    if let Ok(SpecToken::Integer(g)) = s2.queue[0] {
        lemma_fill(a, s2, 1);
        lemma_two_ahead(a, s1);
        if s2.queue.len() == 1 {
            crate::laws::lemma_end_again(a, s2.pos);
            lemma_fill_one(a, s2, 1);
            lemma_fill_one(c, s2, 1);
            lemma_fill_one(d, s2, 1);
            lemma_pf_lex_next(a, c, s2.pos);
            lemma_pf_lex_next(a, d, s2.pos);
            match lex_next(a, s2.pos) {
                Some((None, p)) => {
                    let s3 = ParseState { pos: p, queue: s2.queue };
                    assert(s3.queue.last() == s3.queue[0]);
                    assert(past_end(a, s3));
                },
                Some((Some(t1), p)) => {
                    let s3 = ParseState { pos: p, queue: s2.queue.push(t1) };
                    assert(s3.queue[0] == s2.queue[0]);
                    if t1 is Err {
                        assert(past_end(a, s3));
                    } else if name_at_end(a, s2.pos) {
                        lemma_err_second(c, s, s1, s2, n, g);
                        lemma_err_second(d, s, s1, s2, n, g);
                    } else {
                        assert(all_ok(s3.queue)) by {
                            assert(s3.queue[1] == t1);
                        }
                        lemma_pf_third(a, c, d, s, s1, s2, s3, n, g);
                    }
                },
                None => {},
            }
        } else {
            assert(fill(a, s2, 1) == Some((true, s2)));
            assert(fill(c, s2, 1) == Some((true, s2)));
            assert(fill(d, s2, 1) == Some((true, s2)));
            lemma_pf_third(a, c, d, s, s1, s2, s2, n, g);
        }
    }
}

/// Inside `buf`, reading the second token ahead after two integers meets an
/// error: the first integer stands alone, with the second and the error kept.
proof fn lemma_err_second(buf: Seq<u8>, s: ParseState, s1: ParseState, s2: ParseState, n: i64, g: i64)
    requires
        next_tok(buf, s) == Some((Some(Ok::<SpecToken, SpecError>(SpecToken::Integer(n))), s1)),
        fill(buf, s1, 0) == Some((true, s2)),
        s2.queue.len() == 1,
        s2.queue[0] == Ok::<SpecToken, SpecError>(SpecToken::Integer(g)),
        lex_next(buf, s2.pos) matches Some((Some(Err(_)), _)),
    ensures
        int_past_end(buf, parse_object(buf, s)),
{
    lemma_fill_one(buf, s2, 1);
    if let Some((Some(t1), p)) = lex_next(buf, s2.pos) {
        let s3 = ParseState { pos: p, queue: s2.queue.push(t1) };
        assert(s3.queue[0] == s2.queue[0]);
        assert(s3.queue[1] == t1);
        assert(s3.queue.last() == t1);
        assert(past_end(buf, s3));
    }
}

proof fn lemma_pf_third(
    a: Seq<u8>,
    c: Seq<u8>,
    d: Seq<u8>,
    s: ParseState,
    s1: ParseState,
    s2: ParseState,
    s3: ParseState,
    n: i64,
    g: i64,
)
    requires
        is_ext(a, c),
        is_ext(a, d),
        next_tok(a, s) == Some((Some(Ok::<SpecToken, SpecError>(SpecToken::Integer(n))), s1)),
        next_tok(c, s) == next_tok(a, s),
        next_tok(d, s) == next_tok(a, s),
        fill(a, s1, 0) == Some((true, s2)),
        fill(c, s1, 0) == Some((true, s2)),
        fill(d, s1, 0) == Some((true, s2)),
        s2.queue[0] == Ok::<SpecToken, SpecError>(SpecToken::Integer(g)),
        fill(a, s2, 1) == Some((true, s3)),
        fill(c, s2, 1) == Some((true, s3)),
        fill(d, s2, 1) == Some((true, s3)),
        s3.queue.len() >= 2,
        0 <= s3.pos <= a.len(),
        all_ok(s3.queue),
        s3.queue[0] == s2.queue[0],
        progress(a, drop_queued(s3, 2)) + 4 <= progress(a, s1),
        progress(a, s1) + 2 <= progress(a, s),
    ensures
        parse_object(a, s) matches Some((Ok(x), s4)) ==> {
            ||| same3(parse_object(a, s), parse_object(c, s), parse_object(d, s)) && 0 <= s4.pos <= a.len()
                && all_ok(s4.queue)
            ||| x is Integer && past_end(a, s4)
            ||| not_ok(parse_object(c, s)) && not_ok(parse_object(d, s))
            ||| x is Integer && int_past_end(c, parse_object(c, s)) && int_past_end(d, parse_object(d, s))
        },
    decreases progress(a, s), 1int,
{
    let dq = drop_queued(s3, 2);
    assert forall|i: int| 0 <= i < dq.queue.len() implies #[trigger] dq.queue[i] is Ok by {
        assert(dq.queue[i] == s3.queue[i + 2]);
    }
    if s3.queue[1] == Ok::<SpecToken, SpecError>(SpecToken::Keyword(Keyword::Obj)) {
        lemma_progress_nonneg(a, dq);
        lemma_pf_indirect(a, c, d, dq, n, g);
    }
}

proof fn lemma_array_step(buf: Seq<u8>, s: ParseState, s1: ParseState, acc: Seq<SpecObject>)
    requires
        peek(buf, s, 0) matches Some((Some(Ok(t)), q)) && q == s1 && t != SpecToken::ArrayEnd,
        int_past_end(buf, parse_object(buf, s1)) || not_ok(parse_object(buf, s1)),
    ensures
        not_ok(parse_array(buf, s, acc)),
{
    if let Some((Ok(y), s3)) = parse_object(buf, s1) {
        if 0 <= progress(buf, s3) < progress(buf, s) {
            lemma_past_end_array(buf, s3, acc.push(y));
        }
    }
}

proof fn lemma_pf_array(a: Seq<u8>, c: Seq<u8>, d: Seq<u8>, s: ParseState, acc: Seq<SpecObject>)
    requires
        is_ext(a, c),
        is_ext(a, d),
        0 <= s.pos <= a.len(),
        all_ok(s.queue),
    ensures
        parse_array(a, s, acc) matches Some((Ok(_), s2)) ==> {
            ||| same3(parse_array(a, s, acc), parse_array(c, s, acc), parse_array(d, s, acc)) && 0 <= s2.pos
                <= a.len() && all_ok(s2.queue)
            ||| not_ok(parse_array(c, s, acc)) && not_ok(parse_array(d, s, acc))
        },
    decreases progress(a, s), 5int,
{
    lemma_fill(a, s, 0);
    lemma_pf_peek0(a, c, d, s);
    if let Some((Some(Ok(t)), s1)) = peek(a, s, 0) {
        if peek(c, s, 0) == peek(a, s, 0) && peek(d, s, 0) == peek(a, s, 0) {
            if t == SpecToken::ArrayEnd {
                let dq = drop_queued(s1, 1);
                assert forall|i: int| 0 <= i < dq.queue.len() implies #[trigger] dq.queue[i] is Ok by {
                    assert(dq.queue[i] == s1.queue[i + 1]);
                }
            } else {
                lemma_peek_ok(a, s, 0);
                lemma_progress_nonneg(a, s1);
                lemma_pf_object(a, c, d, s1);
                if let Some((Ok(x), s2)) = parse_object(a, s1) {
                    if same3(parse_object(a, s1), parse_object(c, s1), parse_object(d, s1)) && 0 <= s2.pos <= a.len()
                        && all_ok(s2.queue) {
                        lemma_pf_progress(a, c, s);
                        lemma_pf_progress(a, c, s2);
                        lemma_pf_progress(a, d, s);
                        lemma_pf_progress(a, d, s2);
                        if 0 <= progress(a, s2) < progress(a, s) {
                            lemma_pf_array(a, c, d, s2, acc.push(x));
                        }
                    } else if x is Integer && past_end(a, s2) {
                        if 0 <= progress(a, s2) < progress(a, s) {
                            lemma_past_end_array(a, s2, acc.push(x));
                        }
                    } else {
                        lemma_array_step(c, s, s1, acc);
                        lemma_array_step(d, s, s1, acc);
                    }
                }
            }
        }
    }
}

proof fn lemma_dict_step(buf: Seq<u8>, s: ParseState, s1: ParseState, key: Seq<u8>, acc: Seq<(Seq<u8>, SpecObject)>)
    requires
        next_tok(buf, s) == Some((Some(Ok::<SpecToken, SpecError>(SpecToken::Name(key))), s1)),
        int_past_end(buf, parse_object(buf, s1)) || not_ok(parse_object(buf, s1)),
    ensures
        not_ok(parse_dict(buf, s, acc)),
{
    if let Some((Ok(y), s3)) = parse_object(buf, s1) {
        lemma_past_end_next(buf, s3);
        assert(not_ok(parse_dict(buf, s3, acc.push((key, y)))));
    }
}

proof fn lemma_pf_dict(a: Seq<u8>, c: Seq<u8>, d: Seq<u8>, s: ParseState, acc: Seq<(Seq<u8>, SpecObject)>)
    requires
        is_ext(a, c),
        is_ext(a, d),
        0 <= s.pos <= a.len(),
        all_ok(s.queue),
    ensures
        parse_dict(a, s, acc) matches Some((Ok(_), s2)) ==> {
            ||| same3(parse_dict(a, s, acc), parse_dict(c, s, acc), parse_dict(d, s, acc)) && 0 <= s2.pos <= a.len()
                && all_ok(s2.queue)
            ||| not_ok(parse_dict(c, s, acc)) && not_ok(parse_dict(d, s, acc))
        },
    decreases progress(a, s), 5int,
{
    lemma_pf_next(a, c, d, s);
    lemma_next_tok_ok(a, s);
    if let Some((Some(Ok(SpecToken::Name(key))), s1)) = next_tok(a, s) {
        if next_tok(c, s) == next_tok(a, s) && next_tok(d, s) == next_tok(a, s) {
            lemma_progress_nonneg(a, s1);
            lemma_pf_object(a, c, d, s1);
            if let Some((Ok(v), s2)) = parse_object(a, s1) {
                if same3(parse_object(a, s1), parse_object(c, s1), parse_object(d, s1)) && 0 <= s2.pos <= a.len()
                    && all_ok(s2.queue) {
                    lemma_pf_progress(a, c, s);
                    lemma_pf_progress(a, c, s2);
                    lemma_pf_progress(a, d, s);
                    lemma_pf_progress(a, d, s2);
                    if 0 <= progress(a, s2) < progress(a, s) {
                        lemma_pf_dict(a, c, d, s2, acc.push((key, v)));
                    }
                } else if v is Integer && past_end(a, s2) {
                    lemma_past_end_next(a, s2);
                    assert(not_ok(parse_dict(a, s2, acc.push((key, v)))));
                } else {
                    lemma_dict_step(c, s, s1, key, acc);
                    lemma_dict_step(d, s, s1, key, acc);
                }
            }
        }
    }
}

proof fn lemma_indirect_step(buf: Seq<u8>, s: ParseState, num: i64, generation: i64)
    requires
        int_past_end(buf, parse_object(buf, s)) || not_ok(parse_object(buf, s)),
    ensures
        not_ok(parse_indirect(buf, s, num, generation)),
{
    if let Some((Ok(y), s3)) = parse_object(buf, s) {
        lemma_past_end_next(buf, s3);
    }
}

proof fn lemma_pf_indirect(a: Seq<u8>, c: Seq<u8>, d: Seq<u8>, s: ParseState, num: i64, generation: i64)
    requires
        is_ext(a, c),
        is_ext(a, d),
        0 <= s.pos <= a.len(),
        all_ok(s.queue),
    ensures
        parse_indirect(a, s, num, generation) matches Some((Ok(_), s2)) ==> {
            ||| same3(
                parse_indirect(a, s, num, generation),
                parse_indirect(c, s, num, generation),
                parse_indirect(d, s, num, generation),
            ) && 0 <= s2.pos <= a.len() && all_ok(s2.queue)
            ||| not_ok(parse_indirect(c, s, num, generation)) && not_ok(parse_indirect(d, s, num, generation))
        },
    decreases progress(a, s), 5int,
{
    lemma_pf_object(a, c, d, s);
    if let Some((Ok(value), s1)) = parse_object(a, s) {
        if same3(parse_object(a, s), parse_object(c, s), parse_object(d, s)) && 0 <= s1.pos <= a.len() && all_ok(
            s1.queue,
        ) {
            lemma_pf_next(a, c, d, s1);
            if let Some((Some(Ok(SpecToken::Keyword(Keyword::Stream))), s2)) = next_tok(a, s1) {
                if next_tok(c, s1) == next_tok(a, s1) && next_tok(d, s1) == next_tok(a, s1) {
                    if let SpecObject::Dictionary(dict) = value {
                        lemma_pf_stream(a, c, d, s2, dict);
                        if let Some((Ok(stream), s3)) = parse_stream(a, s2, dict) {
                            if same3(parse_stream(a, s2, dict), parse_stream(c, s2, dict), parse_stream(d, s2, dict)) {
                                lemma_pf_next(a, c, d, s3);
                            }
                        }
                    }
                }
            }
        } else if value is Integer && past_end(a, s1) {
            lemma_past_end_next(a, s1);
        } else {
            lemma_indirect_step(c, s, num, generation);
            lemma_indirect_step(d, s, num, generation);
        }
    }
}

proof fn lemma_pf_stream(a: Seq<u8>, c: Seq<u8>, d: Seq<u8>, s: ParseState, dict: Seq<(Seq<u8>, SpecObject)>)
    requires
        is_ext(a, c),
        is_ext(a, d),
        0 <= s.pos <= a.len(),
        all_ok(s.queue),
    ensures
        parse_stream(a, s, dict) matches Some((Ok(_), s2)) ==> {
            ||| same3(parse_stream(a, s, dict), parse_stream(c, s, dict), parse_stream(d, s, dict)) && 0 <= s2.pos
                <= a.len() && all_ok(s2.queue)
            ||| not_ok(parse_stream(c, s, dict)) && not_ok(parse_stream(d, s, dict))
        },
{
    if let Some(SpecObject::Integer(n)) = crate::object::dict_lookup(dict, super::spec::length_key()) {
        let l = (n as usize) as int;
        lemma_pf_read_stream(a, c, s.pos, l);
        lemma_pf_read_stream(a, d, s.pos, l);
        if let Some((Ok(dt), p)) = read_stream(a, s.pos, l) {
            let e = ParseState { pos: p, queue: seq![] };
            if p >= a.len() {
                assert(skip_trivia(a, p, false) == p);
            } else {
                lemma_pf_next(a, c, d, e);
            }
        }
    }
}

} // verus!
