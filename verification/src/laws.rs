//! Properties of the lexer and the parser over all inputs and all states.
use vstd::prelude::*;
use crate::lexer::lemmas::{lemma_lex_next_bounds, lemma_skip_trivia_bounds};
use crate::lexer::spec::{digit_end, digits_value, is_digit_byte, lex_number, is_delimiter_byte, is_eol_byte, is_whitespace_byte, lex_next, skip_trivia, SpecLexed};
use crate::error::SpecError;
use crate::token::SpecToken;
use crate::object::SpecObject;
use crate::parser::lemmas::lemma_object_progress;
use crate::parser::prefix::{is_ext, is_prefix_then_lf, lemma_pf_lex_next, lemma_pf_object};
use crate::parser::shift::{is_suffix_at, lemma_sh_next_tok, lemma_sh_object, shift_state};
use crate::parser::spec::{drop_queued, fill, next_tok, parse_object, progress, ParseState};

verus! {

/// Reading a token never moves the lexer backwards or past the end of its
/// input, and a token read without error takes at least one byte.
pub proof fn law_lexing_consumes_input(buf: Seq<u8>, pos: int)
    requires
        0 <= pos <= buf.len(),
    ensures
        lex_next(buf, pos) matches Some((t, q)) ==> {
            &&& pos <= q <= buf.len()
            &&& (t matches Some(Ok(_)) ==> pos < q)
        },
{
    lemma_lex_next_bounds(buf, pos);
}

/// Once the lexer has reported the end of its input, it keeps reporting it
/// and stays where it is.
pub proof fn law_end_of_input_is_stable(buf: Seq<u8>, pos: int)
    requires
        0 <= pos <= buf.len(),
    ensures
        lex_next(buf, pos) matches Some((None, q)) ==> lex_next(buf, q) == Some(
            (None::<Result<crate::token::SpecToken, crate::error::SpecError>>, q),
        ),
{
    lemma_skip_trivia_bounds(buf, pos, false);
    let p = skip_trivia(buf, pos, false);
    if p >= buf.len() {
        assert(skip_trivia(buf, p, false) == p);
    }
}

/// No byte is both white space and a delimiter, so a name or a keyword ends
/// at the first byte of either kind.
pub proof fn law_delimiters_are_not_whitespace(c: u8)
    ensures
        !(is_delimiter_byte(c) && is_whitespace_byte(c)),
{
}

/// The lexer reports the end of its input exactly when only white space and
/// comments are left, and then it stands at the end.
pub proof fn law_end_of_input_is_only_trivia(buf: Seq<u8>, pos: int)
    requires
        0 <= pos <= buf.len(),
    ensures
        (lex_next(buf, pos) matches Some((None, _))) <==> skip_trivia(buf, pos, false) == buf.len(),
        lex_next(buf, pos) matches Some((None, q)) ==> q == buf.len(),
{
    crate::lexer::lemmas::lemma_skip_trivia_bounds(buf, pos, false);
}

/// `digit_end` stops after a run of digits at the first other byte.
proof fn lemma_digit_run(buf: Seq<u8>, r: int, q: int)
    requires
        0 <= r <= q <= buf.len(),
        forall|i: int| r <= i < q ==> is_digit_byte(#[trigger] buf[i]),
        q == buf.len() || !is_digit_byte(buf[q]),
    ensures
        digit_end(buf, r) == q,
    decreases q - r,
{
    if r < q {
        lemma_digit_run(buf, r + 1, q);
    }
}

proof fn lemma_signed_run(s: Seq<u8>, rest: Seq<u8>, pre: Seq<u8>)
    requires
        s.len() > 0,
        forall|i: int| 0 <= i < s.len() ==> is_digit_byte(#[trigger] s[i]),
        rest.len() == 0 || (!is_digit_byte(rest[0]) && rest[0] != 0x2e),
    ensures
        ({
            let buf = pre + s + rest;
            &&& digit_end(buf, pre.len() as int) == pre.len() + s.len()
            &&& buf.subrange(pre.len() as int, pre.len() + s.len() as int) == s
            &&& !(pre.len() + s.len() < buf.len() && buf[pre.len() + s.len() as int] == 0x2e)
        }),
{
    let buf = pre + s + rest;
    let st = pre.len() as int;
    let e = st + s.len();
    assert forall|i: int| st <= i < e implies is_digit_byte(#[trigger] buf[i]) by {
        assert(buf[i] == s[i - st]);
    }
    if e < buf.len() {
        assert(buf[e] == rest[0]);
    }
    lemma_digit_run(buf, st, e);
    assert(buf.subrange(st, e) =~= s);
}

/// A run of decimal digits with value `v` up to `i64::MAX`, followed by
/// nothing or by a byte that is neither a digit nor `.`, is the integer `v`;
/// with `+` before it, still `v`; with `-` before it, `-v`. Each time the
/// lexer stops where the rest begins.
pub proof fn law_integer_literals(s: Seq<u8>, rest: Seq<u8>)
    requires
        s.len() > 0,
        forall|i: int| 0 <= i < s.len() ==> 0x30 <= #[trigger] s[i] <= 0x39,
        digits_value(s) <= i64::MAX,
        rest.len() == 0 || (!(0x30 <= rest[0] <= 0x39) && rest[0] != 0x2e),
    ensures
        lex_number(s + rest, 0) == Some(
            (Ok::<SpecToken, SpecError>(SpecToken::Integer(digits_value(s) as i64)), s.len() as int),
        ),
        lex_number(seq![0x2bu8] + s + rest, 0) == Some(
            (Ok::<SpecToken, SpecError>(SpecToken::Integer(digits_value(s) as i64)), s.len() + 1int),
        ),
        lex_number(seq![0x2du8] + s + rest, 0) == Some(
            (Ok::<SpecToken, SpecError>(SpecToken::Integer((-digits_value(s)) as i64)), s.len() + 1int),
        ),
{
    lemma_digits_value_nonneg(s);
    lemma_signed_run(s, rest, seq![]);
    assert(seq![] + s + rest =~= s + rest);
    assert((s + rest)[0] == s[0]);
    lemma_signed_run(s, rest, seq![0x2bu8]);
    assert((seq![0x2bu8] + s + rest)[0] == 0x2b);
    lemma_signed_run(s, rest, seq![0x2du8]);
    assert((seq![0x2du8] + s + rest)[0] == 0x2d);
}

proof fn lemma_digits_value_nonneg(s: Seq<u8>)
    requires
        forall|i: int| 0 <= i < s.len() ==> is_digit_byte(#[trigger] s[i]),
    ensures
        digits_value(s) >= 0,
    decreases s.len(),
{
    if s.len() > 0 {
        lemma_digits_value_nonneg(s.drop_last());
    }
}

/// Skipping white space and comments twice is skipping them once.
proof fn lemma_skip_trivia_idempotent(buf: Seq<u8>, pos: int, in_comment: bool)
    requires
        0 <= pos <= buf.len(),
    ensures
        skip_trivia(buf, skip_trivia(buf, pos, in_comment), false) == skip_trivia(buf, pos, in_comment),
    decreases buf.len() - pos,
{
    if pos < buf.len() {
        if in_comment {
            lemma_skip_trivia_idempotent(buf, pos + 1, !is_eol_byte(buf[pos]));
        } else if is_whitespace_byte(buf[pos]) {
            lemma_skip_trivia_idempotent(buf, pos + 1, false);
        } else if buf[pos] == 0x25 {
            lemma_skip_trivia_idempotent(buf, pos + 1, true);
        }
    }
}

/// White space and comments before a token change neither the token nor
/// where the lexer stops after it.
pub proof fn law_trivia_is_ignored(buf: Seq<u8>, pos: int)
    requires
        0 <= pos <= buf.len(),
    ensures
        lex_next(buf, pos) == lex_next(buf, skip_trivia(buf, pos, false)),
{
    lemma_skip_trivia_idempotent(buf, pos, false);
}

/// The first `k` tokens that a parser takes from state `s`, one `next_token`
/// after another; `None` when the lexer's arithmetic would overflow first.
pub open spec fn take_tokens(buf: Seq<u8>, s: ParseState, k: nat) -> Option<Seq<SpecLexed>>
    decreases k,
{
    if k == 0 {
        Some(seq![])
    } else {
        match next_tok(buf, s) {
            None => None,
            Some((t, s1)) => match take_tokens(buf, s1, (k - 1) as nat) {
                None => None,
                Some(ts) => Some(seq![t] + ts),
            },
        }
    }
}

/// `s2` is `s` with `m` more tokens lexed into the queue, and possibly the
/// end of the input reached after them.
spec fn read_ahead(buf: Seq<u8>, s: ParseState, s2: ParseState, m: nat) -> bool
    decreases m,
{
    if m == 0 {
        s2 == s || (lex_next(buf, s.pos) matches Some((None, p)) && s2 == ParseState {
            pos: p,
            queue: s.queue,
        })
    } else {
        match lex_next(buf, s.pos) {
            Some((Some(t), p)) => read_ahead(buf, ParseState { pos: p, queue: s.queue.push(t) }, s2, (m - 1) as nat),
            _ => false,
        }
    }
}

/// Once the lexer reports the end of its input, it reports it again from where it stopped.
pub proof fn lemma_end_again(buf: Seq<u8>, pos: int)
    ensures
        lex_next(buf, pos) matches Some((None, p)) ==> lex_next(buf, p) == Some(
            (None::<Result<crate::token::SpecToken, crate::error::SpecError>>, p),
        ),
{
    if 0 <= pos <= buf.len() {
        law_end_of_input_is_stable(buf, pos);
    } else {
        assert(skip_trivia(buf, pos, false) == pos);
    }
}

proof fn lemma_fill_reads_ahead(buf: Seq<u8>, s: ParseState, n: nat) -> (m: nat)
    requires
        fill(buf, s, n) is Some,
    ensures
        read_ahead(buf, s, fill(buf, s, n).unwrap().1, m),
    decreases n + 1 - s.queue.len(),
{
    if s.queue.len() >= n + 1 {
        0
    } else {
        match lex_next(buf, s.pos) {
            Some((Some(t), p)) => {
                let m1 = lemma_fill_reads_ahead(buf, ParseState { pos: p, queue: s.queue.push(t) }, n);
                m1 + 1
            },
            _ => 0,
        }
    }
}

proof fn lemma_read_ahead_prefix(buf: Seq<u8>, s: ParseState, s2: ParseState, m: nat)
    requires
        read_ahead(buf, s, s2, m),
    ensures
        s2.queue.len() >= s.queue.len(),
        s2.queue.subrange(0, s.queue.len() as int) == s.queue,
    decreases m,
{
    if m == 0 {
        assert(s2.queue.subrange(0, s.queue.len() as int) =~= s.queue);
    } else {
        if let Some((Some(t), p)) = lex_next(buf, s.pos) {
            let s1 = ParseState { pos: p, queue: s.queue.push(t) };
            lemma_read_ahead_prefix(buf, s1, s2, (m - 1) as nat);
            assert(s2.queue.subrange(0, s.queue.len() as int) =~= s1.queue.subrange(
                0,
                s1.queue.len() as int,
            ).subrange(0, s.queue.len() as int));
        }
    }
}

proof fn lemma_read_ahead_drop(buf: Seq<u8>, s: ParseState, s2: ParseState, m: nat)
    requires
        read_ahead(buf, s, s2, m),
        s.queue.len() > 0,
    ensures
        read_ahead(buf, drop_queued(s, 1), drop_queued(s2, 1), m),
    decreases m,
{
    if m > 0 {
        if let Some((Some(t), p)) = lex_next(buf, s.pos) {
            let s1 = ParseState { pos: p, queue: s.queue.push(t) };
            lemma_read_ahead_drop(buf, s1, s2, (m - 1) as nat);
            assert(drop_queued(s1, 1) == ParseState { pos: p, queue: drop_queued(s, 1).queue.push(t) }) by {
                assert(drop_queued(s1, 1).queue =~= drop_queued(s, 1).queue.push(t));
            }
        }
    }
}

/// Taking a token from a state and from the same state read ahead gives the
/// same token, and the two states after it are still related.
proof fn lemma_read_ahead_step(buf: Seq<u8>, s: ParseState, s2: ParseState, m: nat) -> (m2: nat)
    requires
        read_ahead(buf, s, s2, m),
    ensures
        next_tok(buf, s) is None ==> next_tok(buf, s2) is None,
        next_tok(buf, s) matches Some((t, s1)) ==> (next_tok(buf, s2) matches Some((t2, s21)) && t2 == t
            && read_ahead(buf, s1, s21, m2)),
{
    lemma_read_ahead_prefix(buf, s, s2, m);
    if s.queue.len() > 0 {
        assert(s2.queue[0] == s2.queue.subrange(0, s.queue.len() as int)[0]);
        lemma_read_ahead_drop(buf, s, s2, m);
        m
    } else if m == 0 {
        lemma_end_again(buf, s.pos);
        0
    } else {
        if let Some((Some(t), p)) = lex_next(buf, s.pos) {
            let s1 = ParseState { pos: p, queue: s.queue.push(t) };
            lemma_read_ahead_prefix(buf, s1, s2, (m - 1) as nat);
            assert(s2.queue[0] == s2.queue.subrange(0, s1.queue.len() as int)[0]);
            lemma_read_ahead_drop(buf, s1, s2, (m - 1) as nat);
            assert(drop_queued(s1, 1) == ParseState { pos: p, queue: s.queue }) by {
                assert(drop_queued(s1, 1).queue =~= s.queue);
            }
        }
        (m - 1) as nat
    }
}

proof fn lemma_read_ahead_take(buf: Seq<u8>, s: ParseState, s2: ParseState, m: nat, k: nat)
    requires
        read_ahead(buf, s, s2, m),
    ensures
        take_tokens(buf, s2, k) == take_tokens(buf, s, k),
    decreases k,
{
    if k > 0 {
        let m2 = lemma_read_ahead_step(buf, s, s2, m);
        if let Some((t, s1)) = next_tok(buf, s) {
            let s21 = next_tok(buf, s2).unwrap().1;
            lemma_read_ahead_take(buf, s1, s21, m2, (k - 1) as nat);
        }
    }
}

/// Reading ahead is transparent: whatever the parser has peeked at, the
/// tokens it takes afterwards, however many, are those it would have taken
/// without peeking, in the same order.
pub proof fn law_lookahead_is_transparent(buf: Seq<u8>, s: ParseState, n: nat, k: nat)
    ensures
        fill(buf, s, n) matches Some((_, s2)) ==> take_tokens(buf, s2, k) == take_tokens(buf, s, k),
{
    if fill(buf, s, n) is Some {
        let m = lemma_fill_reads_ahead(buf, s, n);
        lemma_read_ahead_take(buf, s, fill(buf, s, n).unwrap().1, m, k);
    }
}

/// Every object parsed without error consumes input: the parser's measure
/// of work left strictly falls.
pub proof fn law_parsing_consumes_input(buf: Seq<u8>, s: ParseState)
    ensures
        parse_object(buf, s) matches Some((Ok(_), s2)) ==> progress(buf, s2) < progress(buf, s),
{
    lemma_object_progress(buf, s);
}

/// Two objects written one after the other, separated by a line feed, are
/// parsed one after the other: if `a` and `b` each hold exactly one object,
/// `x` and `y`, and `x` is not an integer (an integer followed by more
/// integers could join them into a reference), then parsing `a`, a line feed
/// and `b` gives `x`, then `y` (with the positions of `b` moved past `a` and
/// the line feed), then the end of the input. Left out: an `a` that parses
/// to something else once two line feeds follow it, which happens exactly
/// when a name at its end meets a `#` with fewer than two bytes of `a` after
/// it (followed by more bytes, that `#` starts a `#xy` escape); and buffers
/// too long for a `usize` length.
pub proof fn law_objects_in_a_row(
    a: Seq<u8>,
    b: Seq<u8>,
    x: SpecObject,
    y: SpecObject,
    sa: ParseState,
    sb: ParseState,
)
    requires
        parse_object(a, ParseState { pos: 0, queue: seq![] }) == Some((Ok::<SpecObject, SpecError>(x), sa)),
        next_tok(a, sa) matches Some((None, _)),
        parse_object(b, ParseState { pos: 0, queue: seq![] }) == Some((Ok::<SpecObject, SpecError>(y), sb)),
        next_tok(b, sb) matches Some((None, _)),
        !(x is Integer),
        parse_object(a + seq![10u8, 10u8], ParseState { pos: 0, queue: seq![] }) == parse_object(
            a,
            ParseState { pos: 0, queue: seq![] },
        ),
        a.len() + 1 + b.len() <= usize::MAX,
    ensures
        ({
            let c = a + seq![10u8] + b;
            let o: int = a.len() + 1int;
            &&& parse_object(c, ParseState { pos: 0, queue: seq![] }) == Some((Ok::<SpecObject, SpecError>(x), sa))
            &&& parse_object(c, sa) == Some((Ok::<SpecObject, SpecError>(y), shift_state(sb, o)))
            &&& parse_object(c, shift_state(sb, o)) matches Some((Err(SpecError::Eof), _))
        }),
{
    let c = a + seq![10u8] + b;
    let d = a + seq![10u8, 10u8];
    let o: int = a.len() + 1int;
    let s0 = ParseState { pos: 0, queue: seq![] };
    assert(b.len() > 0) by {
        if b.len() == 0 {
            assert(skip_trivia(b, 0, false) == 0);
        }
    }
    lemma_joined(a, b);
    lemma_two_line_feeds(a);
    lemma_pf_object(a, c, d, s0);
    lemma_after_first(a, c, sa, o);
    lemma_sh_object(b, c, o, s0);
    lemma_sh_next_tok(b, c, o, sb);
}

/// The condition of `law_objects_in_a_row` on `a` leaves out only inputs on
/// which the law fails: when two line feeds after `a` change what it parses
/// to, `a`, a line feed and any more bytes do not start with `x`.
pub proof fn law_objects_in_a_row_exact(a: Seq<u8>, b: Seq<u8>, x: SpecObject, sa: ParseState)
    requires
        parse_object(a, ParseState { pos: 0, queue: seq![] }) == Some((Ok::<SpecObject, SpecError>(x), sa)),
        !(x is Integer),
        b.len() > 0,
        parse_object(a + seq![10u8, 10u8], ParseState { pos: 0, queue: seq![] }) != parse_object(
            a,
            ParseState { pos: 0, queue: seq![] },
        ),
    ensures
        parse_object(a + seq![10u8] + b, ParseState { pos: 0, queue: seq![] }) != Some(
            (Ok::<SpecObject, SpecError>(x), sa),
        ),
{
    lemma_joined(a, b);
    lemma_two_line_feeds(a);
    lemma_pf_object(a, a + seq![10u8] + b, a + seq![10u8, 10u8], ParseState { pos: 0, queue: seq![] });
}

/// `a`, a line feed and `b` hold `a` at the start and `b` after the line feed.
proof fn lemma_joined(a: Seq<u8>, b: Seq<u8>)
    ensures
        is_prefix_then_lf(a, a + seq![10u8] + b),
        b.len() > 0 ==> is_ext(a, a + seq![10u8] + b),
        is_suffix_at(b, a + seq![10u8] + b, a.len() + 1int),
{
    let c = a + seq![10u8] + b;
    assert forall|i: int| 0 <= i < a.len() implies c[i] == a[i] by {}
    assert forall|i: int| 0 <= i < b.len() implies c[a.len() + 1 + i] == b[i] by {}
}

proof fn lemma_two_line_feeds(a: Seq<u8>)
    ensures
        is_ext(a, a + seq![10u8, 10u8]),
{
    let d = a + seq![10u8, 10u8];
    assert forall|i: int| 0 <= i < a.len() implies d[i] == a[i] by {}
    assert(d[a.len() as int] == 10);
}

/// Where `a` has reached its end, the parser inside `c` starts on what follows
/// the line feed.
proof fn lemma_after_first(a: Seq<u8>, c: Seq<u8>, sa: ParseState, o: int)
    requires
        is_ext(a, c),
        o == a.len() + 1,
        0 <= sa.pos <= a.len(),
        next_tok(a, sa) matches Some((None, _)),
    ensures
        parse_object(c, sa) == parse_object(c, shift_state(ParseState { pos: 0, queue: seq![] }, o)),
{
    assert(sa.queue.len() == 0);
    assert(sa.queue =~= seq![]);
    lemma_pf_lex_next(a, c, sa.pos);
    let t = shift_state(ParseState { pos: 0, queue: seq![] }, o);
    assert(t == ParseState { pos: o, queue: seq![] }) by {
        assert(t.queue =~= seq![]);
    }
    assert(next_tok(c, sa) == next_tok(c, t));
}

} // verus!
