//! Facts about the lexing functions of `spec` that the lexer's proofs use.
use vstd::prelude::*;
use super::spec::{
    alpha_end, comment_end, digit_end, digits_value, is_alpha_byte, is_digit_byte, is_eol_byte, is_whitespace_byte,
    lex_hex, lex_literal, lex_name, lex_next, lex_token_at, skip_trivia,
    skip_ws, };

verus! {

/// Over a run of white space, `skip_ws` and `skip_trivia` both go to its end.
pub proof fn lemma_ws_run(buf: Seq<u8>, r: int, q: int)
    requires
        0 <= r <= q <= buf.len(),
        forall|i: int| r <= i < q ==> is_whitespace_byte(#[trigger] buf[i]),
        q == buf.len() || !is_whitespace_byte(buf[q]),
    ensures
        skip_ws(buf, r) == q,
        skip_trivia(buf, r, false) == skip_trivia(buf, q, false),
    decreases q - r,
{
    if r < q {
        lemma_ws_run(buf, r + 1, q);
    }
}

/// Inside a comment that ends at `q` (a line break or the end of the input),
/// `skip_trivia` continues after the line break.
pub proof fn lemma_comment_run(buf: Seq<u8>, r: int, q: int)
    requires
        0 <= r <= q <= buf.len(),
        forall|i: int| r <= i < q ==> !is_eol_byte(#[trigger] buf[i]),
        q == buf.len() || is_eol_byte(buf[q]),
    ensures
        skip_trivia(buf, r, true) == (if q < buf.len() { skip_trivia(buf, q + 1, false) } else { q }),
    decreases q - r,
{
    if r < q {
        lemma_comment_run(buf, r + 1, q);
    }
}

/// `comment_end` is one past the first line break from `r` on, or the end.
pub proof fn lemma_comment_end(buf: Seq<u8>, r: int, q: int)
    requires
        0 <= r <= q <= buf.len(),
        forall|i: int| r <= i < q ==> !is_eol_byte(#[trigger] buf[i]),
        q == buf.len() || is_eol_byte(buf[q]),
    ensures
        comment_end(buf, r) == (if q < buf.len() { q + 1 } else { q }),
    decreases q - r,
{
    if r < q {
        lemma_comment_end(buf, r + 1, q);
    }
}

/// White space inside a hexadecimal string does not change its outcome.
pub proof fn lemma_hex_ws_run(buf: Seq<u8>, r: int, q: int, acc: Seq<u8>, high: Option<u8>)
    requires
        0 <= r <= q <= buf.len(),
        forall|i: int| r <= i < q ==> is_whitespace_byte(#[trigger] buf[i]),
    ensures
        lex_hex(buf, r, acc, high) == lex_hex(buf, q, acc, high),
    decreases q - r,
{
    if r < q {
        lemma_hex_ws_run(buf, r + 1, q, acc, high);
    }
}

/// `alpha_end` is the end of the run of letters.
pub proof fn lemma_alpha_run(buf: Seq<u8>, r: int, q: int)
    requires
        0 <= r <= q <= buf.len(),
        forall|i: int| r <= i < q ==> is_alpha_byte(#[trigger] buf[i]),
        q == buf.len() || !is_alpha_byte(buf[q]),
    ensures
        alpha_end(buf, r) == q,
    decreases q - r,
{
    if r < q {
        lemma_alpha_run(buf, r + 1, q);
    }
}

/// `digit_end` never moves backwards and stays inside the input, and all
/// bytes it passes are digits.
pub proof fn lemma_digit_end_bounds(buf: Seq<u8>, r: int)
    requires
        0 <= r <= buf.len(),
    ensures
        r <= digit_end(buf, r) <= buf.len(),
        forall|i: int| r <= i < digit_end(buf, r) ==> is_digit_byte(#[trigger] buf[i]),
        digit_end(buf, r) == buf.len() || !is_digit_byte(buf[digit_end(buf, r)]),
    decreases buf.len() - r,
{
    if r < buf.len() && is_digit_byte(buf[r]) {
        lemma_digit_end_bounds(buf, r + 1);
    }
}

/// The value of the digits grows as more digits are read.
pub proof fn lemma_digits_value_prefix(s: Seq<u8>, k: int)
    requires
        0 <= k <= s.len(),
        forall|i: int| 0 <= i < s.len() ==> is_digit_byte(#[trigger] s[i]),
    ensures
        0 <= digits_value(s.subrange(0, k)) <= digits_value(s),
    decreases s.len(),
{
    if s.len() > 0 {
        if k == s.len() {
            assert(s.subrange(0, k) =~= s);
            lemma_digits_value_prefix(s.drop_last(), s.len() - 1);
            assert(s.drop_last().subrange(0, s.len() - 1) =~= s.drop_last());
        } else {
            lemma_digits_value_prefix(s.drop_last(), k);
            assert(s.drop_last().subrange(0, k) =~= s.subrange(0, k));
            lemma_digits_value_prefix(s.drop_last(), s.len() - 1);
            assert(s.drop_last().subrange(0, s.len() - 1) =~= s.drop_last());
        }
    }
}

/// Skipping white space and comments stays inside the input and never moves back.
pub proof fn lemma_skip_trivia_bounds(buf: Seq<u8>, pos: int, in_comment: bool)
    requires
        0 <= pos <= buf.len(),
    ensures
        pos <= skip_trivia(buf, pos, in_comment) <= buf.len(),
    decreases buf.len() - pos,
{
    if pos < buf.len() {
        lemma_skip_trivia_bounds(buf, pos + 1, !is_eol_byte(buf[pos]));
        lemma_skip_trivia_bounds(buf, pos + 1, false);
        lemma_skip_trivia_bounds(buf, pos + 1, true);
    }
}

pub proof fn lemma_literal_bounds(buf: Seq<u8>, pos: int, depth: nat, acc: Seq<u8>)
    requires
        0 <= pos <= buf.len(),
    ensures
        pos <= lex_literal(buf, pos, depth, acc).1 <= buf.len(),
        lex_literal(buf, pos, depth, acc).0 is Ok ==> pos < lex_literal(buf, pos, depth, acc).1,
    decreases buf.len() - pos,
{
    if pos < buf.len() {
        let c = buf[pos];
        if c == 0x29 && depth == 0 {
        } else if c == 0x28 {
            lemma_literal_bounds(buf, pos + 1, depth + 1, acc.push(c));
        } else if c == 0x29 {
            lemma_literal_bounds(buf, pos + 1, (depth - 1) as nat, acc.push(c));
        } else if c == 0x5c && pos + 1 < buf.len() {
            match super::spec::escaped_byte(buf[pos + 1]) {
                Some(e) => lemma_literal_bounds(buf, pos + 2, depth, acc.push(e)),
                None => {},
            }
        } else {
            lemma_literal_bounds(buf, pos + 1, depth, acc.push(c));
        }
    }
}

pub proof fn lemma_hex_bounds(buf: Seq<u8>, pos: int, acc: Seq<u8>, high: Option<u8>)
    requires
        0 <= pos <= buf.len(),
    ensures
        pos <= lex_hex(buf, pos, acc, high).1 <= buf.len(),
        lex_hex(buf, pos, acc, high).0 is Ok ==> pos < lex_hex(buf, pos, acc, high).1,
    decreases buf.len() - pos,
{
    if pos < buf.len() {
        let c = buf[pos];
        if is_whitespace_byte(c) {
            lemma_hex_bounds(buf, pos + 1, acc, high);
        } else if c == 0x3e {
        } else {
            match super::spec::hex_value(c) {
                None => {},
                Some(d) => match high {
                    None => lemma_hex_bounds(buf, pos + 1, acc, Some(d)),
                    Some(a) => lemma_hex_bounds(buf, pos + 1, acc.push((a * 16 + d) as u8), None),
                },
            }
        }
    }
}

pub proof fn lemma_name_bounds(buf: Seq<u8>, pos: int, acc: Seq<u8>)
    requires
        0 <= pos <= buf.len(),
    ensures
        pos <= lex_name(buf, pos, acc).1 <= buf.len(),
    decreases buf.len() - pos,
{
    if pos < buf.len() {
        let c = buf[pos];
        if c == 0x23 && pos + 2 < buf.len() {
            match super::spec::hex_value(buf[pos + 1]) {
                None => {},
                Some(a) => match super::spec::hex_value(buf[pos + 2]) {
                    None => {},
                    Some(b) => lemma_name_bounds(buf, pos + 3, acc.push((a * 16 + b) as u8)),
                },
            }
        } else if is_whitespace_byte(c) || super::spec::is_delimiter_byte(c) {
        } else {
            lemma_name_bounds(buf, pos + 1, acc.push(c));
        }
    }
}

pub proof fn lemma_alpha_end_bounds(buf: Seq<u8>, pos: int)
    requires
        0 <= pos <= buf.len(),
    ensures
        pos <= alpha_end(buf, pos) <= buf.len(),
        pos < buf.len() && is_alpha_byte(buf[pos]) ==> pos < alpha_end(buf, pos),
    decreases buf.len() - pos,
{
    if pos < buf.len() && is_alpha_byte(buf[pos]) {
        lemma_alpha_end_bounds(buf, pos + 1);
    }
}

/// A token read at `pos` ends inside the input; a token read without error
/// takes at least one byte.
pub proof fn lemma_token_at_bounds(buf: Seq<u8>, pos: int)
    requires
        0 <= pos < buf.len(),
    ensures
        lex_token_at(buf, pos) matches Some((r, q)) ==> pos <= q <= buf.len() && (r is Ok ==> pos < q),
{
    let c = buf[pos];
    lemma_literal_bounds(buf, pos + 1, 0, seq![]);
    lemma_hex_bounds(buf, pos + 1, seq![], None);
    lemma_name_bounds(buf, pos + 1, seq![]);
    lemma_alpha_end_bounds(buf, pos);
    if super::spec::starts_number(c) {
        let start = if c == 0x2d || c == 0x2b { pos + 1 } else { pos };
        lemma_digit_end_bounds(buf, start);
        let end = digit_end(buf, start);
        if end < buf.len() && buf[end] == 0x2e {
            lemma_digit_end_bounds(buf, end + 1);
        }
    }
}

/// One call of `Lexer::next` never moves back, stays inside the input, and
/// moves forward whenever it reads a token without error.
pub proof fn lemma_lex_next_bounds(buf: Seq<u8>, pos: int)
    requires
        0 <= pos <= buf.len(),
    ensures
        lex_next(buf, pos) matches Some((t, q)) ==> {
            &&& pos <= q <= buf.len()
            &&& (t matches Some(Ok(_)) ==> pos < q)
        },
{
    lemma_skip_trivia_bounds(buf, pos, false);
    let p = skip_trivia(buf, pos, false);
    if p < buf.len() {
        lemma_token_at_bounds(buf, p);
    }
}

/// Skipping white space never moves back.
pub proof fn lemma_skip_ws_forward(buf: Seq<u8>, pos: int)
    ensures
        pos <= skip_ws(buf, pos),
    decreases buf.len() - pos,
{
    if 0 <= pos < buf.len() && is_whitespace_byte(buf[pos]) {
        lemma_skip_ws_forward(buf, pos + 1);
    }
}

} // verus!
