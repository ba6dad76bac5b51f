//! What the lexer computes, stated over the bytes of the buffer.
//!
//! Each function takes the whole buffer and a position in it and gives the
//! outcome together with the position at which the lexer stops.
use vstd::prelude::*;
use crate::error::SpecError;
use crate::object::SpecReal;
use crate::token::{Keyword, SpecToken};

verus! {

/// The outcome of reading one token: `None` at the end of the input.
pub type SpecLexed = Option<Result<SpecToken, SpecError>>;

/// The six white-space bytes of PDF: NUL, TAB, LF, FF, CR and SPACE.
pub open spec fn is_whitespace_byte(c: u8) -> bool {
    c == 0 || c == 9 || c == 10 || c == 12 || c == 13 || c == 32
}

/// The ten delimiter bytes of PDF: `( ) < > [ ] { } / %`.
pub open spec fn is_delimiter_byte(c: u8) -> bool {
    c == 0x28 || c == 0x29 || c == 0x3c || c == 0x3e || c == 0x5b || c == 0x5d || c == 0x7b
        || c == 0x7d || c == 0x2f || c == 0x25
}

pub open spec fn is_digit_byte(c: u8) -> bool {
    0x30 <= c <= 0x39
}

pub open spec fn is_alpha_byte(c: u8) -> bool {
    (0x41 <= c <= 0x5a) || (0x61 <= c <= 0x7a)
}

pub open spec fn is_eol_byte(c: u8) -> bool {
    c == 10 || c == 13
}

/// The value of a hexadecimal digit (either case).
pub open spec fn hex_value(c: u8) -> Option<u8> {
    if 0x30 <= c <= 0x39 {
        Some((c - 0x30) as u8)
    } else if 0x41 <= c <= 0x46 {
        Some((c - 0x41 + 10) as u8)
    } else if 0x61 <= c <= 0x66 {
        Some((c - 0x61 + 10) as u8)
    } else {
        None
    }
}

/// The first position at or after `pos` that does not hold white space.
pub open spec fn skip_ws(buf: Seq<u8>, pos: int) -> int
    decreases buf.len() - pos,
{
    if 0 <= pos < buf.len() && is_whitespace_byte(buf[pos]) {
        skip_ws(buf, pos + 1)
    } else {
        pos
    }
}

/// The first position at or after `pos` that starts neither white space nor a
/// comment. A comment runs from `%` to the end of its line, line break included.
/// `in_comment` tells whether `pos` lies inside a comment.
pub open spec fn skip_trivia(buf: Seq<u8>, pos: int, in_comment: bool) -> int
    decreases buf.len() - pos,
{
    if !(0 <= pos < buf.len()) {
        pos
    } else if in_comment {
        skip_trivia(buf, pos + 1, !is_eol_byte(buf[pos]))
    } else if is_whitespace_byte(buf[pos]) {
        skip_trivia(buf, pos + 1, false)
    } else if buf[pos] == 0x25 {
        skip_trivia(buf, pos + 1, true)
    } else {
        pos
    }
}

/// Where a comment whose text starts at `pos` ends: one past its first line
/// break (CR or LF), or the end of the input when it has none.
pub open spec fn comment_end(buf: Seq<u8>, pos: int) -> int
    decreases buf.len() - pos,
{
    if !(0 <= pos < buf.len()) {
        pos
    } else if is_eol_byte(buf[pos]) {
        pos + 1
    } else {
        comment_end(buf, pos + 1)
    }
}

/// The byte that the escape `\c` stands for in a literal string.
pub open spec fn escaped_byte(c: u8) -> Option<u8> {
    if c == 0x6e {
        Some(10u8)
    } else if c == 0x72 {
        Some(13u8)
    } else if c == 0x74 {
        Some(9u8)
    } else if c == 0x62 {
        Some(8u8)
    } else if c == 0x66 {
        Some(12u8)
    } else if c == 0x28 || c == 0x29 || c == 0x5c {
        Some(c)
    } else {
        None
    }
}

/// The body of a literal string from `pos` on, with `depth` unclosed inner
/// parentheses and `acc` read so far.
pub open spec fn lex_literal(buf: Seq<u8>, pos: int, depth: nat, acc: Seq<u8>) -> (Result<Seq<u8>, SpecError>, int)
    decreases buf.len() - pos,
{
    if !(0 <= pos < buf.len()) {
        (Err(SpecError::Eof), pos)
    } else {
        let c = buf[pos];
        if c == 0x29 && depth == 0 {
            (Ok(acc), pos + 1)
        } else if c == 0x28 {
            lex_literal(buf, pos + 1, depth + 1, acc.push(c))
        } else if c == 0x29 {
            lex_literal(buf, pos + 1, (depth - 1) as nat, acc.push(c))
        } else if c == 0x5c && pos + 1 < buf.len() {
            match escaped_byte(buf[pos + 1]) {
                Some(e) => lex_literal(buf, pos + 2, depth, acc.push(e)),
                None => (Err(SpecError::InvalidByte(buf[pos + 1], pos + 1)), pos),
            }
        } else {
            lex_literal(buf, pos + 1, depth, acc.push(c))
        }
    }
}

/// The body of a hexadecimal string from `pos` on, with `acc` decoded so far
/// and `high` the first digit of a pair whose second digit is still to come.
/// White space is ignored; a last lone digit stands for its value times 16.
pub open spec fn lex_hex(buf: Seq<u8>, pos: int, acc: Seq<u8>, high: Option<u8>) -> (Result<Seq<u8>, SpecError>, int)
    decreases buf.len() - pos,
{
    if !(0 <= pos < buf.len()) {
        (Err(SpecError::Eof), pos)
    } else {
        let c = buf[pos];
        if is_whitespace_byte(c) {
            lex_hex(buf, pos + 1, acc, high)
        } else if c == 0x3e {
            match high {
                None => (Ok(acc), pos + 1),
                Some(a) => (Ok(acc.push((a * 16) as u8)), pos + 1),
            }
        } else {
            match hex_value(c) {
                None => (Err(SpecError::InvalidByte(c, pos)), pos),
                Some(d) => match high {
                    None => lex_hex(buf, pos + 1, acc, Some(d)),
                    Some(a) => lex_hex(buf, pos + 1, acc.push((a * 16 + d) as u8), None),
                },
            }
        }
    }
}

/// The bytes of a name from `pos` on (after the `/`), with `acc` read so far.
/// `#xy` stands for the byte with hexadecimal value `xy` when two more bytes follow.
pub open spec fn lex_name(buf: Seq<u8>, pos: int, acc: Seq<u8>) -> (Result<Seq<u8>, SpecError>, int)
    decreases buf.len() - pos,
{
    if !(0 <= pos < buf.len()) {
        (Ok(acc), pos)
    } else {
        let c = buf[pos];
        if c == 0x23 && pos + 2 < buf.len() {
            match hex_value(buf[pos + 1]) {
                None => (Err(SpecError::InvalidByte(buf[pos + 1], pos + 1)), pos + 1),
                Some(a) => match hex_value(buf[pos + 2]) {
                    None => (Err(SpecError::InvalidByte(buf[pos + 2], pos + 2)), pos + 2),
                    Some(b) => lex_name(buf, pos + 3, acc.push((a * 16 + b) as u8)),
                },
            }
        } else if is_whitespace_byte(c) || is_delimiter_byte(c) {
            (Ok(acc), pos)
        } else {
            lex_name(buf, pos + 1, acc.push(c))
        }
    }
}

/// The end of the run of letters that starts at `pos`.
pub open spec fn alpha_end(buf: Seq<u8>, pos: int) -> int
    decreases buf.len() - pos,
{
    if 0 <= pos < buf.len() && is_alpha_byte(buf[pos]) {
        alpha_end(buf, pos + 1)
    } else {
        pos
    }
}

/// The end of the run of decimal digits that starts at `pos`.
pub open spec fn digit_end(buf: Seq<u8>, pos: int) -> int
    decreases buf.len() - pos,
{
    if 0 <= pos < buf.len() && is_digit_byte(buf[pos]) {
        digit_end(buf, pos + 1)
    } else {
        pos
    }
}

/// The token that a word of letters stands for, if it is one of the known words.
pub open spec fn keyword_token(w: Seq<u8>) -> Option<SpecToken> {
    if w == seq![0x74u8, 0x72, 0x75, 0x65] {
        Some(SpecToken::Boolean(true))
    } else if w == seq![0x66u8, 0x61, 0x6c, 0x73, 0x65] {
        Some(SpecToken::Boolean(false))
    } else if w == seq![0x6eu8, 0x75, 0x6c, 0x6c] {
        Some(SpecToken::Null)
    } else if w == seq![0x6fu8, 0x62, 0x6a] {
        Some(SpecToken::Keyword(Keyword::Obj))
    } else if w == seq![0x65u8, 0x6e, 0x64, 0x6f, 0x62, 0x6a] {
        Some(SpecToken::Keyword(Keyword::EndObj))
    } else if w == seq![0x73u8, 0x74, 0x72, 0x65, 0x61, 0x6d] {
        Some(SpecToken::Keyword(Keyword::Stream))
    } else if w == seq![0x65u8, 0x6e, 0x64, 0x73, 0x74, 0x72, 0x65, 0x61, 0x6d] {
        Some(SpecToken::Keyword(Keyword::EndStream))
    } else if w == seq![0x52u8] {
        Some(SpecToken::Keyword(Keyword::R))
    } else if w == seq![0x78u8, 0x72, 0x65, 0x66] {
        Some(SpecToken::Keyword(Keyword::XRef))
    } else if w == seq![0x74u8, 0x72, 0x61, 0x69, 0x6c, 0x65, 0x72] {
        Some(SpecToken::Keyword(Keyword::Trailer))
    } else if w == seq![0x73u8, 0x74, 0x61, 0x72, 0x74, 0x78, 0x72, 0x65, 0x66] {
        Some(SpecToken::Keyword(Keyword::StartXRef))
    } else {
        None
    }
}

/// The characters of a sequence of ASCII bytes.
pub open spec fn ascii_chars(w: Seq<u8>) -> Seq<char> {
    w.map_values(|b: u8| b as char)
}

/// A word of letters starting at `pos`: a known word, or `UnknownKeyword`.
pub open spec fn lex_keyword(buf: Seq<u8>, pos: int) -> (Result<SpecToken, SpecError>, int) {
    let end = alpha_end(buf, pos);
    let w = buf.subrange(pos, end);
    match keyword_token(w) {
        Some(t) => (Ok(t), end),
        None => (Err(SpecError::UnknownKeyword(ascii_chars(w), pos)), end),
    }
}

/// The value of a sequence of decimal digits.
pub open spec fn digits_value(s: Seq<u8>) -> int
    decreases s.len(),
{
    if s.len() == 0 {
        0
    } else {
        digits_value(s.drop_last()) * 10 + (s.last() - 0x30)
    }
}

/// The value (0 to 9) of each of a sequence of decimal digits.
pub open spec fn digit_values(s: Seq<u8>) -> Seq<u8> {
    s.map_values(|d: u8| (d - 0x30) as u8)
}

/// A number starting at `pos`: an optional sign, digits, and, after a `.`,
/// more digits, which make it a real. `None` when the digits before the point
/// exceed `i64::MAX`, where the lexer's arithmetic would overflow.
pub open spec fn lex_number(buf: Seq<u8>, pos: int) -> Option<(Result<SpecToken, SpecError>, int)> {
    let negative = buf[pos] == 0x2d;
    let start = if buf[pos] == 0x2d || buf[pos] == 0x2b { pos + 1 } else { pos };
    let end = digit_end(buf, start);
    let value = digits_value(buf.subrange(start, end));
    if value > i64::MAX {
        None
    } else if end < buf.len() && buf[end] == 0x2e {
        let frac_end = digit_end(buf, end + 1);
        Some(
            (
                Ok(
                    SpecToken::Real(
                        SpecReal {
                            negative,
                            int_part: value as i64,
                            frac_digits: digit_values(buf.subrange(end + 1, frac_end)),
                        },
                    ),
                ),
                frac_end,
            ),
        )
    } else {
        Some((Ok(SpecToken::Integer((if negative { -value } else { value }) as i64)), end))
    }
}

/// Whether a byte starts a number.
pub open spec fn starts_number(c: u8) -> bool {
    c == 0x2b || c == 0x2d || c == 0x2e || is_digit_byte(c)
}

/// Wraps the outcome of reading a string body into a token.
pub open spec fn string_token(r: (Result<Seq<u8>, SpecError>, int), literal: bool, name: bool) -> (Result<SpecToken, SpecError>, int) {
    match r.0 {
        Ok(b) => (
            Ok(
                if name {
                    SpecToken::Name(b)
                } else if literal {
                    SpecToken::LiteralString(b)
                } else {
                    SpecToken::HexString(b)
                },
            ),
            r.1,
        ),
        Err(e) => (Err(e), r.1),
    }
}

/// The token that starts at `pos`, a position that holds neither white space
/// nor a comment, with the position after it. `None` when the lexer's
/// arithmetic would overflow.
pub open spec fn lex_token_at(buf: Seq<u8>, pos: int) -> Option<(Result<SpecToken, SpecError>, int)>
    recommends
        0 <= pos < buf.len(),
{
    let c = buf[pos];
    let two = pos + 1 < buf.len();
    if c == 0x28 {
        Some(string_token(lex_literal(buf, pos + 1, 0, seq![]), true, false))
    } else if c == 0x3c && two && buf[pos + 1] != 0x3c {
        Some(string_token(lex_hex(buf, pos + 1, seq![], None), false, false))
    } else if c == 0x2f {
        Some(string_token(lex_name(buf, pos + 1, seq![]), false, true))
    } else if c == 0x3c && two {
        Some((Ok(SpecToken::DictBegin), pos + 2))
    } else if c == 0x3e && two && buf[pos + 1] == 0x3e {
        Some((Ok(SpecToken::DictEnd), pos + 2))
    } else if c == 0x5b {
        Some((Ok(SpecToken::ArrayBegin), pos + 1))
    } else if c == 0x5d {
        Some((Ok(SpecToken::ArrayEnd), pos + 1))
    } else if starts_number(c) {
        lex_number(buf, pos)
    } else if is_alpha_byte(c) {
        Some(lex_keyword(buf, pos))
    } else {
        Some((Err(SpecError::InvalidByte(c, pos)), pos))
    }
}

/// What one call of `Lexer::next` gives from `pos`: white space and comments
/// are skipped, then the next token is read, if any is left. `None` when the
/// lexer's arithmetic would overflow.
pub open spec fn lex_next(buf: Seq<u8>, pos: int) -> Option<(SpecLexed, int)> {
    let p = skip_trivia(buf, pos, false);
    if !(0 <= p < buf.len()) {
        Some((None, p))
    } else {
        match lex_token_at(buf, p) {
            Some((r, q)) => Some((Some(r), q)),
            None => None,
        }
    }
}

/// What `Lexer::read_stream_data(length)` gives from `pos`: after an optional
/// CR and an optional LF, the next `length` bytes, or `Eof` when fewer are left.
/// `None` when the end position would not fit in a `usize`.
pub open spec fn read_stream(buf: Seq<u8>, pos: int, length: int) -> Option<(Result<Seq<u8>, SpecError>, int)> {
    let p1 = if 0 <= pos < buf.len() && buf[pos] == 13 { pos + 1 } else { pos };
    let p2 = if 0 <= p1 < buf.len() && buf[p1] == 10 { p1 + 1 } else { p1 };
    if p2 + length > usize::MAX {
        None
    } else if p2 + length > buf.len() {
        Some((Err(SpecError::Eof), p2))
    } else {
        Some((Ok(buf.subrange(p2, p2 + length)), p2 + length))
    }
}

/// What reading `n` raw bytes from `pos` gives: those bytes, or `Eof` when
/// fewer are left.
pub open spec fn read_raw(buf: Seq<u8>, pos: int, n: int) -> (Result<Seq<u8>, SpecError>, int) {
    if 0 <= pos && pos + n <= buf.len() {
        (Ok(buf.subrange(pos, pos + n)), pos + n)
    } else {
        (Err(SpecError::Eof), pos)
    }
}

} // verus!
