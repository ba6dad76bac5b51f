//! The lexer: from bytes to tokens.
pub mod lemmas;
pub mod spec;

use vstd::prelude::*;
use crate::error::{PdfParserError, SpecError};
use crate::object::PdfReal;
use crate::token::{Keyword, SpecToken, Token};
use self::lemmas::{
    lemma_alpha_run, lemma_comment_end, lemma_comment_run, lemma_digit_end_bounds, lemma_digits_value_prefix, lemma_hex_ws_run, lemma_ws_run,
};
use self::spec::{
    ascii_chars, comment_end, digit_end, digit_values, digits_value, escaped_byte, hex_value,
    is_alpha_byte, is_delimiter_byte, is_digit_byte, is_eol_byte, is_whitespace_byte,
    lex_hex, lex_keyword, lex_literal, lex_name, lex_next, lex_number,
    read_raw, read_stream, skip_trivia, skip_ws, starts_number, string_token, SpecLexed,
};

verus! {

/// The view of what `Lexer::next` returns.
pub open spec fn view_lexed(r: Option<Result<Token, PdfParserError>>) -> SpecLexed {
    match r {
        None => None,
        Some(Ok(t)) => Some(Ok(t@)),
        Some(Err(e)) => Some(Err(e@)),
    }
}

/// The view of a token or an error.
pub open spec fn view_token_result(r: Result<Token, PdfParserError>) -> Result<SpecToken, SpecError> {
    match r {
        Ok(t) => Ok(t@),
        Err(e) => Err(e@),
    }
}

/// A lexer over a byte buffer: a position in it, which only moves forward.
pub struct Lexer<'a> {
    buf: &'a [u8],
    pos: usize,
}

fn is_whitespace(c: u8) -> (r: bool)
    ensures
        r == is_whitespace_byte(c),
{
    c == 0 || c == 9 || c == 10 || c == 12 || c == 13 || c == 32
}

fn is_delimiter(c: u8) -> (r: bool)
    ensures
        r == is_delimiter_byte(c),
{
    c == 0x28 || c == 0x29 || c == 0x3c || c == 0x3e || c == 0x5b || c == 0x5d || c == 0x7b
        || c == 0x7d || c == 0x2f || c == 0x25
}

fn is_digit(c: u8) -> (r: bool)
    ensures
        r == is_digit_byte(c),
{
    0x30 <= c && c <= 0x39
}

fn is_alphabetic(c: u8) -> (r: bool)
    ensures
        r == is_alpha_byte(c),
{
    (0x41 <= c && c <= 0x5a) || (0x61 <= c && c <= 0x7a)
}

fn is_not_eol(c: u8) -> (r: bool)
    ensures
        r == !is_eol_byte(c),
{
    c != 13 && c != 10
}

fn hex_digit(c: u8) -> (r: Option<u8>)
    ensures
        r == hex_value(c),
{
    if 0x30 <= c && c <= 0x39 {
        Some(c - 0x30)
    } else if 0x41 <= c && c <= 0x46 {
        Some(c - 0x41 + 10)
    } else if 0x61 <= c && c <= 0x66 {
        Some(c - 0x61 + 10)
    } else {
        None
    }
}

#[verifier::external_type_specification]
#[verifier::external_body]
pub struct ExFromUtf8Error(std::string::FromUtf8Error);

/// Calls `String::from_utf8`, which, as its documentation says, succeeds
/// exactly when the bytes are valid UTF-8, and then holds the characters they
/// encode.
#[verifier::external_body]
fn string_from_utf8(bytes: Vec<u8>) -> (r: Result<String, std::string::FromUtf8Error>)
    ensures
        r is Ok <==> vstd::utf8::valid_utf8(bytes@),
        r matches Ok(s) ==> s@ == vstd::utf8::decode_utf8(bytes@),
{
    String::from_utf8(bytes)
}

/// The string of a word of letters (ASCII bytes).
fn ascii_string(bytes: Vec<u8>) -> (r: String)
    requires
        forall|i: int| 0 <= i < bytes@.len() ==> is_alpha_byte(#[trigger] bytes@[i]),
    ensures
        r@ == ascii_chars(bytes@),
{
    let ghost chars = ascii_chars(bytes@);
    proof {
        assert(vstd::utf8::is_ascii_chars(chars));
        vstd::utf8::is_ascii_chars_encode_utf8(chars);
        assert(vstd::utf8::encode_utf8(chars) =~= bytes@);
        vstd::utf8::encode_utf8_valid_utf8(chars);
        vstd::utf8::encode_utf8_decode_utf8(chars);
    }
    match string_from_utf8(bytes) {
        Ok(s) => s,
        Err(_) => String::new(),
    }
}

impl<'a> Lexer<'a> {
    /// The buffer the lexer reads.
    pub closed spec fn data(&self) -> Seq<u8> {
        self.buf@
    }

    /// The position of the lexer in its buffer.
    pub closed spec fn position(&self) -> int {
        self.pos as int
    }

    pub fn new(buf: &'a [u8]) -> (r: Self)
        ensures
            r.data() == buf@,
            r.position() == 0,
    {
        Self { buf, pos: 0 }
    }

    fn peek(&self) -> (r: u8)
        requires
            self.pos < self.buf@.len(),
        ensures
            r == self.buf@[self.pos as int],
    {
        self.buf[self.pos]
    }

    fn is_eof(&self) -> (r: bool)
        ensures
            r == (self.pos >= self.buf@.len()),
    {
        self.pos >= self.buf.len()
    }

    fn bump(&mut self)
        requires
            old(self).pos < old(self).buf@.len(),
        ensures
            final(self).buf == old(self).buf,
            final(self).pos == old(self).pos + 1,
    {
        assert(self.buf@.len() == self.buf.len());
        self.pos += 1;
    }

    fn bump_while<F: Fn(u8) -> bool>(&mut self, predicate: F)
        requires
            forall|c: u8| predicate.requires((c,)),
        ensures
            final(self).buf == old(self).buf,
            old(self).pos <= final(self).pos,
            old(self).pos <= old(self).buf@.len() ==> final(self).pos <= final(self).buf@.len(),
            forall|i: int|
                old(self).pos <= i < final(self).pos ==> predicate.ensures(
                    (#[trigger] old(self).buf@[i],),
                    true,
                ),
            final(self).pos < final(self).buf@.len() ==> predicate.ensures(
                (final(self).buf@[final(self).pos as int],),
                false,
            ),
    {
        let ghost start = self.pos;
        while self.pos < self.buf.len()
            invariant
                self.buf == old(self).buf,
                start == old(self).pos,
                start <= self.pos,
                start <= self.buf@.len() ==> self.pos <= self.buf@.len(),
                forall|c: u8| predicate.requires((c,)),
                forall|i: int|
                    start <= i < self.pos ==> predicate.ensures((#[trigger] self.buf@[i],), true),
            decreases self.buf@.len() - self.pos,
        {
            if !predicate(self.peek()) {
                return;
            }
            self.pos += 1;
        }
    }

    fn skip_whitespace(&mut self)
        requires
            old(self).pos <= old(self).buf@.len(),
        ensures
            final(self).buf == old(self).buf,
            final(self).pos == skip_ws(old(self).buf@, old(self).pos as int),
            old(self).pos <= final(self).pos <= final(self).buf@.len(),
            forall|i: int| old(self).pos <= i < final(self).pos ==> is_whitespace_byte(#[trigger] old(self).buf@[i]),
            final(self).pos == final(self).buf@.len() || !is_whitespace_byte(final(self).buf@[final(self).pos as int]),
            skip_trivia(old(self).buf@, old(self).pos as int, false) == skip_trivia(
                old(self).buf@,
                final(self).pos as int,
                false,
            ),
    {
        self.bump_while(is_whitespace);
        proof {
            lemma_ws_run(self.buf@, old(self).pos as int, self.pos as int);
        }
    }

    fn skip_comment(&mut self)
        requires
            old(self).pos < old(self).buf@.len(),
            old(self).buf@[old(self).pos as int] == 0x25,
        ensures
            final(self).buf == old(self).buf,
            final(self).pos == comment_end(old(self).buf@, old(self).pos + 1),
            final(self).pos > old(self).pos,
            final(self).pos <= final(self).buf@.len(),
            skip_trivia(old(self).buf@, old(self).pos as int, false) == skip_trivia(
                old(self).buf@,
                final(self).pos as int,
                false,
            ),
    {
        self.bump();
        let ghost r = self.pos as int;
        self.bump_while(is_not_eol);
        proof {
            lemma_comment_run(self.buf@, r, self.pos as int);
            lemma_comment_end(self.buf@, r, self.pos as int);
        }
        if !self.is_eof() {
            self.bump();
        }
    }

    fn skip_whitespace_and_comments(&mut self)
        ensures
            final(self).buf == old(self).buf,
            final(self).pos == skip_trivia(old(self).buf@, old(self).pos as int, false),
    {
        let mut has_skiped = true;
        while !self.is_eof() && has_skiped
            invariant
                self.buf == old(self).buf,
                old(self).pos <= old(self).buf@.len() ==> self.pos <= self.buf@.len(),
                old(self).pos > old(self).buf@.len() ==> self.pos == old(self).pos,
                skip_trivia(self.buf@, self.pos as int, false) == skip_trivia(
                    self.buf@,
                    old(self).pos as int,
                    false,
                ),
                !has_skiped ==> skip_trivia(self.buf@, self.pos as int, false) == self.pos,
            decreases self.buf@.len() - self.pos, if has_skiped { 1int } else { 0int },
        {
            let ghost before = self.pos;
            has_skiped = false;
            if is_whitespace(self.peek()) {
                self.skip_whitespace();
                has_skiped = true;
            }

            if !self.is_eof() && self.peek() == 0x25 {
                self.skip_comment();
                has_skiped = true;
            }
            assert(has_skiped ==> self.pos > before);
        }
    }
}

/// The view of the outcome of reading raw bytes.
pub open spec fn view_bytes_result(r: Result<Vec<u8>, PdfParserError>) -> Result<Seq<u8>, SpecError> {
    match r {
        Ok(b) => Ok(b@),
        Err(e) => Err(e@),
    }
}

fn escape(c: u8) -> (r: Option<u8>)
    ensures
        r == escaped_byte(c),
{
    match c {
        0x6e => Some(10),
        0x72 => Some(13),
        0x74 => Some(9),
        0x62 => Some(8),
        0x66 => Some(12),
        0x28 => Some(0x28),
        0x29 => Some(0x29),
        0x5c => Some(0x5c),
        _ => None,
    }
}

impl<'a> Lexer<'a> {
    fn parse_literal_str(&mut self) -> (r: Result<Token, PdfParserError>)
        requires
            old(self).pos < old(self).buf@.len(),
            old(self).buf@[old(self).pos as int] == 0x28,
        ensures
            final(self).buf == old(self).buf,
            (view_token_result(r), final(self).pos as int) == string_token(
                lex_literal(old(self).buf@, old(self).pos + 1, 0, seq![]),
                true,
                false,
            ),
    {
        self.bump();
        let ghost start = self.pos as int;
        let mut result: Vec<u8> = Vec::new();
        let mut depth: usize = 0;
        loop
            invariant
                self.buf == old(self).buf,
                start == old(self).pos + 1,
                start <= self.pos <= self.buf@.len(),
                depth <= self.pos,
                lex_literal(self.buf@, self.pos as int, depth as nat, result@) == lex_literal(
                    self.buf@,
                    start,
                    0,
                    seq![],
                ),
            decreases self.buf@.len() - self.pos,
        {
            if self.pos >= self.buf.len() {
                return Err(PdfParserError::Eof);
            }
            let c = self.peek();
            if c == 0x29 && depth == 0 {
                self.bump();
                return Ok(Token::LiteralString(result));
            } else if c == 0x28 {
                depth += 1;
                result.push(0x28);
                self.bump();
            } else if c == 0x29 {
                depth -= 1;
                result.push(0x29);
                self.bump();
            } else if c == 0x5c && self.pos + 1 < self.buf.len() {
                let next = self.buf[self.pos + 1];
                match escape(next) {
                    Some(e) => {
                        result.push(e);
                        self.bump();
                        self.bump();
                    },
                    None => {
                        return Err(PdfParserError::InvalidByte(next, self.pos + 1));
                    },
                }
            } else {
                result.push(c);
                self.bump();
            }
        }
    }

    fn parse_hex_str(&mut self) -> (r: Result<Token, PdfParserError>)
        requires
            old(self).pos < old(self).buf@.len(),
            old(self).buf@[old(self).pos as int] == 0x3c,
        ensures
            final(self).buf == old(self).buf,
            (view_token_result(r), final(self).pos as int) == string_token(
                lex_hex(old(self).buf@, old(self).pos + 1, seq![], None),
                false,
                false,
            ),
    {
        self.bump();
        let ghost start = self.pos as int;
        let mut result: Vec<u8> = Vec::new();
        loop
            invariant
                self.buf == old(self).buf,
                start == old(self).pos + 1,
                start <= self.pos <= self.buf@.len(),
                lex_hex(self.buf@, self.pos as int, result@, None) == lex_hex(
                    self.buf@,
                    start,
                    seq![],
                    None,
                ),
            decreases self.buf@.len() - self.pos,
        {
            let ghost before = self.pos as int;
            self.skip_whitespace();
            proof {
                lemma_hex_ws_run(self.buf@, before, self.pos as int, result@, None);
            }
            if self.is_eof() {
                return Err(PdfParserError::Eof);
            }
            if self.peek() == 0x3e {
                self.bump();
                return Ok(Token::HexString(result));
            }
            let a = match hex_digit(self.peek()) {
                Some(a) => a,
                None => {
                    return Err(PdfParserError::InvalidByte(self.peek(), self.pos));
                },
            };
            self.bump();
            let ghost mid = self.pos as int;
            self.skip_whitespace();
            proof {
                lemma_hex_ws_run(self.buf@, mid, self.pos as int, result@, Some(a));
            }
            let b = if !self.is_eof() && self.peek() != 0x3e {
                let digit = match hex_digit(self.peek()) {
                    Some(d) => d,
                    None => {
                        return Err(PdfParserError::InvalidByte(self.peek(), self.pos));
                    },
                };
                self.bump();
                digit
            } else {
                0
            };
            result.push(a * 16 + b);
        }
    }

    fn parse_name(&mut self) -> (r: Result<Token, PdfParserError>)
        requires
            old(self).pos < old(self).buf@.len(),
            old(self).buf@[old(self).pos as int] == 0x2f,
        ensures
            final(self).buf == old(self).buf,
            (view_token_result(r), final(self).pos as int) == string_token(
                lex_name(old(self).buf@, old(self).pos + 1, seq![]),
                false,
                true,
            ),
    {
        self.bump();
        let ghost start = self.pos as int;
        let mut result: Vec<u8> = Vec::new();
        while self.pos < self.buf.len()
            invariant
                self.buf == old(self).buf,
                start == old(self).pos + 1,
                start <= self.pos <= self.buf@.len(),
                lex_name(self.buf@, self.pos as int, result@) == lex_name(self.buf@, start, seq![]),
            decreases self.buf@.len() - self.pos,
        {
            let c = self.peek();
            if c == 0x23 && self.buf.len() - self.pos > 2 {
                self.bump();
                let a = match hex_digit(self.peek()) {
                    Some(a) => a,
                    None => {
                        return Err(PdfParserError::InvalidByte(self.peek(), self.pos));
                    },
                };
                self.bump();
                let b = match hex_digit(self.peek()) {
                    Some(b) => b,
                    None => {
                        return Err(PdfParserError::InvalidByte(self.peek(), self.pos));
                    },
                };
                result.push(a * 16 + b);
            } else if is_whitespace(c) || is_delimiter(c) {
                return Ok(Token::Name(result));
            } else {
                result.push(c);
            }
            self.bump();
        }
        Ok(Token::Name(result))
    }
}

impl<'a> Lexer<'a> {
    /// Whether the bytes from `start` to `end` are `word`.
    fn word_is(&self, start: usize, end: usize, word: &[u8]) -> (r: bool)
        requires
            start <= end <= self.buf@.len(),
        ensures
            r == (self.buf@.subrange(start as int, end as int) == word@),
    {
        if end - start != word.len() {
            return false;
        }
        let mut i: usize = 0;
        while i < word.len()
            invariant
                start <= end <= self.buf@.len(),
                end - start == word@.len(),
                i <= word@.len(),
                forall|j: int| 0 <= j < i ==> self.buf@[start + j] == word@[j],
            decreases word@.len() - i,
        {
            if self.buf[start + i] != word[i] {
                return false;
            }
            i += 1;
        }
        assert(self.buf@.subrange(start as int, end as int) =~= word@);
        true
    }

    /// A copy of the bytes from `start` to `end`.
    fn copy_range(&self, start: usize, end: usize) -> (r: Vec<u8>)
        requires
            start <= end <= self.buf@.len(),
        ensures
            r@ == self.buf@.subrange(start as int, end as int),
    {
        vstd::slice::slice_to_vec(vstd::slice::slice_subrange(self.buf, start, end))
    }

    fn parse_keyword(&mut self) -> (r: Result<Token, PdfParserError>)
        requires
            old(self).pos < old(self).buf@.len(),
            is_alpha_byte(old(self).buf@[old(self).pos as int]),
        ensures
            final(self).buf == old(self).buf,
            (view_token_result(r), final(self).pos as int) == lex_keyword(
                old(self).buf@,
                old(self).pos as int,
            ),
    {
        let start = self.pos;
        self.bump_while(is_alphabetic);
        let end = self.pos;
        proof {
            lemma_alpha_run(self.buf@, start as int, end as int);
        }
        let ghost w = self.buf@.subrange(start as int, end as int);
        let w_true: [u8; 4] = [0x74, 0x72, 0x75, 0x65];
        assert(w_true@ == seq![0x74u8, 0x72, 0x75, 0x65]);
        let w_false: [u8; 5] = [0x66, 0x61, 0x6c, 0x73, 0x65];
        assert(w_false@ == seq![0x66u8, 0x61, 0x6c, 0x73, 0x65]);
        let w_null: [u8; 4] = [0x6e, 0x75, 0x6c, 0x6c];
        assert(w_null@ == seq![0x6eu8, 0x75, 0x6c, 0x6c]);
        let w_obj: [u8; 3] = [0x6f, 0x62, 0x6a];
        assert(w_obj@ == seq![0x6fu8, 0x62, 0x6a]);
        let w_endobj: [u8; 6] = [0x65, 0x6e, 0x64, 0x6f, 0x62, 0x6a];
        assert(w_endobj@ == seq![0x65u8, 0x6e, 0x64, 0x6f, 0x62, 0x6a]);
        let w_stream: [u8; 6] = [0x73, 0x74, 0x72, 0x65, 0x61, 0x6d];
        assert(w_stream@ == seq![0x73u8, 0x74, 0x72, 0x65, 0x61, 0x6d]);
        let w_endstream: [u8; 9] = [0x65, 0x6e, 0x64, 0x73, 0x74, 0x72, 0x65, 0x61, 0x6d];
        assert(w_endstream@ == seq![0x65u8, 0x6e, 0x64, 0x73, 0x74, 0x72, 0x65, 0x61, 0x6d]);
        let w_r: [u8; 1] = [0x52];
        assert(w_r@ == seq![0x52u8]);
        let w_xref: [u8; 4] = [0x78, 0x72, 0x65, 0x66];
        assert(w_xref@ == seq![0x78u8, 0x72, 0x65, 0x66]);
        let w_trailer: [u8; 7] = [0x74, 0x72, 0x61, 0x69, 0x6c, 0x65, 0x72];
        assert(w_trailer@ == seq![0x74u8, 0x72, 0x61, 0x69, 0x6c, 0x65, 0x72]);
        let w_startxref: [u8; 9] = [0x73, 0x74, 0x61, 0x72, 0x74, 0x78, 0x72, 0x65, 0x66];
        assert(w_startxref@ == seq![0x73u8, 0x74, 0x61, 0x72, 0x74, 0x78, 0x72, 0x65, 0x66]);
        if self.word_is(start, end, &w_true) {
            Ok(Token::Boolean(true))
        } else if self.word_is(start, end, &w_false) {
            Ok(Token::Boolean(false))
        } else if self.word_is(start, end, &w_null) {
            Ok(Token::Null)
        } else if self.word_is(start, end, &w_obj) {
            Ok(Token::Keyword(Keyword::Obj))
        } else if self.word_is(start, end, &w_endobj) {
            Ok(Token::Keyword(Keyword::EndObj))
        } else if self.word_is(start, end, &w_stream) {
            Ok(Token::Keyword(Keyword::Stream))
        } else if self.word_is(start, end, &w_endstream) {
            Ok(Token::Keyword(Keyword::EndStream))
        } else if self.word_is(start, end, &w_r) {
            Ok(Token::Keyword(Keyword::R))
        } else if self.word_is(start, end, &w_xref) {
            Ok(Token::Keyword(Keyword::XRef))
        } else if self.word_is(start, end, &w_trailer) {
            Ok(Token::Keyword(Keyword::Trailer))
        } else if self.word_is(start, end, &w_startxref) {
            Ok(Token::Keyword(Keyword::StartXRef))
        } else {
            let word = self.copy_range(start, end);
            Err(PdfParserError::UnknownKeyword(ascii_string(word), start))
        }
    }
}

impl<'a> Lexer<'a> {
    /// Reads a number; `None` when its integer part exceeds `i64::MAX`.
    fn parse_number(&mut self) -> (r: Option<Result<Token, PdfParserError>>)
        requires
            old(self).pos < old(self).buf@.len(),
            starts_number(old(self).buf@[old(self).pos as int]),
        ensures
            final(self).buf == old(self).buf,
            lex_number(old(self).buf@, old(self).pos as int) == (match r {
                None => None,
                Some(t) => Some((view_token_result(t), final(self).pos as int)),
            }),
    {
        let ghost buf = self.buf@;
        let sign: i64 = if self.peek() == 0x2d {
            self.bump();
            -1
        } else if self.peek() == 0x2b {
            self.bump();
            1
        } else {
            1
        };
        let start = self.pos;
        let ghost end = digit_end(buf, start as int);
        proof {
            lemma_digit_end_bounds(buf, start as int);
            assert forall|i: int| 0 <= i < buf.subrange(start as int, end).len() implies is_digit_byte(
                #[trigger] buf.subrange(start as int, end)[i],
            ) by {
                assert(buf.subrange(start as int, end)[i] == buf[start + i]);
            }
        }
        let mut int_part: i64 = 0;
        while !self.is_eof() && is_digit(self.peek())
            invariant
                self.buf == old(self).buf,
                buf == self.buf@,
                start <= self.pos <= end <= buf.len(),
                end == digit_end(buf, start as int),
                forall|i: int| start <= i < end ==> is_digit_byte(#[trigger] buf[i]),
                end == buf.len() || !is_digit_byte(buf[end]),
                forall|i: int|
                    0 <= i < buf.subrange(start as int, end).len() ==> is_digit_byte(
                        #[trigger] buf.subrange(start as int, end)[i],
                    ),
                int_part == digits_value(buf.subrange(start as int, self.pos as int)),
                0 <= int_part,
                old(self).pos < buf.len(),
                start == (if buf[old(self).pos as int] == 0x2d || buf[old(self).pos as int] == 0x2b {
                    old(self).pos + 1
                } else {
                    old(self).pos as int
                }),
            decreases buf.len() - self.pos,
        {
            let ghost p = self.pos as int;
            let d = self.peek() - 0x30;
            proof {
                assert(buf.subrange(start as int, p + 1).drop_last() =~= buf.subrange(start as int, p));
                lemma_digits_value_prefix(buf.subrange(start as int, end), p + 1 - start);
                assert(buf.subrange(start as int, end).subrange(0, p + 1 - start) =~= buf.subrange(
                    start as int,
                    p + 1,
                ));
            }
            assert(digits_value(buf.subrange(start as int, p + 1)) == int_part * 10 + d);
            if int_part > (9223372036854775807i64 - d as i64) / 10 {
                proof {
                    assert(int_part * 10 + d > i64::MAX) by (nonlinear_arith)
                        requires
                            int_part > (9223372036854775807i64 - d) / 10,
                            0 <= d <= 9,
                    ;
                    assert(p < end);
                    assert(digits_value(buf.subrange(start as int, end)) > i64::MAX);
                }
                return None;
            }
            proof {
                assert(int_part * 10 + d <= i64::MAX) by (nonlinear_arith)
                    requires
                        int_part <= (9223372036854775807i64 - d) / 10,
                        0 <= d <= 9,
                        0 <= int_part,
                ;
            }
            int_part = int_part * 10 + d as i64;
            self.bump();
        }
        proof {
            lemma_digits_value_prefix(buf.subrange(start as int, end), 0);
            assert(buf.subrange(start as int, self.pos as int) =~= buf.subrange(start as int, end));
        }
        if !self.is_eof() && self.peek() == 0x2e {
            self.bump();
            let fstart = self.pos;
            let ghost fend = digit_end(buf, fstart as int);
            proof {
                lemma_digit_end_bounds(buf, fstart as int);
            }
            let mut frac_digits: Vec<u8> = Vec::new();
            while !self.is_eof() && is_digit(self.peek())
                invariant
                    self.buf == old(self).buf,
                    buf == self.buf@,
                    fstart <= self.pos <= fend <= buf.len(),
                    forall|i: int| fstart <= i < fend ==> is_digit_byte(#[trigger] buf[i]),
                    fend == buf.len() || !is_digit_byte(buf[fend]),
                    frac_digits@ == digit_values(buf.subrange(fstart as int, self.pos as int)),
                decreases buf.len() - self.pos,
            {
                let d = self.peek() - 0x30;
                frac_digits.push(d);
                self.bump();
                assert(frac_digits@ =~= digit_values(buf.subrange(fstart as int, self.pos as int)));
            }
            return Some(Ok(Token::Real(PdfReal { negative: sign < 0, int_part, frac_digits })));
        }
        let value = if sign < 0 { -int_part } else { int_part };
        assert(value == sign * int_part);
        Some(Ok(Token::Integer(sign * int_part)))
    }

    /// Reads the raw data of a stream: after an optional CR and an optional
    /// LF, the next `length` bytes. `None` when the end of the data would not
    /// fit in a `usize`.
    pub fn read_stream_data_checked(&mut self, length: usize) -> (r: Option<Result<Vec<u8>, PdfParserError>>)
        ensures
            final(self).data() == old(self).data(),
            r is None <==> read_stream(old(self).data(), old(self).position(), length as int) is None,
            r matches Some(x) ==> read_stream(old(self).data(), old(self).position(), length as int) == Some(
                (view_bytes_result(x), final(self).position()),
            ),
    {
        if !self.is_eof() && self.peek() == 13 {
            self.bump();
        }
        if !self.is_eof() && self.peek() == 10 {
            self.bump();
        }
        if length > usize::MAX - self.pos {
            return None;
        }
        if self.pos + length > self.buf.len() {
            return Some(Err(PdfParserError::Eof));
        }
        let data = self.copy_range(self.pos, self.pos + length);
        self.pos += length;
        Some(Ok(data))
    }

    /// Reads the raw data of a stream: after an optional CR and an optional
    /// LF, the next `length` bytes.
    pub fn read_stream_data(&mut self, length: usize) -> (r: Result<Vec<u8>, PdfParserError>)
        requires
            read_stream(old(self).data(), old(self).position(), length as int) is Some,
        ensures
            final(self).data() == old(self).data(),
            read_stream(old(self).data(), old(self).position(), length as int) == Some(
                (view_bytes_result(r), final(self).position()),
            ),
    {
        match self.read_stream_data_checked(length) {
            Some(r) => r,
            None => vstd::pervasive::unreached(),
        }
    }

    /// Skips white space and comments and reads the next token; `None` at the
    /// end of the input. The outer `None` comes when the integer part of a
    /// number exceeds `i64::MAX`.
    pub fn next_checked(&mut self) -> (r: Option<Option<Result<Token, PdfParserError>>>)
        ensures
            final(self).data() == old(self).data(),
            r is None <==> lex_next(old(self).data(), old(self).position()) is None,
            r matches Some(t) ==> lex_next(old(self).data(), old(self).position()) == Some(
                (view_lexed(t), final(self).position()),
            ),
    {
        self.skip_whitespace_and_comments();
        if self.pos >= self.buf.len() {
            return Some(None);
        }
        let c = self.peek();
        let two = self.buf.len() - self.pos > 1;
        let result = match c {
            0x28 => self.parse_literal_str(),
            0x3c if two && self.buf[self.pos + 1] != 0x3c => self.parse_hex_str(),
            0x2f => self.parse_name(),
            0x3c if two && self.buf[self.pos + 1] == 0x3c => {
                self.bump();
                self.bump();
                Ok(Token::DictBegin)
            },
            0x3e if two && self.buf[self.pos + 1] == 0x3e => {
                self.bump();
                self.bump();
                Ok(Token::DictEnd)
            },
            0x5b => {
                self.bump();
                Ok(Token::ArrayBegin)
            },
            0x5d => {
                self.bump();
                Ok(Token::ArrayEnd)
            },
            c if c == 0x2b || c == 0x2d || c == 0x2e || is_digit(c) => match self.parse_number() {
                Some(t) => t,
                None => {
                    return None;
                },
            },
            c if is_alphabetic(c) => self.parse_keyword(),
            c => Err(PdfParserError::InvalidByte(c, self.pos)),
        };
        Some(Some(result))
    }

    /// Skips white space and comments and reads the next token; `None` at the
    /// end of the input.
    pub fn next(&mut self) -> (r: Option<Result<Token, PdfParserError>>)
        requires
            lex_next(old(self).data(), old(self).position()) is Some,
        ensures
            final(self).data() == old(self).data(),
            lex_next(old(self).data(), old(self).position()) == Some(
                (view_lexed(r), final(self).position()),
            ),
    {
        match self.next_checked() {
            Some(t) => t,
            None => vstd::pervasive::unreached(),
        }
    }
}

impl<'a> Lexer<'a> {
    /// Skips white space (but not comments).
    pub(crate) fn skip_white_space(&mut self)
        ensures
            final(self).data() == old(self).data(),
            final(self).position() == skip_ws(old(self).data(), old(self).position()),
    {
        if self.pos <= self.buf.len() {
            self.skip_whitespace();
        }
    }

    /// Reads the next `n` bytes raw, or fails with `Eof` when fewer are left.
    pub(crate) fn read_bytes(&mut self, n: usize) -> (r: Result<Vec<u8>, PdfParserError>)
        ensures
            final(self).data() == old(self).data(),
            read_raw(old(self).data(), old(self).position(), n as int) == (
                view_bytes_result(r),
                final(self).position(),
            ),
    {
        if self.pos > self.buf.len() || self.buf.len() - self.pos < n {
            return Err(PdfParserError::Eof);
        }
        let data = self.copy_range(self.pos, self.pos + n);
        self.pos += n;
        Ok(data)
    }
}

} // verus!
