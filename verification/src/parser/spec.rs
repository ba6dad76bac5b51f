//! What the parser computes, stated over the bytes of the buffer and the
//! parser's state: the lexer's position and the queue of tokens it has read
//! ahead.
use vstd::prelude::*;
use crate::error::SpecError;
use crate::lexer::spec::{lex_next, read_raw, read_stream, skip_ws, SpecLexed};
use crate::object::{dict_lookup, SpecObject, SpecString};
use crate::token::{Keyword, SpecToken};

verus! {

/// The state of a parser: the position of its lexer and the tokens read ahead.
pub struct ParseState {
    pub pos: int,
    pub queue: Seq<Result<SpecToken, SpecError>>,
}

/// The outcome of parsing from a state, and the state after it; `None` when
/// the lexer's arithmetic would overflow.
pub type ParseOutcome = Option<(Result<SpecObject, SpecError>, ParseState)>;

/// The weight of a queue of tokens read ahead: 2 for a token, 1 for an error.
pub open spec fn queue_weight(q: Seq<Result<SpecToken, SpecError>>) -> int
    decreases q.len(),
{
    if q.len() == 0 {
        0
    } else {
        (if q[0] is Ok { 2int } else { 1int }) + queue_weight(q.drop_first())
    }
}

/// A measure of the work left to a parser: it falls with every token consumed.
pub open spec fn progress(buf: Seq<u8>, s: ParseState) -> int {
    3 * (if s.pos <= buf.len() { buf.len() - s.pos } else { 0 }) + queue_weight(s.queue)
}

/// The state with the first `n` tokens read ahead removed.
pub open spec fn drop_queued(s: ParseState, n: int) -> ParseState {
    ParseState { pos: s.pos, queue: s.queue.subrange(n, s.queue.len() as int) }
}

/// The next token: the first one read ahead, or else a new one from the lexer.
pub open spec fn next_tok(buf: Seq<u8>, s: ParseState) -> Option<(SpecLexed, ParseState)> {
    if s.queue.len() > 0 {
        Some((Some(s.queue[0]), drop_queued(s, 1)))
    } else {
        match lex_next(buf, s.pos) {
            Some((t, p)) => Some((t, ParseState { pos: p, queue: s.queue })),
            None => None,
        }
    }
}

/// Reads ahead until `n + 1` tokens are queued or the input ends; tells whether
/// they are.
pub open spec fn fill(buf: Seq<u8>, s: ParseState, n: nat) -> Option<(bool, ParseState)>
    decreases n + 1 - s.queue.len(),
{
    if s.queue.len() >= n + 1 {
        Some((true, s))
    } else {
        match lex_next(buf, s.pos) {
            None => None,
            Some((None, p)) => Some((false, ParseState { pos: p, queue: s.queue })),
            Some((Some(t), p)) => fill(buf, ParseState { pos: p, queue: s.queue.push(t) }, n),
        }
    }
}

/// The token `n` places ahead, reading ahead as far as needed.
pub open spec fn peek(buf: Seq<u8>, s: ParseState, n: nat) -> Option<(SpecLexed, ParseState)> {
    match fill(buf, s, n) {
        Some((true, s2)) => Some((Some(s2.queue[n as int]), s2)),
        Some((false, s2)) => Some((None, s2)),
        None => None,
    }
}

/// The bytes of the key `Length`.
pub open spec fn length_key() -> Seq<u8> {
    seq![0x4cu8, 0x65, 0x6e, 0x67, 0x74, 0x68]
}

/// The object that a token stands for by itself, if it does.
pub open spec fn simple_object(t: SpecToken) -> Option<SpecObject> {
    match t {
        SpecToken::Boolean(b) => Some(SpecObject::Boolean(b)),
        SpecToken::Integer(n) => Some(SpecObject::Integer(n)),
        SpecToken::Real(r) => Some(SpecObject::Real(r)),
        SpecToken::Null => Some(SpecObject::Null),
        SpecToken::Name(b) => Some(SpecObject::Name(b)),
        SpecToken::LiteralString(b) => Some(SpecObject::String(SpecString::Literal(b))),
        SpecToken::HexString(b) => Some(SpecObject::String(SpecString::Hex(b))),
        _ => None,
    }
}

/// What `Parser::parse_object` gives from state `s`.
pub open spec fn parse_object(buf: Seq<u8>, s: ParseState) -> ParseOutcome
    decreases progress(buf, s), 0int,
{
    match next_tok(buf, s) {
        None => None,
        Some((None, s1)) => Some((Err(SpecError::Eof), s1)),
        Some((Some(Err(e)), s1)) => Some((Err(e), s1)),
        Some((Some(Ok(t)), s1)) => {
            proof {
                super::lemmas::lemma_next_tok_ok(buf, s);
                super::lemmas::lemma_progress_nonneg(buf, s1);
            }
            match t {
                SpecToken::Integer(n) => match peek(buf, s1, 0) {
                    None => None,
                    Some((Some(Ok(SpecToken::Integer(g))), s2)) => match peek(buf, s2, 1) {
                        None => None,
                        Some((Some(Ok(SpecToken::Keyword(Keyword::R))), s3)) => Some(
                            (Ok(SpecObject::IndirectRef(n, g)), drop_queued(s3, 2)),
                        ),
                        Some((Some(Ok(SpecToken::Keyword(Keyword::Obj))), s3)) => {
                            proof {
                                super::lemmas::lemma_two_ahead(buf, s1);
                                super::lemmas::lemma_progress_nonneg(buf, drop_queued(s3, 2));
                            }
                            parse_indirect(buf, drop_queued(s3, 2), n, g)
                        },
                        Some((_, s3)) => Some((Ok(SpecObject::Integer(n)), s3)),
                    },
                    Some((_, s2)) => Some((Ok(SpecObject::Integer(n)), s2)),
                },
                SpecToken::ArrayBegin => parse_array(buf, s1, seq![]),
                SpecToken::DictBegin => parse_dict(buf, s1, seq![]),
                _ => match simple_object(t) {
                    Some(o) => Some((Ok(o), s1)),
                    None => Some((Err(SpecError::UnexpectedToken(t)), s1)),
                },
            }
        },
    }
}

/// The elements of an array from state `s` on, with `acc` parsed so far.
pub open spec fn parse_array(buf: Seq<u8>, s: ParseState, acc: Seq<SpecObject>) -> ParseOutcome
    decreases progress(buf, s), 1int,
{
    match peek(buf, s, 0) {
        None => None,
        Some((None, s1)) => Some((Err(SpecError::Eof), s1)),
        Some((Some(Err(e)), s1)) => Some((Err(e), s1)),
        Some((Some(Ok(SpecToken::ArrayEnd)), s1)) => Some(
            (Ok(SpecObject::Array(acc)), drop_queued(s1, 1)),
        ),
        Some((Some(Ok(_)), s1)) => {
            proof {
                super::lemmas::lemma_peek_ok(buf, s, 0);
                super::lemmas::lemma_progress_nonneg(buf, s1);
            }
            match parse_object(buf, s1) {
                None => None,
                Some((Err(e), s2)) => Some((Err(e), s2)),
                Some((Ok(o), s2)) => if 0 <= progress(buf, s2) < progress(buf, s) {
                    parse_array(buf, s2, acc.push(o))
                } else {
                    None
                },
            }
        },
    }
}

/// The entries of a dictionary from state `s` on, with `acc` parsed so far.
pub open spec fn parse_dict(buf: Seq<u8>, s: ParseState, acc: Seq<(Seq<u8>, SpecObject)>) -> ParseOutcome
    decreases progress(buf, s), 1int,
{
    match next_tok(buf, s) {
        None => None,
        Some((None, s1)) => Some((Err(SpecError::Eof), s1)),
        Some((Some(Err(e)), s1)) => Some((Err(e), s1)),
        Some((Some(Ok(SpecToken::DictEnd)), s1)) => Some((Ok(SpecObject::Dictionary(acc)), s1)),
        Some((Some(Ok(SpecToken::Name(key))), s1)) => {
            proof {
                super::lemmas::lemma_next_tok_ok(buf, s);
                super::lemmas::lemma_progress_nonneg(buf, s1);
            }
            match parse_object(buf, s1) {
                None => None,
                Some((Err(e), s2)) => Some((Err(e), s2)),
                Some((Ok(v), s2)) => if 0 <= progress(buf, s2) < progress(buf, s) {
                    parse_dict(buf, s2, acc.push((key, v)))
                } else {
                    None
                },
            }
        },
        Some((Some(Ok(t)), s1)) => Some((Err(SpecError::UnexpectedToken(t)), s1)),
    }
}

/// The token after an object must be `endobj`.
pub open spec fn expect_endobj(buf: Seq<u8>, s: ParseState, num: i64, generation: i64, value: SpecObject) -> ParseOutcome {
    match next_tok(buf, s) {
        None => None,
        Some((None, s1)) => Some((Err(SpecError::Eof), s1)),
        Some((Some(Err(e)), s1)) => Some((Err(e), s1)),
        Some((Some(Ok(SpecToken::Keyword(Keyword::EndObj))), s1)) => Some(
            (Ok(SpecObject::IndirectObject(num, generation, Box::new(value))), s1),
        ),
        Some((Some(Ok(t)), s1)) => Some((Err(SpecError::UnexpectedToken(t)), s1)),
    }
}

/// The body of an indirect object `num generation obj` from state `s` on.
pub open spec fn parse_indirect(buf: Seq<u8>, s: ParseState, num: i64, generation: i64) -> ParseOutcome
    decreases progress(buf, s), 1int,
{
    match parse_object(buf, s) {
        None => None,
        Some((Err(e), s1)) => Some((Err(e), s1)),
        Some((Ok(value), s1)) => match next_tok(buf, s1) {
            None => None,
            Some((None, s2)) => Some((Err(SpecError::Eof), s2)),
            Some((Some(Err(e)), s2)) => Some((Err(e), s2)),
            Some((Some(Ok(SpecToken::Keyword(Keyword::EndObj))), s2)) => Some(
                (Ok(SpecObject::IndirectObject(num, generation, Box::new(value))), s2),
            ),
            Some((Some(Ok(SpecToken::Keyword(Keyword::Stream))), s2)) => match value {
                SpecObject::Dictionary(dict) => match parse_stream(buf, s2, dict) {
                    None => None,
                    Some((Err(e), s3)) => Some((Err(e), s3)),
                    Some((Ok(stream), s3)) => expect_endobj(buf, s3, num, generation, stream),
                },
                _ => Some((Err(SpecError::StreamWithoutDict), s2)),
            },
            Some((Some(Ok(t)), s2)) => Some((Err(SpecError::UnexpectedToken(t)), s2)),
        },
    }
}

/// The data of a stream whose dictionary is `dict`, from state `s` on: the
/// tokens read ahead are dropped, `Length` bytes are read raw, and `endstream`
/// must follow.
pub open spec fn parse_stream(buf: Seq<u8>, s: ParseState, dict: Seq<(Seq<u8>, SpecObject)>) -> ParseOutcome {
    match dict_lookup(dict, length_key()) {
        None => Some((Err(SpecError::KeyNotFound(length_key())), s)),
        Some(SpecObject::Integer(n)) => match read_stream(buf, s.pos, (n as usize) as int) {
            None => None,
            Some((Err(e), p)) => Some((Err(e), ParseState { pos: p, queue: seq![] })),
            Some((Ok(data), p)) => match next_tok(buf, ParseState { pos: p, queue: seq![] }) {
                None => None,
                Some((None, s2)) => Some((Err(SpecError::Eof), s2)),
                Some((Some(Err(e)), s2)) => Some((Err(e), s2)),
                Some((Some(Ok(SpecToken::Keyword(Keyword::EndStream))), s2)) => Some(
                    (Ok(SpecObject::Stream(dict, data)), s2),
                ),
                Some((Some(Ok(t)), s2)) => Some((Err(SpecError::UnexpectedToken(t)), s2)),
            },
        },
        Some(_) => Some((Err(SpecError::InvalidDictValue(length_key())), s)),
    }
}

/// What `Parser::expect_keyword(kw)` gives: the next token must be `kw`.
pub open spec fn expect_kw(buf: Seq<u8>, s: ParseState, kw: Keyword) -> Option<(Result<(), SpecError>, ParseState)> {
    match next_tok(buf, s) {
        None => None,
        Some((None, s1)) => Some((Err(SpecError::Eof), s1)),
        Some((Some(Err(e)), s1)) => Some((Err(e), s1)),
        Some((Some(Ok(t)), s1)) => if t == SpecToken::Keyword(kw) {
            Some((Ok(()), s1))
        } else {
            Some((Err(SpecError::UnexpectedToken(t)), s1))
        },
    }
}

/// The state after `Parser::skip_whitespace`: the tokens read ahead are
/// dropped and white space is skipped.
pub open spec fn skip_ws_state(buf: Seq<u8>, s: ParseState) -> ParseState {
    ParseState { pos: skip_ws(buf, s.pos), queue: seq![] }
}

/// What `Parser::read_bytes(n)` gives: the tokens read ahead are dropped and
/// `n` bytes are read raw.
pub open spec fn read_bytes_state(buf: Seq<u8>, s: ParseState, n: int) -> (Result<Seq<u8>, SpecError>, ParseState) {
    let (r, p) = read_raw(buf, s.pos, n);
    (r, ParseState { pos: p, queue: seq![] })
}

} // verus!
