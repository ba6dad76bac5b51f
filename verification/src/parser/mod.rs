//! The parser: from tokens to objects.
pub mod lemmas;
pub mod prefix;
pub mod shift;
pub mod spec;

use std::collections::VecDeque;
use vstd::prelude::*;
use crate::error::{PdfParserError, SpecError};
use crate::lexer::{view_bytes_result, view_lexed, view_token_result, Lexer};
use crate::lexer::spec::lex_next;
use crate::object::{PdfDict, PdfName, PdfObject, PdfString, SpecObject};
use crate::token::{Keyword, Token};
use self::lemmas::{
    lemma_fill, lemma_next_tok_ok,
    lemma_object_progress, lemma_peek_ok, lemma_progress_nonneg, lemma_two_ahead,
};
use self::spec::{
    drop_queued, expect_kw, read_bytes_state, skip_ws_state, fill, length_key, next_tok, parse_array, parse_dict, parse_indirect,
    parse_object, parse_stream, progress, ParseState,
};

verus! {

/// The view of the outcome of parsing an object.
pub open spec fn view_object_result(r: Result<PdfObject, PdfParserError>) -> Result<SpecObject, SpecError> {
    match r {
        Ok(o) => Ok(o@),
        Err(e) => Err(e@),
    }
}

/// The views of a sequence of objects.
pub open spec fn view_objects(v: Seq<PdfObject>) -> Seq<SpecObject> {
    Seq::new(v.len(), |i: int| v[i]@)
}

/// The views of a sequence of dictionary entries.
pub open spec fn view_entries(v: Seq<(PdfName, PdfObject)>) -> Seq<(Seq<u8>, SpecObject)> {
    Seq::new(v.len(), |i: int| (v[i].0@, v[i].1@))
}

/// A parser of PDF objects over a lexer, with the tokens it has read ahead.
pub struct Parser<'a> {
    lexer: Lexer<'a>,
    tokens_queue: VecDeque<Result<Token, PdfParserError>>,
}

impl<'a> Parser<'a> {
    /// The buffer the parser reads.
    pub closed spec fn data(&self) -> Seq<u8> {
        self.lexer.data()
    }

    /// The state of the parser: its lexer's position and the tokens read ahead.
    pub closed spec fn state(&self) -> ParseState {
        ParseState {
            pos: self.lexer.position(),
            queue: self.tokens_queue@.map_values(|r: Result<Token, PdfParserError>| view_token_result(r)),
        }
    }

    pub fn new(lexer: Lexer<'a>) -> (r: Self)
        ensures
            r.data() == lexer.data(),
            r.state() == (ParseState { pos: lexer.position(), queue: seq![] }),
    {
        let r = Self { lexer, tokens_queue: VecDeque::with_capacity(4) };
        assert(r.state().queue =~= seq![]);
        r
    }

    /// The next token: the first one read ahead, or else the next one of the
    /// lexer. The outer `None` comes when the integer part of a number
    /// exceeds `i64::MAX`.
    pub fn next_token_checked(&mut self) -> (r: Option<Option<Result<Token, PdfParserError>>>)
        ensures
            final(self).data() == old(self).data(),
            r is None <==> next_tok(old(self).data(), old(self).state()) is None,
            r matches Some(t) ==> next_tok(old(self).data(), old(self).state()) == Some(
                (view_lexed(t), final(self).state()),
            ),
    {
        if let Some(token) = self.tokens_queue.pop_front() {
            assert(self.state().queue =~= drop_queued(old(self).state(), 1).queue);
            Some(Some(token))
        } else {
            assert(self.state().queue =~= old(self).state().queue);
            self.lexer.next_checked()
        }
    }

    /// The next token: the first one read ahead, or else the next one of the lexer.
    pub fn next_token(&mut self) -> (r: Option<Result<Token, PdfParserError>>)
        requires
            next_tok(old(self).data(), old(self).state()) is Some,
        ensures
            final(self).data() == old(self).data(),
            next_tok(old(self).data(), old(self).state()) == Some((view_lexed(r), final(self).state())),
    {
        match self.next_token_checked() {
            Some(t) => t,
            None => vstd::pervasive::unreached(),
        }
    }

    /// Reads ahead until `n + 1` tokens are queued; tells whether they are,
    /// or gives `None` when a number's integer part exceeds `i64::MAX`.
    fn peek_n_token(&mut self, n: usize) -> (r: Option<bool>)
        requires
            n <= 1,
        ensures
            final(self).data() == old(self).data(),
            r is None <==> fill(old(self).data(), old(self).state(), n as nat) is None,
            r matches Some(got) ==> fill(old(self).data(), old(self).state(), n as nat) == Some(
                (got, final(self).state()),
            ),
            r == Some(true) ==> final(self).tokens_queue@.len() > n,
    {
        while self.tokens_queue.len() < n + 1
            invariant
                n <= 1,
                self.data() == old(self).data(),
                fill(self.data(), self.state(), n as nat) == fill(old(self).data(), old(self).state(), n as nat),
            decreases n + 1 - self.tokens_queue@.len(),
        {
            match self.lexer.next_checked() {
                Some(Some(token)) => {
                    let ghost before = self.state();
                    self.tokens_queue.push_back(token);
                    assert(self.state().queue =~= before.queue.push(view_token_result(token)));
                },
                Some(None) => {
                    return Some(false);
                },
                None => {
                    return None;
                },
            }
        }
        Some(true)
    }

    fn peek_token(&mut self) -> (r: Option<bool>)
        ensures
            final(self).data() == old(self).data(),
            r is None <==> fill(old(self).data(), old(self).state(), 0) is None,
            r matches Some(got) ==> fill(old(self).data(), old(self).state(), 0) == Some((got, final(self).state())),
            r == Some(true) ==> final(self).tokens_queue@.len() > 0,
    {
        self.peek_n_token(0)
    }

    fn peek_snd_token(&mut self) -> (r: Option<bool>)
        ensures
            final(self).data() == old(self).data(),
            r is None <==> fill(old(self).data(), old(self).state(), 1) is None,
            r matches Some(got) ==> fill(old(self).data(), old(self).state(), 1) == Some((got, final(self).state())),
            r == Some(true) ==> final(self).tokens_queue@.len() > 1,
    {
        self.peek_n_token(1)
    }
}

impl<'a> Parser<'a> {
    /// Parses the next object; `None` when a number's integer part exceeds
    /// `i64::MAX` or a stream's end would not fit in a `usize`.
    pub fn parse_object_checked(&mut self) -> (r: Option<Result<PdfObject, PdfParserError>>)
        ensures
            final(self).data() == old(self).data(),
            r is None <==> parse_object(old(self).data(), old(self).state()) is None,
            r matches Some(x) ==> parse_object(old(self).data(), old(self).state()) == Some(
                (view_object_result(x), final(self).state()),
            ),
        decreases progress(old(self).data(), old(self).state()), 0int,
    {
        let ghost buf = self.data();
        let ghost s0 = self.state();
        proof {
            lemma_next_tok_ok(buf, s0);
            lemma_progress_nonneg(buf, s0);
        }
        let tok = match self.next_token_checked() {
            Some(t) => t,
            None => {
                return None;
            },
        };
        Some(match tok {
            Some(Ok(Token::Boolean(b))) => Ok(PdfObject::Boolean(b)),
            Some(Ok(Token::Integer(n))) => {
                let ghost s1 = self.state();
                proof {
                    lemma_peek_ok(buf, s1, 0);
                    lemma_two_ahead(buf, s1);
                }
                let got = match self.peek_token() {
                    Some(g) => g,
                    None => {
                        return None;
                    },
                };
                if got {
                    let second: Option<i64> = match &self.tokens_queue[0] {
                        Ok(Token::Integer(g)) => Some(*g),
                        _ => None,
                    };
                    if let Some(g) = second {
                        let ghost s2 = self.state();
                        assert(s2.queue[0] == view_token_result(self.tokens_queue@[0]));
                        proof {
                            lemma_peek_ok(buf, s2, 1);
                        }
                        let got2 = match self.peek_snd_token() {
                            Some(g) => g,
                            None => {
                                return None;
                            },
                        };
                        if got2 {
                            let ghost s3 = self.state();
                            assert(s3.queue[1] == view_token_result(self.tokens_queue@[1]));
                            let kind: u8 = match &self.tokens_queue[1] {
                                Ok(Token::Keyword(Keyword::R)) => 1,
                                Ok(Token::Keyword(Keyword::Obj)) => 2,
                                _ => 0,
                            };
                            if kind != 0 {
                                self.next_token_checked();
                                assert(self.state().queue =~= drop_queued(s3, 1).queue);
                                self.next_token_checked();
                                assert(self.state().queue =~= drop_queued(s3, 2).queue);
                                assert(self.state() == drop_queued(s3, 2));
                                if kind == 1 {
                                    return Some(Ok(PdfObject::IndirectRef(n, g)));
                                } else {
                                    proof {
                                        lemma_progress_nonneg(buf, drop_queued(s3, 2));
                                    }
                                    return self.parse_indirect_object(n, g);
                                }
                            }
                        }
                    }
                }
                Ok(PdfObject::Integer(n))
            },
            Some(Ok(Token::Real(x))) => Ok(PdfObject::Real(x)),
            Some(Ok(Token::Null)) => Ok(PdfObject::Null),
            Some(Ok(Token::Name(b))) => Ok(PdfObject::Name(PdfName::new(b))),
            Some(Ok(Token::LiteralString(b))) => Ok(PdfObject::String(PdfString::Literal(b))),
            Some(Ok(Token::HexString(b))) => Ok(PdfObject::String(PdfString::Hex(b))),
            Some(Ok(Token::ArrayBegin)) => {
                let ghost s1 = self.state();
                let mut array: Vec<PdfObject> = Vec::new();
                assert(view_objects(array@) =~= seq![]);
                assert(parse_object(buf, s0) == parse_array(buf, s1, seq![]));
                loop
                    invariant
                        self.data() == buf,
                        buf == old(self).data(),
                        s0 == old(self).state(),
                        progress(buf, self.state()) <= progress(buf, s1),
                        progress(buf, s1) < progress(buf, s0),
                        parse_array(buf, self.state(), view_objects(array@)) == parse_array(buf, s1, seq![]),
                        parse_object(buf, s0) == parse_array(buf, s1, seq![]),
                    decreases progress(buf, self.state()),
                {
                    let ghost s = self.state();
                    proof {
                        lemma_peek_ok(buf, s, 0);
                        lemma_fill(buf, s, 0);
                        lemma_progress_nonneg(buf, s);
                    }
                    match self.peek_token() {
                        Some(true) => {},
                        Some(false) => {
                            return Some(Err(PdfParserError::Eof));
                        },
                        None => {
                            return None;
                        },
                    }
                    let ghost sp = self.state();
                    assert(sp.queue[0] == view_token_result(self.tokens_queue@[0]));
                    if let Err(e) = &self.tokens_queue[0] {
                        return Some(Err(e.clone()));
                    }
                    let at_end = matches!(&self.tokens_queue[0], Ok(Token::ArrayEnd));
                    if at_end {
                        self.next_token_checked();
                        assert(self.state().queue =~= drop_queued(sp, 1).queue);
                        assert(self.state() == drop_queued(sp, 1));
                        let r = PdfObject::Array(array);
                        assert(r@ == SpecObject::Array(view_objects(array@))) by {
                            assert(r@->Array_0 =~= view_objects(array@));
                        }
                        return Some(Ok(r));
                    }
                    proof {
                        lemma_object_progress(buf, sp);
                        lemma_progress_nonneg(buf, sp);
                    }
                    match self.parse_object_checked() {
                        Some(Ok(o)) => {
                            proof {
                                lemma_progress_nonneg(buf, self.state());
                            }
                            let ghost prev = array@;
                            array.push(o);
                            assert(view_objects(array@) =~= view_objects(prev).push(o@));
                        },
                        Some(Err(e)) => {
                            return Some(Err(e));
                        },
                        None => {
                            return None;
                        },
                    }
                }
            },
            Some(Ok(Token::DictBegin)) => {
                let ghost s1 = self.state();
                let mut dict: Vec<(PdfName, PdfObject)> = Vec::new();
                assert(view_entries(dict@) =~= seq![]);
                assert(parse_object(buf, s0) == parse_dict(buf, s1, seq![]));
                loop
                    invariant
                        self.data() == buf,
                        buf == old(self).data(),
                        s0 == old(self).state(),
                        progress(buf, self.state()) <= progress(buf, s1),
                        progress(buf, s1) < progress(buf, s0),
                        parse_dict(buf, self.state(), view_entries(dict@)) == parse_dict(buf, s1, seq![]),
                        parse_object(buf, s0) == parse_dict(buf, s1, seq![]),
                    decreases progress(buf, self.state()),
                {
                    let ghost s = self.state();
                    proof {
                        lemma_next_tok_ok(buf, s);
                        lemma_progress_nonneg(buf, s);
                    }
                    let t = match self.next_token_checked() {
                        Some(t) => t,
                        None => {
                            return None;
                        },
                    };
                    match t {
                        Some(Ok(Token::DictEnd)) => {
                            let d = PdfDict::new(dict);
                            assert(d@ =~= view_entries(dict@));
                            return Some(Ok(PdfObject::Dictionary(d)));
                        },
                        Some(Ok(Token::Name(key))) => {
                            let ghost sk = self.state();
                            proof {
                                lemma_object_progress(buf, sk);
                                lemma_progress_nonneg(buf, sk);
                            }
                            match self.parse_object_checked() {
                                Some(Ok(value)) => {
                                    proof {
                                        lemma_progress_nonneg(buf, self.state());
                                    }
                                    let ghost prev = dict@;
                                    let name = PdfName::new(key);
                                    dict.push((name, value));
                                    assert(view_entries(dict@) =~= view_entries(prev).push((key@, value@)));
                                },
                                Some(Err(e)) => {
                                    return Some(Err(e));
                                },
                                None => {
                                    return None;
                                },
                            }
                        },
                        Some(Ok(other)) => {
                            return Some(Err(PdfParserError::UnexpectedToken(other)));
                        },
                        Some(Err(e)) => {
                            return Some(Err(e));
                        },
                        None => {
                            return Some(Err(PdfParserError::Eof));
                        },
                    }
                }
            },
            Some(Ok(other)) => Err(PdfParserError::UnexpectedToken(other)),
            Some(Err(e)) => Err(e),
            None => Err(PdfParserError::Eof),
        })
    }

    /// Parses the next object.
    pub fn parse_object(&mut self) -> (r: Result<PdfObject, PdfParserError>)
        requires
            parse_object(old(self).data(), old(self).state()) is Some,
        ensures
            final(self).data() == old(self).data(),
            parse_object(old(self).data(), old(self).state()) == Some(
                (view_object_result(r), final(self).state()),
            ),
    {
        match self.parse_object_checked() {
            Some(r) => r,
            None => vstd::pervasive::unreached(),
        }
    }

    fn parse_indirect_object(&mut self, num: i64, generation: i64) -> (r: Option<Result<PdfObject, PdfParserError>>)
        ensures
            final(self).data() == old(self).data(),
            r is None <==> parse_indirect(old(self).data(), old(self).state(), num, generation) is None,
            r matches Some(x) ==> parse_indirect(old(self).data(), old(self).state(), num, generation) == Some(
                (view_object_result(x), final(self).state()),
            ),
        decreases progress(old(self).data(), old(self).state()), 1int,
    {
        let ghost buf = self.data();
        proof {
            lemma_progress_nonneg(buf, self.state());
        }
        let value = match self.parse_object_checked() {
            Some(Ok(v)) => v,
            Some(Err(e)) => {
                return Some(Err(e));
            },
            None => {
                return None;
            },
        };
        let t = match self.next_token_checked() {
            Some(t) => t,
            None => {
                return None;
            },
        };
        match t {
            Some(Ok(Token::Keyword(Keyword::EndObj))) => Some(
                Ok(PdfObject::IndirectObject { num, generation, value: Box::new(value) }),
            ),
            Some(Ok(Token::Keyword(Keyword::Stream))) => match value {
                PdfObject::Dictionary(dict) => {
                    let stream = match self.parse_stream(dict) {
                        Some(Ok(s)) => s,
                        Some(Err(e)) => {
                            return Some(Err(e));
                        },
                        None => {
                            return None;
                        },
                    };
                    let t2 = match self.next_token_checked() {
                        Some(t) => t,
                        None => {
                            return None;
                        },
                    };
                    match t2 {
                        Some(Ok(Token::Keyword(Keyword::EndObj))) => {},
                        Some(Ok(other)) => {
                            return Some(Err(PdfParserError::UnexpectedToken(other)));
                        },
                        Some(Err(e)) => {
                            return Some(Err(e));
                        },
                        None => {
                            return Some(Err(PdfParserError::Eof));
                        },
                    }
                    Some(Ok(PdfObject::IndirectObject { num, generation, value: Box::new(stream) }))
                },
                _ => Some(Err(PdfParserError::StreamWithoutDict)),
            },
            Some(Ok(other)) => Some(Err(PdfParserError::UnexpectedToken(other))),
            Some(Err(e)) => Some(Err(e)),
            None => Some(Err(PdfParserError::Eof)),
        }
    }

    fn parse_stream(&mut self, dict: PdfDict) -> (r: Option<Result<PdfObject, PdfParserError>>)
        ensures
            final(self).data() == old(self).data(),
            r is None <==> parse_stream(old(self).data(), old(self).state(), dict@) is None,
            r matches Some(x) ==> parse_stream(old(self).data(), old(self).state(), dict@) == Some(
                (view_object_result(x), final(self).state()),
            ),
    {
        let length_key = PdfName::new(vec![0x4c, 0x65, 0x6e, 0x67, 0x74, 0x68]);
        assert(length_key@ =~= spec::length_key());
        let length = match dict.get_required(&length_key) {
            Ok(PdfObject::Integer(n)) => *n as usize,
            Ok(_) => {
                return Some(Err(PdfParserError::InvalidDictValue(length_key)));
            },
            Err(e) => {
                return Some(Err(PdfParserError::PdfError(e)));
            },
        };
        self.tokens_queue.clear();
        assert(self.state().queue =~= seq![]);
        let data = match self.lexer.read_stream_data_checked(length) {
            Some(Ok(d)) => d,
            Some(Err(e)) => {
                return Some(Err(e));
            },
            None => {
                return None;
            },
        };
        let t = match self.next_token_checked() {
            Some(t) => t,
            None => {
                return None;
            },
        };
        match t {
            Some(Ok(Token::Keyword(Keyword::EndStream))) => {},
            Some(Ok(other)) => {
                return Some(Err(PdfParserError::UnexpectedToken(other)));
            },
            Some(Err(e)) => {
                return Some(Err(e));
            },
            None => {
                return Some(Err(PdfParserError::Eof));
            },
        }
        Some(Ok(PdfObject::Stream { dict, data }))
    }
}

impl<'a> Parser<'a> {
    /// Takes the next token, which must be the keyword `expected`; `None`
    /// when a number's integer part exceeds `i64::MAX`.
    pub fn expect_keyword_checked(&mut self, expected: Keyword) -> (r: Option<Result<(), PdfParserError>>)
        ensures
            final(self).data() == old(self).data(),
            r is None <==> expect_kw(old(self).data(), old(self).state(), expected) is None,
            r matches Some(x) ==> expect_kw(old(self).data(), old(self).state(), expected) == Some(
                (
                    match x {
                        Ok(()) => Ok(()),
                        Err(e) => Err(e@),
                    },
                    final(self).state(),
                ),
            ),
    {
        let t = match self.next_token_checked() {
            Some(t) => t,
            None => {
                return None;
            },
        };
        Some(
            match t {
                Some(Ok(Token::Keyword(k))) => {
                    if k == expected {
                        Ok(())
                    } else {
                        Err(PdfParserError::UnexpectedToken(Token::Keyword(k)))
                    }
                },
                Some(Ok(other)) => Err(PdfParserError::UnexpectedToken(other)),
                Some(Err(e)) => Err(e),
                None => Err(PdfParserError::Eof),
            },
        )
    }

    /// Takes the next token, which must be the keyword `expected`.
    pub fn expect_keyword(&mut self, expected: Keyword) -> (r: Result<(), PdfParserError>)
        requires
            next_tok(old(self).data(), old(self).state()) is Some,
        ensures
            final(self).data() == old(self).data(),
            expect_kw(old(self).data(), old(self).state(), expected) == Some(
                (
                    match r {
                        Ok(()) => Ok(()),
                        Err(e) => Err(e@),
                    },
                    final(self).state(),
                ),
            ),
    {
        match self.expect_keyword_checked(expected) {
            Some(r) => r,
            None => vstd::pervasive::unreached(),
        }
    }

    /// Drops the tokens read ahead and skips white space.
    pub fn skip_whitespace(&mut self)
        ensures
            final(self).data() == old(self).data(),
            final(self).state() == skip_ws_state(old(self).data(), old(self).state()),
    {
        self.tokens_queue.clear();
        self.lexer.skip_white_space();
        assert(self.state().queue =~= seq![]);
    }

    /// Drops the tokens read ahead and reads the next `n` bytes raw.
    pub fn read_bytes(&mut self, n: usize) -> (r: Result<Vec<u8>, PdfParserError>)
        ensures
            final(self).data() == old(self).data(),
            read_bytes_state(old(self).data(), old(self).state(), n as int) == (
                view_bytes_result(r),
                final(self).state(),
            ),
    {
        self.tokens_queue.clear();
        let r = self.lexer.read_bytes(n);
        assert(self.state().queue =~= seq![]);
        r
    }
}

} // verus!
