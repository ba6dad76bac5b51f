//! The tokens of the PDF object syntax.
use vstd::prelude::*;
use crate::object::{PdfReal, SpecReal};

verus! {

/// A keyword of the PDF file structure.
#[derive(Debug, Clone, Copy, PartialEq, Eq, Structural)]
pub enum Keyword {
    Obj,
    EndObj,
    Stream,
    EndStream,
    R,
    XRef,
    Trailer,
    StartXRef,
}

/// The mathematical view of a token.
pub enum SpecToken {
    Boolean(bool),
    Integer(i64),
    Real(SpecReal),
    Name(Seq<u8>),
    LiteralString(Seq<u8>),
    HexString(Seq<u8>),
    Null,
    ArrayBegin,
    ArrayEnd,
    DictBegin,
    DictEnd,
    Keyword(Keyword),
}

/// A token of the PDF object syntax.
#[derive(Debug, PartialEq)]
pub enum Token {
    Boolean(bool),
    Integer(i64),
    Real(PdfReal),
    Name(Vec<u8>),
    LiteralString(Vec<u8>),
    HexString(Vec<u8>),
    Null,
    ArrayBegin,
    ArrayEnd,
    DictBegin,
    DictEnd,
    Keyword(Keyword),
}

impl View for Token {
    type V = SpecToken;

    open spec fn view(&self) -> SpecToken {
        match self {
            Token::Boolean(b) => SpecToken::Boolean(*b),
            Token::Integer(n) => SpecToken::Integer(*n),
            Token::Real(r) => SpecToken::Real(r@),
            Token::Name(b) => SpecToken::Name(b@),
            Token::LiteralString(b) => SpecToken::LiteralString(b@),
            Token::HexString(b) => SpecToken::HexString(b@),
            Token::Null => SpecToken::Null,
            Token::ArrayBegin => SpecToken::ArrayBegin,
            Token::ArrayEnd => SpecToken::ArrayEnd,
            Token::DictBegin => SpecToken::DictBegin,
            Token::DictEnd => SpecToken::DictEnd,
            Token::Keyword(k) => SpecToken::Keyword(*k),
        }
    }
}

fn clone_bytes(b: &Vec<u8>) -> (r: Vec<u8>)
    ensures
        r@ == b@,
{
    let r = b.clone();
    assert(r@ =~= b@);
    r
}

impl Clone for Token {
    fn clone(&self) -> (r: Self)
        ensures
            r@ == self@,
    {
        match self {
            Token::Boolean(b) => Token::Boolean(*b),
            Token::Integer(n) => Token::Integer(*n),
            Token::Real(r) => Token::Real(r.clone()),
            Token::Name(b) => Token::Name(clone_bytes(b)),
            Token::LiteralString(b) => Token::LiteralString(clone_bytes(b)),
            Token::HexString(b) => Token::HexString(clone_bytes(b)),
            Token::Null => Token::Null,
            Token::ArrayBegin => Token::ArrayBegin,
            Token::ArrayEnd => Token::ArrayEnd,
            Token::DictBegin => Token::DictBegin,
            Token::DictEnd => Token::DictEnd,
            Token::Keyword(k) => Token::Keyword(*k),
        }
    }
}

} // verus!
