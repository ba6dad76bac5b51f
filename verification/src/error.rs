//! The errors of the lexer and the parser.
use vstd::prelude::*;
use crate::object::{PdfError, PdfName};
use crate::token::{SpecToken, Token};

verus! {

/// The mathematical view of a lexer or parser error.
pub enum SpecError {
    Eof,
    InvalidByte(u8, int),
    UnknownKeyword(Seq<char>, int),
    UnexpectedToken(SpecToken),
    InvalidDictValue(Seq<u8>),
    StreamWithoutDict,
    KeyNotFound(Seq<u8>),
}

/// An error of the lexer or the parser.
#[derive(Debug, PartialEq)]
pub enum PdfParserError {
    Eof,
    InvalidByte(u8, usize),
    UnknownKeyword(String, usize),
    UnexpectedToken(Token),
    InvalidDictValue(PdfName),
    StreamWithoutDict,
    PdfError(PdfError),
}

impl View for PdfParserError {
    type V = SpecError;

    open spec fn view(&self) -> SpecError {
        match self {
            PdfParserError::Eof => SpecError::Eof,
            PdfParserError::InvalidByte(b, p) => SpecError::InvalidByte(*b, *p as int),
            PdfParserError::UnknownKeyword(s, p) => SpecError::UnknownKeyword(s@, *p as int),
            PdfParserError::UnexpectedToken(t) => SpecError::UnexpectedToken(t@),
            PdfParserError::InvalidDictValue(n) => SpecError::InvalidDictValue(n@),
            PdfParserError::StreamWithoutDict => SpecError::StreamWithoutDict,
            PdfParserError::PdfError(PdfError::KeyNotFound(n)) => SpecError::KeyNotFound(n@),
        }
    }
}

impl Clone for PdfParserError {
    fn clone(&self) -> (r: Self)
        ensures
            r@ == self@,
    {
        match self {
            PdfParserError::Eof => PdfParserError::Eof,
            PdfParserError::InvalidByte(b, p) => PdfParserError::InvalidByte(*b, *p),
            PdfParserError::UnknownKeyword(s, p) => PdfParserError::UnknownKeyword(s.clone(), *p),
            PdfParserError::UnexpectedToken(t) => PdfParserError::UnexpectedToken(t.clone()),
            PdfParserError::InvalidDictValue(n) => PdfParserError::InvalidDictValue(n.clone()),
            PdfParserError::StreamWithoutDict => PdfParserError::StreamWithoutDict,
            PdfParserError::PdfError(PdfError::KeyNotFound(n)) => PdfParserError::PdfError(
                PdfError::KeyNotFound(n.clone()),
            ),
        }
    }
}

impl From<PdfError> for PdfParserError {
    fn from(value: PdfError) -> (r: Self) {
        PdfParserError::PdfError(value)
    }
}

impl vstd::std_specs::convert::FromSpecImpl<PdfError> for PdfParserError {
    open spec fn obeys_from_spec() -> bool {
        true
    }

    open spec fn from_spec(v: PdfError) -> PdfParserError {
        PdfParserError::PdfError(v)
    }
}

} // verus!
