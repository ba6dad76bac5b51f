//! The errors of reading a document's cross-reference table and trailer.
use vstd::prelude::*;
use crate::error::{PdfParserError, SpecError};
use crate::object::{PdfObject, SpecObject};
use crate::token::{SpecToken, Token};

verus! {

/// The mathematical view of a document error.
pub enum SpecDocError {
    Eof,
    InvalidHeader,
    InvalidXRef,
    UnexpectedObject(SpecObject),
    UnexpectedToken(SpecToken),
    Parser(SpecError),
}

/// An error of reading a document.
#[derive(Debug, Clone)]
pub enum PdfDocumentError {
    Eof,
    InvalidHeader,
    InvalidXRef,
    UnexpectedObject(PdfObject),
    UnexpectedToken(Token),
    PdfParserError(PdfParserError),
}

impl View for PdfDocumentError {
    type V = SpecDocError;

    open spec fn view(&self) -> SpecDocError {
        match self {
            PdfDocumentError::Eof => SpecDocError::Eof,
            PdfDocumentError::InvalidHeader => SpecDocError::InvalidHeader,
            PdfDocumentError::InvalidXRef => SpecDocError::InvalidXRef,
            PdfDocumentError::UnexpectedObject(o) => SpecDocError::UnexpectedObject(o@),
            PdfDocumentError::UnexpectedToken(t) => SpecDocError::UnexpectedToken(t@),
            PdfDocumentError::PdfParserError(e) => SpecDocError::Parser(e@),
        }
    }
}

impl From<PdfParserError> for PdfDocumentError {
    fn from(value: PdfParserError) -> (r: Self) {
        PdfDocumentError::PdfParserError(value)
    }
}

impl vstd::std_specs::convert::FromSpecImpl<PdfParserError> for PdfDocumentError {
    open spec fn obeys_from_spec() -> bool {
        true
    }

    open spec fn from_spec(v: PdfParserError) -> PdfDocumentError {
        PdfDocumentError::PdfParserError(v)
    }
}

} // verus!
