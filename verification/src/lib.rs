//! A verified reader for the object syntax of PDF files: a lexer, an object
//! parser, and the cross-reference table and trailer at the end of a file.
pub mod error;
pub mod guarantees;
pub mod laws;
pub mod lexer;
pub mod object;
pub mod parser;
pub mod reader;
pub mod token;

pub use error::PdfParserError;
pub use lexer::Lexer;
pub use object::{PdfDict, PdfError, PdfName, PdfObject, PdfReal, PdfString};
pub use parser::Parser;
pub use reader::document::{find_startxref, PdfDocument};
pub use reader::error::PdfDocumentError;
pub use reader::xref::{XRefEntry, XRefTable};
pub use token::{Keyword, Token};
