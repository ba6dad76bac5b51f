//! Reading a document: the `startxref` offset, the cross-reference table and
//! the trailer.
pub mod document;
pub mod error;
pub mod field;
pub mod xref;
