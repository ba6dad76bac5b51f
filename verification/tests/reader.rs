use pdfox::{find_startxref, PdfDocument, PdfDocumentError, PdfName, PdfObject, XRefTable};

fn name(bytes: &[u8]) -> PdfName {
    PdfName::from(bytes)
}

// --- find_startxref ---

#[test]
fn test_find_startxref_lf() {
    assert_eq!(find_startxref(b"startxref\n42\n%%EOF").unwrap(), 42);
}

#[test]
fn test_find_startxref_crlf() {
    assert_eq!(find_startxref(b"startxref\r\n12345\r\n%%EOF").unwrap(), 12345);
}

#[test]
fn test_find_startxref_large_file() {
    let mut data = vec![b'X'; 200];
    data.extend_from_slice(b"startxref\n99\n%%EOF");
    assert_eq!(find_startxref(&data).unwrap(), 99);
}

#[test]
fn test_find_startxref_missing() {
    assert!(matches!(find_startxref(b"%%EOF"), Err(PdfDocumentError::InvalidHeader)));
}

#[test]
fn test_find_startxref_invalid_eol() {
    assert!(matches!(
        find_startxref(b"startxref X42\n%%EOF"),
        Err(PdfDocumentError::InvalidHeader)
    ));
}

// --- from_bytes ---

#[test]
fn test_from_bytes_lf() {
    let data = b"xref\n0 1\n0000000000 65535 f\r\ntrailer\n<</Size 1>>\nstartxref\n0\n%%EOF";
    assert!(PdfDocument::from_bytes(data.to_vec()).is_ok());
}

#[test]
fn test_from_bytes_crlf() {
    let data =
        b"xref\n0 1\n0000000000 65535 f\r\ntrailer\n<</Size 1>>\r\nstartxref\r\n0\r\n%%EOF";
    assert!(PdfDocument::from_bytes(data.to_vec()).is_ok());
}

#[test]
fn test_from_bytes_missing_startxref() {
    assert!(matches!(
        PdfDocument::from_bytes(b"garbage data here".to_vec()),
        Err(PdfDocumentError::InvalidHeader)
    ));
}

// --- XRefTable::parse ---

#[test]
fn test_parse_simple() {
    let data = b"xref\n0 2\n0000000000 65535 f\r\n0000000009 00000 n\r\ntrailer\n<</Size 2>>";
    let (_, trailer) = XRefTable::parse(data, 0).unwrap();
    assert_eq!(trailer.get(&name(b"Size")), Some(&PdfObject::Integer(2)));
}

#[test]
fn test_parse_with_root() {
    let data =
        b"xref\n0 2\n0000000000 65535 f\r\n0000000009 00000 n\r\ntrailer\n<</Size 2 /Root 1 0 R>>";
    let (_, trailer) = XRefTable::parse(data, 0).unwrap();
    assert_eq!(trailer.get(&name(b"Root")), Some(&PdfObject::IndirectRef(1, 0)));
}

#[test]
fn test_parse_multiple_subsections() {
    let data =
        b"xref\n0 1\n0000000000 65535 f\r\n5 1\n0000000100 00000 n\r\ntrailer\n<</Size 6>>";
    let (_, trailer) = XRefTable::parse(data, 0).unwrap();
    assert_eq!(trailer.get(&name(b"Size")), Some(&PdfObject::Integer(6)));
}

#[test]
fn test_parse_at_offset() {
    // xref table starts after some body content
    let body = b"1 0 obj\ntrue\nendobj\n"; // 20 bytes
    let xref = b"xref\n0 1\n0000000000 65535 f\r\ntrailer\n<</Size 1>>";
    let mut data = body.to_vec();
    data.extend_from_slice(xref);
    let (_, trailer) = XRefTable::parse(&data, body.len()).unwrap();
    assert_eq!(trailer.get(&name(b"Size")), Some(&PdfObject::Integer(1)));
}

#[test]
fn test_parse_missing_xref_keyword() {
    let data = b"0 1\n0000000000 65535 f\r\ntrailer\n<<>>";
    assert!(XRefTable::parse(data, 0).is_err());
}

#[test]
fn test_parse_invalid_gen() {
    let data = b"xref\n0 1\n0000000000 XXXXX n\r\ntrailer\n<<>>";
    assert!(matches!(XRefTable::parse(data, 0), Err(PdfDocumentError::InvalidXRef)));
}

#[test]
fn test_parse_invalid_status() {
    // status is neither 'n' nor 'f'
    let data = b"xref\n0 1\n0000000000 00000 x\r\ntrailer\n<<>>";
    assert!(matches!(XRefTable::parse(data, 0), Err(PdfDocumentError::InvalidXRef)));
}

#[test]
fn test_parse_truncated_entry() {
    // entry is only 10 bytes instead of 20
    let data = b"xref\n0 1\n0000000000";
    assert!(XRefTable::parse(data, 0).is_err());
}

#[test]
fn test_parse_missing_trailer() {
    let data = b"xref\n0 1\n0000000000 65535 f\r\n";
    assert!(matches!(XRefTable::parse(data, 0), Err(PdfDocumentError::Eof)));
}

#[test]
fn test_parse_trailer_not_dict() {
    let data = b"xref\n0 1\n0000000000 65535 f\r\ntrailer\n42";
    assert!(matches!(XRefTable::parse(data, 0), Err(PdfDocumentError::UnexpectedObject(_))));
}
