use pdfox::{Keyword, Lexer, Parser, PdfDict, PdfName, PdfObject, PdfParserError, PdfString, Token};

fn parser(input: &[u8]) -> Parser<'_> {
    Parser::new(Lexer::new(input))
}

fn name(bytes: &[u8]) -> PdfName {
    PdfName::from(bytes)
}

fn dict(entries: Vec<(PdfName, PdfObject)>) -> PdfDict {
    PdfDict::from(entries)
}

// --- scalars ---

#[test]
fn parser_test_boolean_true() {
    assert_eq!(parser(b"true").parse_object(), Ok(PdfObject::Boolean(true)));
}

#[test]
fn parser_test_boolean_false() {
    assert_eq!(parser(b"false").parse_object(), Ok(PdfObject::Boolean(false)));
}

#[test]
fn test_integer() {
    assert_eq!(parser(b"42").parse_object(), Ok(PdfObject::Integer(42)));
}

#[test]
fn test_real() {
    match parser(b"3.14").parse_object() {
        Ok(PdfObject::Real(r)) => {
            let mut frac: f64 = 0.0;
            let mut divisor = 10.0f64;
            for d in r.frac_digits.iter() {
                frac += *d as f64 / divisor;
                divisor *= 10.0;
            }
            let sign: f64 = if r.negative { -1.0 } else { 1.0 };
            assert_eq!(sign * (r.int_part as f64 + frac), 3.14);
        }
        other => panic!("expected a real, got {:?}", other),
    }
}

#[test]
fn parser_test_null() {
    assert_eq!(parser(b"null").parse_object(), Ok(PdfObject::Null));
}

#[test]
fn test_name() {
    assert_eq!(parser(b"/Type").parse_object(), Ok(PdfObject::Name(name(b"Type"))));
}

#[test]
fn test_literal_string() {
    assert_eq!(
        parser(b"(Hello)").parse_object(),
        Ok(PdfObject::String(PdfString::Literal(b"Hello".to_vec())))
    );
}

#[test]
fn test_hex_string() {
    assert_eq!(
        parser(b"<48656C6C6F>").parse_object(),
        Ok(PdfObject::String(PdfString::Hex(b"Hello".to_vec())))
    );
}

// --- arrays ---

#[test]
fn test_array_empty() {
    assert_eq!(parser(b"[]").parse_object(), Ok(PdfObject::Array(vec![])));
}

#[test]
fn test_array_integers() {
    assert_eq!(
        parser(b"[1 2 3]").parse_object(),
        Ok(PdfObject::Array(vec![
            PdfObject::Integer(1),
            PdfObject::Integer(2),
            PdfObject::Integer(3),
        ]))
    );
}

#[test]
fn test_array_mixed() {
    assert_eq!(
        parser(b"[true 1 /Name]").parse_object(),
        Ok(PdfObject::Array(vec![
            PdfObject::Boolean(true),
            PdfObject::Integer(1),
            PdfObject::Name(name(b"Name")),
        ]))
    );
}

#[test]
fn test_array_nested() {
    assert_eq!(
        parser(b"[[1 2] [3]]").parse_object(),
        Ok(PdfObject::Array(vec![
            PdfObject::Array(vec![PdfObject::Integer(1), PdfObject::Integer(2)]),
            PdfObject::Array(vec![PdfObject::Integer(3)]),
        ]))
    );
}

#[test]
fn test_array_eof() {
    assert_eq!(parser(b"[1 2").parse_object(), Err(PdfParserError::Eof));
}

// --- dictionaries ---

#[test]
fn test_dict_empty() {
    assert_eq!(parser(b"<<>>").parse_object(), Ok(PdfObject::Dictionary(dict(vec![]))));
}

#[test]
fn test_dict_single_entry() {
    assert_eq!(
        parser(b"<</Type /Page>>").parse_object(),
        Ok(PdfObject::Dictionary(dict(vec![(name(b"Type"), PdfObject::Name(name(b"Page")))])))
    );
}

#[test]
fn test_dict_multiple_entries() {
    assert_eq!(
        parser(b"<</Width 100 /Height 200>>").parse_object(),
        Ok(PdfObject::Dictionary(dict(vec![
            (name(b"Width"), PdfObject::Integer(100)),
            (name(b"Height"), PdfObject::Integer(200)),
        ])))
    );
}

#[test]
fn test_dict_nested() {
    assert_eq!(
        parser(b"<</Inner <</Key 1>>>>").parse_object(),
        Ok(PdfObject::Dictionary(dict(vec![(
            name(b"Inner"),
            PdfObject::Dictionary(dict(vec![(name(b"Key"), PdfObject::Integer(1))])),
        )])))
    );
}

#[test]
fn test_dict_with_array_value() {
    assert_eq!(
        parser(b"<</Kids [1 2]>>").parse_object(),
        Ok(PdfObject::Dictionary(dict(vec![(
            name(b"Kids"),
            PdfObject::Array(vec![PdfObject::Integer(1), PdfObject::Integer(2)]),
        )])))
    );
}

#[test]
fn test_dict_invalid_key() {
    assert_eq!(
        parser(b"<<true /Val>>").parse_object(),
        Err(PdfParserError::UnexpectedToken(Token::Boolean(true)))
    );
}

#[test]
fn test_dict_eof() {
    assert_eq!(parser(b"<</Key").parse_object(), Err(PdfParserError::Eof));
}

// --- indirect references ---

#[test]
fn test_indirect_ref_simple() {
    assert_eq!(parser(b"1 0 R").parse_object(), Ok(PdfObject::IndirectRef(1, 0)));
}

#[test]
fn test_indirect_ref_nonzero_generation() {
    assert_eq!(parser(b"5 3 R").parse_object(), Ok(PdfObject::IndirectRef(5, 3)));
}

#[test]
fn test_integer_not_indirect_ref_no_second_int() {
    assert_eq!(parser(b"42").parse_object(), Ok(PdfObject::Integer(42)));
}

#[test]
fn test_integer_not_indirect_ref_no_r() {
    let mut p = parser(b"1 2");
    assert_eq!(p.parse_object(), Ok(PdfObject::Integer(1)));
    assert_eq!(p.parse_object(), Ok(PdfObject::Integer(2)));
}

#[test]
fn test_indirect_object_eof_after_obj() {
    assert_eq!(parser(b"1 2 obj").parse_object(), Err(PdfParserError::Eof));
}

#[test]
fn test_indirect_ref_in_array() {
    assert_eq!(
        parser(b"[1 0 R 2 0 R]").parse_object(),
        Ok(PdfObject::Array(vec![PdfObject::IndirectRef(1, 0), PdfObject::IndirectRef(2, 0)]))
    );
}

#[test]
fn test_indirect_ref_as_dict_value() {
    assert_eq!(
        parser(b"<</Parent 3 0 R>>").parse_object(),
        Ok(PdfObject::Dictionary(dict(vec![(name(b"Parent"), PdfObject::IndirectRef(3, 0))])))
    );
}

#[test]
fn test_indirect_ref_followed_by_other_token() {
    let mut p = parser(b"1 0 R /Next");
    assert_eq!(p.parse_object(), Ok(PdfObject::IndirectRef(1, 0)));
    assert_eq!(p.parse_object(), Ok(PdfObject::Name(name(b"Next"))));
}

// --- indirect objects ---

#[test]
fn test_indirect_object_integer() {
    assert_eq!(
        parser(b"1 0 obj 42 endobj").parse_object(),
        Ok(PdfObject::IndirectObject {
            num: 1,
            generation: 0,
            value: Box::new(PdfObject::Integer(42)),
        })
    );
}

#[test]
fn test_indirect_object_nonzero_generation() {
    assert_eq!(
        parser(b"3 2 obj true endobj").parse_object(),
        Ok(PdfObject::IndirectObject {
            num: 3,
            generation: 2,
            value: Box::new(PdfObject::Boolean(true)),
        })
    );
}

#[test]
fn test_indirect_object_string() {
    assert_eq!(
        parser(b"2 0 obj (Hello) endobj").parse_object(),
        Ok(PdfObject::IndirectObject {
            num: 2,
            generation: 0,
            value: Box::new(PdfObject::String(PdfString::Literal(b"Hello".to_vec()))),
        })
    );
}

#[test]
fn test_indirect_object_dictionary() {
    assert_eq!(
        parser(b"4 0 obj <</Type /Page>> endobj").parse_object(),
        Ok(PdfObject::IndirectObject {
            num: 4,
            generation: 0,
            value: Box::new(PdfObject::Dictionary(dict(vec![(
                name(b"Type"),
                PdfObject::Name(name(b"Page")),
            )]))),
        })
    );
}

#[test]
fn test_indirect_object_with_indirect_ref_value() {
    assert_eq!(
        parser(b"5 0 obj 3 0 R endobj").parse_object(),
        Ok(PdfObject::IndirectObject {
            num: 5,
            generation: 0,
            value: Box::new(PdfObject::IndirectRef(3, 0)),
        })
    );
}

#[test]
fn test_indirect_object_missing_endobj() {
    assert_eq!(parser(b"1 0 obj 42").parse_object(), Err(PdfParserError::Eof));
}

#[test]
fn test_indirect_object_unexpected_token_instead_of_endobj() {
    assert_eq!(
        parser(b"1 0 obj 42 obj").parse_object(),
        Err(PdfParserError::UnexpectedToken(Token::Keyword(Keyword::Obj)))
    );
}

#[test]
fn test_indirect_object_followed_by_another() {
    let mut p = parser(b"1 0 obj 42 endobj 2 0 obj true endobj");
    assert_eq!(
        p.parse_object(),
        Ok(PdfObject::IndirectObject {
            num: 1,
            generation: 0,
            value: Box::new(PdfObject::Integer(42)),
        })
    );
    assert_eq!(
        p.parse_object(),
        Ok(PdfObject::IndirectObject {
            num: 2,
            generation: 0,
            value: Box::new(PdfObject::Boolean(true)),
        })
    );
}

// --- streams ---

#[test]
fn test_stream_simple() {
    let input = b"1 0 obj\n<< /Length 5 >>\nstream\nHello\nendstream\nendobj";
    assert_eq!(
        parser(input).parse_object(),
        Ok(PdfObject::IndirectObject {
            num: 1,
            generation: 0,
            value: Box::new(PdfObject::Stream {
                dict: dict(vec![(name(b"Length"), PdfObject::Integer(5))]),
                data: b"Hello".to_vec(),
            }),
        })
    );
}

#[test]
fn test_stream_binary_data() {
    let input = b"2 0 obj\n<< /Length 4 >>\nstream\n\x00\x01\x02\x03\nendstream\nendobj";
    assert_eq!(
        parser(input).parse_object(),
        Ok(PdfObject::IndirectObject {
            num: 2,
            generation: 0,
            value: Box::new(PdfObject::Stream {
                dict: dict(vec![(name(b"Length"), PdfObject::Integer(4))]),
                data: vec![0x00, 0x01, 0x02, 0x03],
            }),
        })
    );
}

#[test]
fn test_stream_missing_length() {
    let input = b"1 0 obj\n<< /Type /XObject >>\nstream\nHello\nendstream\nendobj";
    assert!(matches!(parser(input).parse_object(), Err(PdfParserError::PdfError(_))));
}

#[test]
fn test_stream_invalid_length_type() {
    let input = b"1 0 obj\n<< /Length true >>\nstream\nHello\nendstream\nendobj";
    assert_eq!(
        parser(input).parse_object(),
        Err(PdfParserError::InvalidDictValue(name(b"Length")))
    );
}

#[test]
fn test_stream_without_dict() {
    let input = b"1 0 obj\n42\nstream\nHello\nendstream\nendobj";
    assert_eq!(parser(input).parse_object(), Err(PdfParserError::StreamWithoutDict));
}

#[test]
fn test_stream_eof_in_data() {
    let input = b"1 0 obj\n<< /Length 100 >>\nstream\nHi\nendstream\nendobj";
    assert_eq!(parser(input).parse_object(), Err(PdfParserError::Eof));
}
