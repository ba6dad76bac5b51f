use pdfox::{Keyword, Lexer, PdfParserError, PdfReal, Token};

/// The value of a real token, computed as a reader of PDF numbers does:
/// the integer part plus each fractional digit over a growing power of ten.
fn real_value(r: &PdfReal) -> f64 {
    let mut frac: f64 = 0.0;
    let mut divisor = 10.0f64;
    for d in r.frac_digits.iter() {
        frac += *d as f64 / divisor;
        divisor *= 10.0;
    }
    let sign: f64 = if r.negative { -1.0 } else { 1.0 };
    sign * (r.int_part as f64 + frac)
}

fn next_real(input: &[u8]) -> f64 {
    match Lexer::new(input).next() {
        Some(Ok(Token::Real(r))) => real_value(&r),
        other => panic!("expected a real, got {:?}", other),
    }
}

fn name(bytes: &[u8]) -> Token {
    Token::Name(bytes.to_vec())
}

#[test]
fn test_next_when_empty_should_return_none() {
    let buf = b"";
    let mut lexer = Lexer::new(buf);

    assert_eq!(lexer.next(), None);
}

#[test]
fn test_next_when_only_whitespace_should_return_none() {
    let buf = b"\0\t\n\x0c\r ";
    let mut lexer = Lexer::new(buf);

    assert_eq!(lexer.next(), None);
}

#[test]
fn test_next_should_return_name_when_starting_with_slash() {
    let buf = b"  /Name other";
    let mut lexer = Lexer::new(buf);

    assert_eq!(lexer.next().unwrap().unwrap(), name(b"Name"));
}

#[test]
fn test_next_should_return_correct_name_when_valid_hex_code() {
    let buf = b"/paired#28#29parentheses";
    let mut lexer = Lexer::new(buf);

    let result = lexer.next().unwrap().unwrap();

    assert_eq!(result, name(b"paired()parentheses"));
}

#[test]
fn test_next_should_return_error_when_invalid_hex_code() {
    let buf = b"/paired#XXparentheses";
    let mut lexer = Lexer::new(buf);

    assert_eq!(
        lexer.next().unwrap().unwrap_err(),
        PdfParserError::InvalidByte(b'X', 8)
    );
}

#[test]
fn test_integer_positive() {
    assert_eq!(Lexer::new(b"123").next(), Some(Ok(Token::Integer(123))));
}

#[test]
fn test_integer_explicit_plus() {
    assert_eq!(Lexer::new(b"+17").next(), Some(Ok(Token::Integer(17))));
}

#[test]
fn test_integer_negative() {
    assert_eq!(Lexer::new(b"-98").next(), Some(Ok(Token::Integer(-98))));
}

#[test]
fn test_integer_zero() {
    assert_eq!(Lexer::new(b"0").next(), Some(Ok(Token::Integer(0))));
}

#[test]
fn test_integer_stops_at_delimiter() {
    let mut lexer = Lexer::new(b"42/Name");
    assert_eq!(lexer.next(), Some(Ok(Token::Integer(42))));
    assert_eq!(lexer.next(), Some(Ok(name(b"Name"))));
}

#[test]
fn test_real_simple() {
    assert_eq!(next_real(b"34.5"), 34.5);
}

#[test]
fn test_real_negative() {
    assert_eq!(next_real(b"-3.5"), -3.5);
}

#[test]
fn test_real_explicit_plus() {
    assert_eq!(next_real(b"+123.5"), 123.5);
}

#[test]
fn test_real_trailing_dot() {
    assert_eq!(next_real(b"4."), 4.0);
}

#[test]
fn test_real_leading_dot() {
    assert_eq!(next_real(b".5"), 0.5);
}

#[test]
fn test_real_negative_leading_dot() {
    assert_eq!(next_real(b"-.5"), -0.5);
}

#[test]
fn test_real_zero() {
    assert_eq!(next_real(b"0.0"), 0.0);
}

#[test]
fn lexer_test_boolean_true() {
    assert_eq!(Lexer::new(b"true").next(), Some(Ok(Token::Boolean(true))));
}

#[test]
fn lexer_test_boolean_false() {
    assert_eq!(Lexer::new(b"false").next(), Some(Ok(Token::Boolean(false))));
}

#[test]
fn test_boolean_stops_at_whitespace() {
    let mut lexer = Lexer::new(b"true false");
    assert_eq!(lexer.next(), Some(Ok(Token::Boolean(true))));
    assert_eq!(lexer.next(), Some(Ok(Token::Boolean(false))));
}

#[test]
fn test_boolean_stops_at_delimiter() {
    let mut lexer = Lexer::new(b"true/Name");
    assert_eq!(lexer.next(), Some(Ok(Token::Boolean(true))));
    assert_eq!(lexer.next(), Some(Ok(name(b"Name"))));
}

#[test]
fn test_boolean_true_not_prefix_matched() {
    assert_eq!(
        Lexer::new(b"truecolor").next(),
        Some(Err(PdfParserError::UnknownKeyword("truecolor".to_owned(), 0)))
    );
}

#[test]
fn lexer_test_null() {
    assert_eq!(Lexer::new(b"null").next(), Some(Ok(Token::Null)));
}

#[test]
fn test_keyword_obj() {
    assert_eq!(Lexer::new(b"obj").next(), Some(Ok(Token::Keyword(Keyword::Obj))));
}

#[test]
fn test_keyword_endobj() {
    assert_eq!(Lexer::new(b"endobj").next(), Some(Ok(Token::Keyword(Keyword::EndObj))));
}

#[test]
fn test_keyword_stream() {
    assert_eq!(Lexer::new(b"stream").next(), Some(Ok(Token::Keyword(Keyword::Stream))));
}

#[test]
fn test_keyword_endstream() {
    assert_eq!(
        Lexer::new(b"endstream").next(),
        Some(Ok(Token::Keyword(Keyword::EndStream)))
    );
}

#[test]
fn test_keyword_r() {
    assert_eq!(Lexer::new(b"R").next(), Some(Ok(Token::Keyword(Keyword::R))));
}

#[test]
fn test_keyword_xref() {
    assert_eq!(Lexer::new(b"xref").next(), Some(Ok(Token::Keyword(Keyword::XRef))));
}

#[test]
fn test_keyword_trailer() {
    assert_eq!(Lexer::new(b"trailer").next(), Some(Ok(Token::Keyword(Keyword::Trailer))));
}

#[test]
fn test_keyword_startxref() {
    assert_eq!(
        Lexer::new(b"startxref").next(),
        Some(Ok(Token::Keyword(Keyword::StartXRef)))
    );
}

#[test]
fn test_keyword_unknown() {
    assert_eq!(Lexer::new(b"obj").next(), Some(Ok(Token::Keyword(Keyword::Obj))));
    assert_eq!(
        Lexer::new(b"foobar").next(),
        Some(Err(PdfParserError::UnknownKeyword("foobar".to_owned(), 0)))
    );
}

#[test]
fn test_keyword_stops_at_whitespace() {
    let mut lexer = Lexer::new(b"obj endobj");
    assert_eq!(lexer.next(), Some(Ok(Token::Keyword(Keyword::Obj))));
    assert_eq!(lexer.next(), Some(Ok(Token::Keyword(Keyword::EndObj))));
}

#[test]
fn test_keyword_stops_at_delimiter() {
    let mut lexer = Lexer::new(b"obj/Name");
    assert_eq!(lexer.next(), Some(Ok(Token::Keyword(Keyword::Obj))));
    assert_eq!(lexer.next(), Some(Ok(name(b"Name"))));
}

#[test]
fn test_indirect_reference_sequence() {
    let mut lexer = Lexer::new(b"12 0 R");
    assert_eq!(lexer.next(), Some(Ok(Token::Integer(12))));
    assert_eq!(lexer.next(), Some(Ok(Token::Integer(0))));
    assert_eq!(lexer.next(), Some(Ok(Token::Keyword(Keyword::R))));
}

#[test]
fn test_hex_string_simple() {
    assert_eq!(
        Lexer::new(b"<48656C6C6F>").next(),
        Some(Ok(Token::HexString(b"Hello".to_vec())))
    );
}

#[test]
fn test_hex_string_lowercase() {
    assert_eq!(
        Lexer::new(b"<48656c6c6f>").next(),
        Some(Ok(Token::HexString(b"Hello".to_vec())))
    );
}

#[test]
fn test_hex_string_with_internal_whitespace() {
    assert_eq!(
        Lexer::new(b"<48 65 6C 6C 6F>").next(),
        Some(Ok(Token::HexString(b"Hello".to_vec())))
    );
}

#[test]
fn test_hex_string_odd_length_pads_with_zero() {
    // <9> means <90> per spec
    assert_eq!(Lexer::new(b"<9>").next(), Some(Ok(Token::HexString(vec![0x90]))));
}

#[test]
fn test_hex_string_empty() {
    assert_eq!(Lexer::new(b"<>").next(), Some(Ok(Token::HexString(vec![]))));
}

#[test]
fn test_hex_string_invalid_byte() {
    assert_eq!(
        Lexer::new(b"<XY>").next(),
        Some(Err(PdfParserError::InvalidByte(b'X', 1)))
    );
}

#[test]
fn test_hex_string_eof() {
    assert_eq!(Lexer::new(b"<48").next(), Some(Err(PdfParserError::Eof)));
}

#[test]
fn test_dict_begin() {
    assert_eq!(Lexer::new(b"<<").next(), Some(Ok(Token::DictBegin)));
}

#[test]
fn test_dict_end() {
    assert_eq!(Lexer::new(b">>").next(), Some(Ok(Token::DictEnd)));
}

#[test]
fn test_dict_begin_then_end() {
    let mut lexer = Lexer::new(b"<< >>");
    assert_eq!(lexer.next(), Some(Ok(Token::DictBegin)));
    assert_eq!(lexer.next(), Some(Ok(Token::DictEnd)));
}

#[test]
fn test_dict_with_entry() {
    let mut lexer = Lexer::new(b"<</Type /Page>>");
    assert_eq!(lexer.next(), Some(Ok(Token::DictBegin)));
    assert_eq!(lexer.next(), Some(Ok(name(b"Type"))));
    assert_eq!(lexer.next(), Some(Ok(name(b"Page"))));
    assert_eq!(lexer.next(), Some(Ok(Token::DictEnd)));
}

#[test]
fn test_array_begin() {
    assert_eq!(Lexer::new(b"[").next(), Some(Ok(Token::ArrayBegin)));
}

#[test]
fn test_array_end() {
    assert_eq!(Lexer::new(b"]").next(), Some(Ok(Token::ArrayEnd)));
}

#[test]
fn test_array_with_integers() {
    let mut lexer = Lexer::new(b"[1 2 3]");
    assert_eq!(lexer.next(), Some(Ok(Token::ArrayBegin)));
    assert_eq!(lexer.next(), Some(Ok(Token::Integer(1))));
    assert_eq!(lexer.next(), Some(Ok(Token::Integer(2))));
    assert_eq!(lexer.next(), Some(Ok(Token::Integer(3))));
    assert_eq!(lexer.next(), Some(Ok(Token::ArrayEnd)));
}

#[test]
fn test_comment_skipped() {
    assert_eq!(
        Lexer::new(b"% this is a comment\ntrue").next(),
        Some(Ok(Token::Boolean(true)))
    );
}

#[test]
fn test_comment_at_eof() {
    assert_eq!(Lexer::new(b"% comment at eof").next(), None);
}

#[test]
fn test_comment_between_tokens() {
    let mut lexer = Lexer::new(b"1 % comment\n2");
    assert_eq!(lexer.next(), Some(Ok(Token::Integer(1))));
    assert_eq!(lexer.next(), Some(Ok(Token::Integer(2))));
}

#[test]
fn test_multiple_comments_skipped() {
    let mut lexer = Lexer::new(b"% first\n% second\n42");
    assert_eq!(lexer.next(), Some(Ok(Token::Integer(42))));
}
