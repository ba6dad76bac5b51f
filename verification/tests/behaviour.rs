use pdfox::reader::field::parse_field;
use pdfox::{
    find_startxref, Keyword, Lexer, Parser, PdfDict, PdfDocument, PdfDocumentError, PdfError, PdfName,
    PdfObject, PdfParserError, PdfString, Token, XRefTable,
};

fn lex_all(input: &[u8]) -> Vec<Result<Token, PdfParserError>> {
    let mut lexer = Lexer::new(input);
    let mut out = Vec::new();
    while let Some(t) = lexer.next() {
        let stop = t.is_err();
        out.push(t);
        if stop {
            break;
        }
    }
    out
}

fn first(input: &[u8]) -> Option<Result<Token, PdfParserError>> {
    Lexer::new(input).next()
}

fn name(bytes: &[u8]) -> PdfName {
    PdfName::from(bytes)
}

fn parse(input: &[u8]) -> Result<PdfObject, PdfParserError> {
    Parser::new(Lexer::new(input)).parse_object()
}

// --- the end of the input ---

#[test]
fn end_of_input_answers_none_again_and_again() {
    let mut lexer = Lexer::new(b"  % only a comment\r\n ");
    assert_eq!(lexer.next(), None);
    assert_eq!(lexer.next(), None);
    assert_eq!(lexer.next(), None);
}

#[test]
fn comment_without_line_end_reaches_the_end() {
    assert_eq!(first(b"%no end of line"), None);
}

// --- white space and comments are skipped ---

#[test]
fn trivia_before_a_token_changes_nothing() {
    assert_eq!(first(b"42"), Some(Ok(Token::Integer(42))));
    assert_eq!(first(b" \t%a\r%b\n\x0c42"), Some(Ok(Token::Integer(42))));
}

#[test]
fn tokens_follow_each_other_in_order() {
    assert_eq!(
        lex_all(b"[1 /A%c\n<<>>]"),
        vec![
            Ok(Token::ArrayBegin),
            Ok(Token::Integer(1)),
            Ok(Token::Name(b"A".to_vec())),
            Ok(Token::DictBegin),
            Ok(Token::DictEnd),
            Ok(Token::ArrayEnd),
        ]
    );
}

// --- literal strings ---

#[test]
fn literal_string_escapes() {
    assert_eq!(
        first(b"(a\\nb\\(\\)\\\\\\r\\t\\b\\f)"),
        Some(Ok(Token::LiteralString(b"a\nb()\\\r\t\x08\x0c".to_vec())))
    );
}

#[test]
fn literal_string_nested_parentheses() {
    assert_eq!(first(b"(x(y(z))w)"), Some(Ok(Token::LiteralString(b"x(y(z))w".to_vec()))));
}

#[test]
fn literal_string_invalid_escape() {
    assert_eq!(first(b"(a\\qb)"), Some(Err(PdfParserError::InvalidByte(b'q', 3))));
}

#[test]
fn literal_string_backslash_at_the_end() {
    assert_eq!(first(b"(a\\"), Some(Err(PdfParserError::Eof)));
}

#[test]
fn literal_string_unterminated() {
    assert_eq!(first(b"(abc"), Some(Err(PdfParserError::Eof)));
    assert_eq!(first(b"(a(b)"), Some(Err(PdfParserError::Eof)));
}

// --- hexadecimal strings ---

#[test]
fn hex_string_with_spaces() {
    assert_eq!(first(b"<48 65\n6C>"), Some(Ok(Token::HexString(b"Hel".to_vec()))));
}

#[test]
fn hex_string_odd_digit_count() {
    assert_eq!(first(b"<414>"), Some(Ok(Token::HexString(vec![0x41, 0x40]))));
}

#[test]
fn hex_string_invalid_second_digit() {
    assert_eq!(first(b"<4G>"), Some(Err(PdfParserError::InvalidByte(b'G', 2))));
}

#[test]
fn hex_string_invalid_first_digit() {
    assert_eq!(first(b"<G0>"), Some(Err(PdfParserError::InvalidByte(b'G', 1))));
}

#[test]
fn hex_string_unterminated() {
    assert_eq!(first(b"<48"), Some(Err(PdfParserError::Eof)));
}

#[test]
fn lone_angle_bracket_is_invalid() {
    assert_eq!(first(b"<"), Some(Err(PdfParserError::InvalidByte(b'<', 0))));
    assert_eq!(first(b">"), Some(Err(PdfParserError::InvalidByte(b'>', 0))));
}

// --- names ---

#[test]
fn name_with_hash_near_the_end_is_kept() {
    assert_eq!(first(b"/A#4"), Some(Ok(Token::Name(b"A#4".to_vec()))));
}

#[test]
fn name_with_hash_code() {
    assert_eq!(first(b"/A#41B"), Some(Ok(Token::Name(b"AAB".to_vec()))));
}

#[test]
fn name_with_invalid_hash_code() {
    assert_eq!(first(b"/A#G1"), Some(Err(PdfParserError::InvalidByte(b'G', 3))));
    assert_eq!(first(b"/A#4G"), Some(Err(PdfParserError::InvalidByte(b'G', 4))));
}

#[test]
fn name_ends_at_a_delimiter() {
    assert_eq!(
        lex_all(b"/A(b)"),
        vec![Ok(Token::Name(b"A".to_vec())), Ok(Token::LiteralString(b"b".to_vec()))]
    );
}

// --- keywords, numbers, invalid bytes ---

#[test]
fn every_keyword() {
    assert_eq!(
        lex_all(b"true false null obj endobj stream endstream R xref trailer startxref"),
        vec![
            Ok(Token::Boolean(true)),
            Ok(Token::Boolean(false)),
            Ok(Token::Null),
            Ok(Token::Keyword(Keyword::Obj)),
            Ok(Token::Keyword(Keyword::EndObj)),
            Ok(Token::Keyword(Keyword::Stream)),
            Ok(Token::Keyword(Keyword::EndStream)),
            Ok(Token::Keyword(Keyword::R)),
            Ok(Token::Keyword(Keyword::XRef)),
            Ok(Token::Keyword(Keyword::Trailer)),
            Ok(Token::Keyword(Keyword::StartXRef)),
        ]
    );
}

#[test]
fn unknown_keyword_reports_its_text_and_start() {
    assert_eq!(first(b"  abc1"), Some(Err(PdfParserError::UnknownKeyword("abc".to_string(), 2))));
}

#[test]
fn invalid_byte_reports_its_position() {
    assert_eq!(first(b" )"), Some(Err(PdfParserError::InvalidByte(b')', 1))));
    assert_eq!(first(b"{"), Some(Err(PdfParserError::InvalidByte(b'{', 0))));
}

#[test]
fn signed_integers() {
    assert_eq!(first(b"-17"), Some(Ok(Token::Integer(-17))));
    assert_eq!(first(b"+5"), Some(Ok(Token::Integer(5))));
    assert_eq!(first(b"-"), Some(Ok(Token::Integer(0))));
}

#[test]
fn largest_integer() {
    assert_eq!(first(b"9223372036854775807"), Some(Ok(Token::Integer(i64::MAX))));
}

#[test]
fn real_digits_are_kept() {
    match first(b"-12.050") {
        Some(Ok(Token::Real(r))) => {
            assert!(r.negative);
            assert_eq!(r.int_part, 12);
            assert_eq!(r.frac_digits, vec![0, 5, 0]);
        }
        other => panic!("expected a real, got {:?}", other),
    }
    match first(b".5") {
        Some(Ok(Token::Real(r))) => {
            assert!(!r.negative);
            assert_eq!(r.int_part, 0);
            assert_eq!(r.frac_digits, vec![5]);
        }
        other => panic!("expected a real, got {:?}", other),
    }
}

// --- raw stream data ---

#[test]
fn stream_data_after_crlf() {
    let mut lexer = Lexer::new(b"\r\nabcdef");
    assert_eq!(lexer.read_stream_data(3), Ok(b"abc".to_vec()));
    assert_eq!(lexer.next(), Some(Err(PdfParserError::UnknownKeyword("def".to_string(), 5))));
}

#[test]
fn stream_data_too_short() {
    let mut lexer = Lexer::new(b"\nab");
    assert_eq!(lexer.read_stream_data(5), Err(PdfParserError::Eof));
}

// --- the parser ---

#[test]
fn lookahead_does_not_lose_tokens() {
    let mut p = Parser::new(Lexer::new(b"1 2 3"));
    assert_eq!(p.parse_object(), Ok(PdfObject::Integer(1)));
    assert_eq!(p.parse_object(), Ok(PdfObject::Integer(2)));
    assert_eq!(p.parse_object(), Ok(PdfObject::Integer(3)));
    assert_eq!(p.parse_object(), Err(PdfParserError::Eof));
}

#[test]
fn indirect_reference_and_object() {
    assert_eq!(parse(b"12 0 R"), Ok(PdfObject::IndirectRef(12, 0)));
    assert_eq!(
        parse(b"3 1 obj (x) endobj"),
        Ok(PdfObject::IndirectObject {
            num: 3,
            generation: 1,
            value: Box::new(PdfObject::String(PdfString::Literal(b"x".to_vec()))),
        })
    );
}

#[test]
fn indirect_object_without_endobj() {
    assert_eq!(parse(b"1 0 obj 5 6"), Err(PdfParserError::UnexpectedToken(Token::Integer(6))));
    assert_eq!(parse(b"1 0 obj 5"), Err(PdfParserError::Eof));
}

#[test]
fn stream_object() {
    assert_eq!(
        parse(b"1 0 obj <</Length 3>> stream\r\nabc\nendstream endobj"),
        Ok(PdfObject::IndirectObject {
            num: 1,
            generation: 0,
            value: Box::new(PdfObject::Stream {
                dict: PdfDict::from(vec![(name(b"Length"), PdfObject::Integer(3))]),
                data: b"abc".to_vec(),
            }),
        })
    );
}

#[test]
fn stream_without_dictionary() {
    assert_eq!(parse(b"1 0 obj 5 stream\nabc endstream endobj"), Err(PdfParserError::StreamWithoutDict));
}

#[test]
fn stream_length_not_an_integer() {
    assert_eq!(
        parse(b"1 0 obj <</Length /X>> stream\nabc endstream endobj"),
        Err(PdfParserError::InvalidDictValue(name(b"Length")))
    );
}

#[test]
fn stream_length_missing() {
    assert_eq!(
        parse(b"1 0 obj <<>> stream\n endstream endobj"),
        Err(PdfParserError::PdfError(PdfError::KeyNotFound(name(b"Length"))))
    );
}

#[test]
fn stream_not_closed() {
    assert_eq!(
        parse(b"1 0 obj <</Length 1>> stream\nab endstream endobj"),
        Err(PdfParserError::UnknownKeyword("b".to_string(), 30))
    );
}

#[test]
fn unexpected_tokens() {
    assert_eq!(parse(b"]"), Err(PdfParserError::UnexpectedToken(Token::ArrayEnd)));
    assert_eq!(parse(b"<< 1 2 >>"), Err(PdfParserError::UnexpectedToken(Token::Integer(1))));
    assert_eq!(parse(b"obj"), Err(PdfParserError::UnexpectedToken(Token::Keyword(Keyword::Obj))));
}

#[test]
fn unterminated_containers() {
    assert_eq!(parse(b"[1 2"), Err(PdfParserError::Eof));
    assert_eq!(parse(b"[ (a"), Err(PdfParserError::Eof));
    assert_eq!(parse(b"<</A 1"), Err(PdfParserError::Eof));
    assert_eq!(parse(b""), Err(PdfParserError::Eof));
}

#[test]
fn nested_containers() {
    assert_eq!(
        parse(b"[<</K [null true]>> -1]"),
        Ok(PdfObject::Array(vec![
            PdfObject::Dictionary(PdfDict::from(vec![(
                name(b"K"),
                PdfObject::Array(vec![PdfObject::Null, PdfObject::Boolean(true)]),
            )])),
            PdfObject::Integer(-1),
        ]))
    );
}

#[test]
fn expect_keyword_outcomes() {
    let mut p = Parser::new(Lexer::new(b"xref trailer"));
    assert_eq!(p.expect_keyword(Keyword::XRef), Ok(()));
    assert_eq!(
        p.expect_keyword(Keyword::XRef),
        Err(PdfParserError::UnexpectedToken(Token::Keyword(Keyword::Trailer)))
    );
    assert_eq!(p.expect_keyword(Keyword::XRef), Err(PdfParserError::Eof));
}

#[test]
fn read_bytes_drops_lookahead() {
    let mut p = Parser::new(Lexer::new(b"1 2 abcdef"));
    assert_eq!(p.next_token(), Some(Ok(Token::Integer(1))));
    p.skip_whitespace();
    assert_eq!(p.read_bytes(3), Ok(b"2 a".to_vec()));
    assert_eq!(p.read_bytes(9), Err(PdfParserError::Eof));
}

// --- dictionaries ---

#[test]
fn dictionary_lookup_finds_the_first_entry() {
    let d = PdfDict::from(vec![
        (name(b"A"), PdfObject::Integer(1)),
        (name(b"B"), PdfObject::Integer(2)),
        (name(b"A"), PdfObject::Integer(3)),
    ]);
    assert_eq!(d.get(&name(b"A")), Some(&PdfObject::Integer(1)));
    assert_eq!(d.get(&name(b"B")), Some(&PdfObject::Integer(2)));
    assert_eq!(d.get(&name(b"C")), None);
    assert_eq!(d.get_required(&name(b"B")), Ok(&PdfObject::Integer(2)));
    assert_eq!(d.get_required(&name(b"C")), Err(PdfError::KeyNotFound(name(b"C"))));
}

#[test]
fn clones_are_equal() {
    let obj = parse(b"[<</A (x) /B <0F>>> 1.5 2 0 R /N]").unwrap();
    assert_eq!(obj.clone(), obj);
    let n = name(b"Key");
    assert_eq!(n.clone(), n);
    assert!(n.same_as(&PdfName::new(b"Key".to_vec())));
    assert_eq!(n.as_bytes(), &b"Key".to_vec());
}

// --- the end of a document ---

#[test]
fn startxref_at_the_very_end() {
    assert!(matches!(find_startxref(b"startxref"), Err(PdfDocumentError::Eof)));
    assert!(matches!(find_startxref(b"startxref\r"), Err(PdfDocumentError::Eof)));
}

#[test]
fn startxref_cr_then_other_byte() {
    assert!(matches!(find_startxref(b"startxref\rX"), Err(PdfDocumentError::InvalidHeader)));
}

#[test]
fn startxref_without_digits() {
    assert!(matches!(find_startxref(b"startxref\n%%EOF"), Err(PdfDocumentError::InvalidHeader)));
}

#[test]
fn startxref_too_far_from_the_end() {
    let mut data = b"startxref\n42\n".to_vec();
    data.extend_from_slice(&[b' '; 100]);
    assert!(matches!(find_startxref(&data), Err(PdfDocumentError::InvalidHeader)));
}

#[test]
fn startxref_first_occurrence_in_the_tail() {
    assert_eq!(find_startxref(b"startxref\n7\nstartxref\n9\n").unwrap(), 7);
}

#[test]
fn xref_unexpected_tokens() {
    assert!(matches!(
        XRefTable::parse(b"xref\n/Name", 0),
        Err(PdfDocumentError::UnexpectedToken(Token::Name(_)))
    ));
    assert!(matches!(
        XRefTable::parse(b"xref\n0 (x)", 0),
        Err(PdfDocumentError::UnexpectedToken(Token::LiteralString(_)))
    ));
    assert!(matches!(
        XRefTable::parse(b"trailer <<>>", 0),
        Err(PdfDocumentError::PdfParserError(PdfParserError::UnexpectedToken(_)))
    ));
}

#[test]
fn xref_entry_with_sign_and_spaces() {
    let data = b"xref\n0 1\n+000000010 00000 n\r\ntrailer\n<</Size 1>>";
    let (_, trailer) = XRefTable::parse(data, 0).unwrap();
    assert_eq!(trailer.get(&name(b"Size")), Some(&PdfObject::Integer(1)));
}

#[test]
fn xref_generation_out_of_range() {
    let data = b"xref\n0 1\n0000000000 70000 n\r\ntrailer\n<<>>";
    assert!(matches!(XRefTable::parse(data, 0), Err(PdfDocumentError::InvalidXRef)));
}

// --- decimal fields ---

#[test]
fn field_trimmed_and_signed() {
    assert_eq!(parse_field(b"  42 ", 65535), Some(42));
    assert_eq!(parse_field(b"+7", 65535), Some(7));
    assert_eq!(parse_field(b"\xc2\xa0 12\xc2\xa0", 65535), Some(12));
}

#[test]
fn field_rejections() {
    assert_eq!(parse_field(b"", 65535), None);
    assert_eq!(parse_field(b"  ", 65535), None);
    assert_eq!(parse_field(b"+", 65535), None);
    assert_eq!(parse_field(b"-1", 65535), None);
    assert_eq!(parse_field(b"1 2", 65535), None);
    assert_eq!(parse_field(b"65536", 65535), None);
    assert_eq!(parse_field(b"65535", 65535), Some(65535));
    assert_eq!(parse_field(b"\xff1", 65535), None);
}

// --- the text of a name ---

#[test]
fn name_text_is_its_utf8() {
    assert_eq!(name(b"Type").to_string(), "Type");
    assert_eq!(name(b"\xc3\xa9").to_string(), "\u{e9}");
}

#[test]
fn name_text_replaces_invalid_bytes() {
    assert_eq!(name(b"A\xffB").to_string(), "A\u{FFFD}B");
}

#[test]
fn field_with_a_small_limit() {
    assert_eq!(parse_field(b"3", 3), Some(3));
    assert_eq!(parse_field(b"5", 3), None);
    assert_eq!(parse_field(b"0", 0), Some(0));
    assert_eq!(parse_field(b"1", 0), None);
}

#[test]
fn names_from_arrays_slices_and_vectors_agree() {
    let from_array: PdfName = b"Root".into();
    let from_slice = PdfName::from(&b"Root"[..]);
    let from_vec = PdfName::from(b"Root".to_vec());
    assert_eq!(from_array, from_slice);
    assert_eq!(from_slice, from_vec);
    assert_eq!(from_array.as_bytes(), &b"Root".to_vec());
}

// --- entry points that report arithmetic overflow ---

#[test]
fn next_checked_reports_an_integer_too_large() {
    assert_eq!(Lexer::new(b"9223372036854775808").next_checked(), None);
    assert_eq!(Lexer::new(b"-9223372036854775808").next_checked(), None);
    assert_eq!(Lexer::new(b"42").next_checked(), Some(Some(Ok(Token::Integer(42)))));
    assert_eq!(Lexer::new(b"  ").next_checked(), Some(None));
}

#[test]
fn read_stream_data_checked_reports_an_end_too_far() {
    assert_eq!(Lexer::new(b"\nab").read_stream_data_checked(usize::MAX), None);
    assert_eq!(Lexer::new(b"ab").read_stream_data_checked(usize::MAX), Some(Err(PdfParserError::Eof)));
    assert_eq!(Lexer::new(b"\r\nab").read_stream_data_checked(2), Some(Ok(b"ab".to_vec())));
}

#[test]
fn parse_object_checked_outcomes() {
    let mut p = Parser::new(Lexer::new(b"[1 99999999999999999999]"));
    assert_eq!(p.parse_object_checked(), None);
    let mut p = Parser::new(Lexer::new(b"[1]"));
    assert_eq!(p.parse_object_checked(), Some(Ok(PdfObject::Array(vec![PdfObject::Integer(1)]))));
    let mut p = Parser::new(Lexer::new(b"1 0 obj <</Length -1>> stream\nabc endstream endobj"));
    assert_eq!(p.parse_object_checked(), None);
    let mut p = Parser::new(Lexer::new(b"]"));
    assert_eq!(p.parse_object_checked(), Some(Err(PdfParserError::UnexpectedToken(Token::ArrayEnd))));
}

#[test]
fn token_and_keyword_checked_outcomes() {
    let mut p = Parser::new(Lexer::new(b"99999999999999999999"));
    assert_eq!(p.next_token_checked(), None);
    let mut p = Parser::new(Lexer::new(b"99999999999999999999"));
    assert_eq!(p.expect_keyword_checked(Keyword::XRef), None);
    let mut p = Parser::new(Lexer::new(b"xref 7"));
    assert_eq!(p.expect_keyword_checked(Keyword::XRef), Some(Ok(())));
    assert_eq!(p.next_token_checked(), Some(Some(Ok(Token::Integer(7)))));
    assert_eq!(p.next_token_checked(), Some(None));
}

#[test]
fn xref_parse_checked_outcomes() {
    let data = b"xref\n0 1\n0000000000 65535 f\r\ntrailer\n<</Size 1>>";
    assert!(XRefTable::parse_checked(data, data.len() + 1).is_none());
    assert!(matches!(XRefTable::parse_checked(data, 0), Some(Ok(_))));
    let overflow = b"xref\n9223372036854775807 2\n0000000000 65535 f\r\n0000000000 65535 f\r\ntrailer\n<<>>";
    assert!(XRefTable::parse_checked(overflow, 0).is_none());
    assert!(matches!(XRefTable::parse_checked(b"trailer", 0), Some(Err(_))));
}

#[test]
fn from_bytes_checked_outcomes() {
    assert!(PdfDocument::from_bytes_checked(b"startxref\n999\n%%EOF".to_vec()).is_none());
    assert!(matches!(
        PdfDocument::from_bytes_checked(b"garbage".to_vec()),
        Some(Err(PdfDocumentError::InvalidHeader))
    ));
    let data = b"xref\n0 1\n0000000000 65535 f\r\ntrailer\n<</Size 1>>\nstartxref\n0\n%%EOF";
    assert!(matches!(PdfDocument::from_bytes_checked(data.to_vec()), Some(Ok(_))));
}

// --- two objects in a row ---

#[test]
fn two_objects_separated_by_a_line_feed() {
    let mut p = Parser::new(Lexer::new(b"/A\n<</K 1>>"));
    assert_eq!(p.parse_object(), Ok(PdfObject::Name(name(b"A"))));
    assert_eq!(
        p.parse_object(),
        Ok(PdfObject::Dictionary(PdfDict::from(vec![(name(b"K"), PdfObject::Integer(1))])))
    );
    assert_eq!(p.parse_object(), Err(PdfParserError::Eof));
}

#[test]
fn name_with_hash_at_the_end_reads_on_past_the_line_feed() {
    assert_eq!(parse(b"/A#4"), Ok(PdfObject::Name(name(b"A#4"))));
    assert_eq!(parse(b"/A#4\n/B"), Err(PdfParserError::InvalidByte(b'\n', 4)));
}

#[test]
fn comment_ends_after_its_first_line_break() {
    assert_eq!(first(b"%a\r\n7"), Some(Ok(Token::Integer(7))));
    assert_eq!(first(b"%a\r8"), Some(Ok(Token::Integer(8))));
}

#[test]
fn hash_near_the_end_inside_a_string_is_harmless() {
    let mut p = Parser::new(Lexer::new(b"(/a#)\n/B"));
    assert_eq!(p.parse_object(), Ok(PdfObject::String(PdfString::Literal(b"/a#".to_vec()))));
    assert_eq!(p.parse_object(), Ok(PdfObject::Name(name(b"B"))));
    assert_eq!(p.parse_object(), Err(PdfParserError::Eof));
}

#[test]
fn name_with_hash_before_a_closing_bracket_at_the_end() {
    assert_eq!(parse(b"[/A#]"), Ok(PdfObject::Array(vec![PdfObject::Name(name(b"A#"))])));
    assert_eq!(parse(b"[/A#]\n\n"), Err(PdfParserError::InvalidByte(b']', 4)));
    assert_eq!(parse(b"[/A#]\n/B"), Err(PdfParserError::InvalidByte(b']', 4)));
}
