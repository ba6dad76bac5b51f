//! The cross-reference table and the trailer dictionary.
use std::collections::HashMap;
use vstd::prelude::*;
use crate::lexer::Lexer;
use crate::lexer::lemmas::lemma_skip_ws_forward;
use crate::lexer::spec::{read_raw, skip_ws};
use crate::object::{PdfDict, PdfObject, SpecObject};
use crate::parser::Parser;
use crate::parser::lemmas::{lemma_next_tok_ok, lemma_progress_nonneg};
use crate::parser::spec::{next_tok, parse_object, progress, ParseState};
use crate::token::{Keyword, SpecToken, Token};
use super::error::{PdfDocumentError, SpecDocError};
use super::field::{field_value, parse_field};

verus! {

broadcast use vstd::std_specs::hash::group_hash_axioms;

/// The mathematical view of an entry of the cross-reference table.
pub struct SpecXRefEntry {
    pub offset: int,
    pub generation: int,
    pub in_use: bool,
}

/// The first status byte (`n` for in use, `f` for free) of an entry, from `i` on.
pub open spec fn entry_status(bytes: Seq<u8>, i: int) -> Option<bool>
    decreases bytes.len() - i,
{
    if !(0 <= i < bytes.len()) {
        None
    } else if bytes[i] == 0x6e {
        Some(true)
    } else if bytes[i] == 0x66 {
        Some(false)
    } else {
        entry_status(bytes, i + 1)
    }
}

/// An entry of 20 bytes: a 10-digit offset, a space, a 5-digit generation, and
/// a status byte somewhere in the entry.
pub open spec fn xref_entry(bytes: Seq<u8>) -> Option<SpecXRefEntry> {
    match field_value(bytes.subrange(0, 10), usize::MAX as int) {
        None => None,
        Some(offset) => match field_value(bytes.subrange(11, 16), u16::MAX as int) {
            None => None,
            Some(generation) => match entry_status(bytes, 0) {
                None => None,
                Some(in_use) => Some(SpecXRefEntry { offset, generation, in_use }),
            },
        },
    }
}

/// The entries `i..count` of a subsection whose first object number is `id`,
/// read raw from `pos` into `entries`; gives the position after them.
/// `None` when an object number overflows `i64`.
pub open spec fn xref_subsection(
    buf: Seq<u8>,
    pos: int,
    id: i64,
    count: i64,
    i: int,
    entries: Map<u32, SpecXRefEntry>,
) -> Option<Result<(int, Map<u32, SpecXRefEntry>), SpecDocError>>
    decreases count - i,
{
    if i >= count {
        Some(Ok((pos, entries)))
    } else {
        match read_raw(buf, pos, 20) {
            (Err(e), _) => Some(Err(SpecDocError::Parser(e))),
            (Ok(bytes), p) => match xref_entry(bytes) {
                None => Some(Err(SpecDocError::InvalidXRef)),
                Some(e) => if id + i > i64::MAX {
                    None
                } else {
                    xref_subsection(buf, p, id, count, i + 1, entries.insert((id + i) as u32, e))
                },
            },
        }
    }
}

/// A subsection read without error ends at or after where it started.
pub proof fn lemma_subsection_forward(
    buf: Seq<u8>,
    pos: int,
    id: i64,
    count: i64,
    i: int,
    entries: Map<u32, SpecXRefEntry>,
)
    ensures
        xref_subsection(buf, pos, id, count, i, entries) matches Some(Ok((q, _))) ==> pos <= q,
    decreases count - i,
{
    if i < count {
        if let (Ok(bytes), p) = read_raw(buf, pos, 20) {
            if let Some(e) = xref_entry(bytes) {
                if id + i <= i64::MAX {
                    lemma_subsection_forward(buf, p, id, count, i + 1, entries.insert((id + i) as u32, e));
                }
            }
        }
    }
}

/// After a subsection, the table's reading has moved on: the guard in
/// `xref_sections` always holds, so its `None` comes only from overflow.
pub proof fn lemma_sections_progress(buf: Seq<u8>, s: ParseState, entries: Map<u32, SpecXRefEntry>)
    ensures
        next_tok(buf, s) matches Some((Some(Ok(SpecToken::Integer(id))), s1)) ==> (next_tok(buf, s1) matches Some(
            (Some(Ok(SpecToken::Integer(count))), s2),
        ) ==> (xref_subsection(buf, skip_ws(buf, s2.pos), id, count, 0, entries) matches Some(
            Ok((q, _)),
        ) ==> 0 <= progress(buf, ParseState { pos: q, queue: seq![] }) < progress(buf, s))),
{
    lemma_next_tok_ok(buf, s);
    lemma_progress_nonneg(buf, s);
    if let Some((Some(Ok(SpecToken::Integer(id))), s1)) = next_tok(buf, s) {
        lemma_next_tok_ok(buf, s1);
        if let Some((Some(Ok(SpecToken::Integer(count))), s2)) = next_tok(buf, s1) {
            lemma_progress_nonneg(buf, s2);
            lemma_skip_ws_forward(buf, s2.pos);
            lemma_subsection_forward(buf, skip_ws(buf, s2.pos), id, count, 0, entries);
            if let Some(Ok((q, _))) = xref_subsection(buf, skip_ws(buf, s2.pos), id, count, 0, entries) {
                let q_state = ParseState { pos: q, queue: seq![] };
                assert(crate::parser::spec::queue_weight(q_state.queue) == 0);
                assert(q >= s2.pos);
                crate::parser::lemmas::lemma_weight_nonneg(s2.queue);
                assert(progress(buf, q_state) <= progress(buf, s2));
            }
        }
    }
}

/// The outcome of reading a table: its entries and the trailer dictionary.
pub type XRefOutcome = Option<Result<(Map<u32, SpecXRefEntry>, Seq<(Seq<u8>, SpecObject)>), SpecDocError>>;

/// Subsections (`id count` and the entries) until `trailer` and its dictionary.
pub open spec fn xref_sections(buf: Seq<u8>, s: ParseState, entries: Map<u32, SpecXRefEntry>) -> XRefOutcome
    decreases progress(buf, s),
{
    match next_tok(buf, s) {
        None => None,
        Some((None, _)) => Some(Err(SpecDocError::Eof)),
        Some((Some(Err(e)), _)) => Some(Err(SpecDocError::Parser(e))),
        Some((Some(Ok(SpecToken::Keyword(Keyword::Trailer))), s1)) => match parse_object(buf, s1) {
            None => None,
            Some((Err(e), _)) => Some(Err(SpecDocError::Parser(e))),
            Some((Ok(SpecObject::Dictionary(d)), _)) => Some(Ok((entries, d))),
            Some((Ok(o), _)) => Some(Err(SpecDocError::UnexpectedObject(o))),
        },
        Some((Some(Ok(SpecToken::Integer(id))), s1)) => match next_tok(buf, s1) {
            None => None,
            Some((None, _)) => Some(Err(SpecDocError::Eof)),
            Some((Some(Err(e)), _)) => Some(Err(SpecDocError::Parser(e))),
            Some((Some(Ok(SpecToken::Integer(count))), s2)) => match xref_subsection(
                buf,
                skip_ws(buf, s2.pos),
                id,
                count,
                0,
                entries,
            ) {
                None => None,
                Some(Err(e)) => Some(Err(e)),
                Some(Ok((q, entries2))) => {
                    let s3 = ParseState { pos: q, queue: seq![] };
                    if 0 <= progress(buf, s3) < progress(buf, s) {
                        xref_sections(buf, s3, entries2)
                    } else {
                        None
                    }
                },
            },
            Some((Some(Ok(t)), _)) => Some(Err(SpecDocError::UnexpectedToken(t))),
        },
        Some((Some(Ok(t)), _)) => Some(Err(SpecDocError::UnexpectedToken(t))),
    }
}

/// What `XRefTable::parse(data, offset)` gives: from `offset` on, the keyword
/// `xref`, the subsections and the trailer. `None` when the lexer's or the
/// table's arithmetic would overflow.
pub open spec fn xref_parse(data: Seq<u8>, offset: int) -> XRefOutcome {
    let buf = data.subrange(offset, data.len() as int);
    let s0 = ParseState { pos: 0, queue: seq![] };
    match next_tok(buf, s0) {
        None => None,
        Some((None, _)) => Some(Err(SpecDocError::Parser(crate::error::SpecError::Eof))),
        Some((Some(Err(e)), _)) => Some(Err(SpecDocError::Parser(e))),
        Some((Some(Ok(t)), s1)) => if t == SpecToken::Keyword(Keyword::XRef) {
            xref_sections(buf, s1, Map::empty())
        } else {
            Some(Err(SpecDocError::Parser(crate::error::SpecError::UnexpectedToken(t))))
        },
    }
}

/// An entry of the cross-reference table.
#[derive(Debug, Clone, Copy, PartialEq, Eq)]
pub struct XRefEntry {
    offset: usize,
    generation: u16,
    in_use: bool,
}

impl View for XRefEntry {
    type V = SpecXRefEntry;

    closed spec fn view(&self) -> SpecXRefEntry {
        SpecXRefEntry { offset: self.offset as int, generation: self.generation as int, in_use: self.in_use }
    }
}

/// The cross-reference table: the entries by object number.
pub struct XRefTable {
    entries: HashMap<u32, XRefEntry>,
}

impl View for XRefTable {
    type V = Map<u32, SpecXRefEntry>;

    closed spec fn view(&self) -> Map<u32, SpecXRefEntry> {
        self.entries@.map_values(|e: XRefEntry| e@)
    }
}

/// The view of the outcome of `XRefTable::parse`.
pub open spec fn view_xref_result(r: Result<(XRefTable, PdfDict), PdfDocumentError>) -> Result<
    (Map<u32, SpecXRefEntry>, Seq<(Seq<u8>, SpecObject)>),
    SpecDocError,
> {
    match r {
        Ok((t, d)) => Ok((t@, d@)),
        Err(e) => Err(e@),
    }
}

impl XRefEntry {
    /// Reads an entry from its 20 bytes.
    fn parse(data: &[u8]) -> (r: Option<XRefEntry>)
        requires
            data@.len() == 20,
        ensures
            r matches Some(e) ==> xref_entry(data@) == Some(e@),
            r is None ==> xref_entry(data@) is None,
    {
        let offset = match parse_field(vstd::slice::slice_subrange(data, 0, 10), usize::MAX as u64) {
            Some(v) => v as usize,
            None => {
                return None;
            },
        };
        let generation = match parse_field(vstd::slice::slice_subrange(data, 11, 16), 0xffff) {
            Some(v) => v as u16,
            None => {
                return None;
            },
        };
        let mut i: usize = 0;
        while i < data.len()
            invariant
                data@.len() == 20,
                i <= 20,
                entry_status(data@, i as int) == entry_status(data@, 0),
                field_value(data@.subrange(0, 10), usize::MAX as int) == Some(offset as int),
                field_value(data@.subrange(11, 16), u16::MAX as int) == Some(generation as int),
            decreases 20 - i,
        {
            if data[i] == 0x6e {
                return Some(XRefEntry { offset, generation, in_use: true });
            }
            if data[i] == 0x66 {
                return Some(XRefEntry { offset, generation, in_use: false });
            }
            i += 1;
        }
        None
    }
}

impl XRefTable {
    /// Reads the cross-reference table that starts at `offset` in `data`,
    /// and the trailer dictionary after it.
    /// `None` when `offset` lies past the end of `data`, or when the integer
    /// part of a number, or an object number, exceeds `i64::MAX`.
    #[verifier::rlimit(40)]
    pub fn parse_checked(data: &[u8], offset: usize) -> (r: Option<Result<(XRefTable, PdfDict), PdfDocumentError>>)
        ensures
            r is None <==> (offset > data@.len() || xref_parse(data@, offset as int) is None),
            r matches Some(x) ==> xref_parse(data@, offset as int) == Some(view_xref_result(x)),
    {
        if offset > data.len() {
            return None;
        }
        let ghost buf = data@.subrange(offset as int, data@.len() as int);
        let tail = vstd::slice::slice_subrange(data, offset, data.len());
        let mut parser = Parser::new(Lexer::new(tail));
        let ghost s0 = parser.state();
        assert(s0 == ParseState { pos: 0, queue: seq![] });
        match parser.expect_keyword_checked(Keyword::XRef) {
            Some(Ok(())) => {},
            Some(Err(e)) => {
                return Some(Err(PdfDocumentError::PdfParserError(e)));
            },
            None => {
                return None;
            },
        }
        let ghost s1 = parser.state();
        let mut entries: HashMap<u32, XRefEntry> = HashMap::new();
        assert(entries@.map_values(|e: XRefEntry| e@) =~= Map::empty());
        loop
            invariant
                offset <= data@.len(),
                parser.data() == buf,
                buf == data@.subrange(offset as int, data@.len() as int),
                xref_parse(data@, offset as int) == xref_sections(buf, s1, Map::empty()),
                xref_sections(buf, parser.state(), entries@.map_values(|e: XRefEntry| e@)) == xref_sections(
                    buf,
                    s1,
                    Map::empty(),
                ),
            decreases progress(buf, parser.state()),
        {
            let ghost s = parser.state();
            let ghost view = entries@.map_values(|e: XRefEntry| e@);
            proof {
                lemma_next_tok_ok(buf, s);
                lemma_progress_nonneg(buf, s);
                lemma_sections_progress(buf, s, view);
            }
            let token = match parser.next_token_checked() {
                None => {
                    return None;
                },
                Some(None) => {
                    return Some(Err(PdfDocumentError::Eof));
                },
                Some(Some(Err(e))) => {
                    return Some(Err(PdfDocumentError::PdfParserError(e)));
                },
                Some(Some(Ok(t))) => t,
            };
            match token {
                Token::Keyword(Keyword::Trailer) => {
                    return match parser.parse_object_checked() {
                        Some(Ok(PdfObject::Dictionary(dict))) => Some(Ok((XRefTable { entries }, dict))),
                        Some(Ok(other)) => Some(Err(PdfDocumentError::UnexpectedObject(other))),
                        Some(Err(e)) => Some(Err(PdfDocumentError::PdfParserError(e))),
                        None => None,
                    };
                },
                Token::Integer(id) => {
                    let ghost sa = parser.state();
                    proof {
                        lemma_next_tok_ok(buf, sa);
                    }
                    let count = match parser.next_token_checked() {
                        None => {
                            return None;
                        },
                        Some(None) => {
                            return Some(Err(PdfDocumentError::Eof));
                        },
                        Some(Some(Err(e))) => {
                            return Some(Err(PdfDocumentError::PdfParserError(e)));
                        },
                        Some(Some(Ok(Token::Integer(n)))) => n,
                        Some(Some(Ok(other))) => {
                            return Some(Err(PdfDocumentError::UnexpectedToken(other)));
                        },
                    };
                    let ghost s2 = parser.state();
                    parser.skip_whitespace();
                    proof {
                        lemma_skip_ws_forward(buf, s2.pos);
                    }
                    let ghost p0 = parser.state().pos;
                    let mut i: i64 = 0;
                    while i < count
                        invariant
                            offset <= data@.len(),
                            parser.data() == buf,
                            0 <= i,
                            i <= count || count < 0,
                            parser.state().queue == Seq::<Result<SpecToken, crate::error::SpecError>>::empty(),
                            parser.state().pos >= p0,
                            xref_subsection(buf, parser.state().pos, id, count, i as int, entries@.map_values(|e: XRefEntry| e@))
                                == xref_subsection(buf, p0, id, count, 0, view),
                            xref_parse(data@, offset as int) == xref_sections(buf, s, view),
                            p0 == skip_ws(buf, s2.pos),
                            next_tok(buf, s) == Some((Some(Ok::<SpecToken, crate::error::SpecError>(SpecToken::Integer(id))), sa)),
                            next_tok(buf, sa) == Some((Some(Ok::<SpecToken, crate::error::SpecError>(SpecToken::Integer(count))), s2)),
                        decreases count - i,
                    {
                        let bytes = match parser.read_bytes(20) {
                            Ok(b) => b,
                            Err(e) => {
                                return Some(Err(PdfDocumentError::PdfParserError(e)));
                            },
                        };
                        let entry = match XRefEntry::parse(bytes.as_slice()) {
                            Some(e) => e,
                            None => {
                                return Some(Err(PdfDocumentError::InvalidXRef));
                            },
                        };
                        if id > i64::MAX - i {
                            return None;
                        }
                        let ghost before = entries@;
                        entries.insert(#[verifier::truncate] ((id + i) as u32), entry);
                        assert(entries@.map_values(|e: XRefEntry| e@) =~= before.map_values(|e: XRefEntry| e@).insert(
                            (id + i) as u32,
                            entry@,
                        ));
                        i += 1;
                    }
                    assert(parser.state() == ParseState { pos: parser.state().pos, queue: seq![] });
                },
                other => {
                    return Some(Err(PdfDocumentError::UnexpectedToken(other)));
                },
            }
        }
    }

    /// Reads the cross-reference table that starts at `offset` in `data`,
    /// and the trailer dictionary after it.
    pub fn parse(data: &[u8], offset: usize) -> (r: Result<(XRefTable, PdfDict), PdfDocumentError>)
        requires
            offset <= data@.len(),
            xref_parse(data@, offset as int) is Some,
        ensures
            xref_parse(data@, offset as int) == Some(view_xref_result(r)),
    {
        match XRefTable::parse_checked(data, offset) {
            Some(r) => r,
            None => vstd::pervasive::unreached(),
        }
    }
}

} // verus!
