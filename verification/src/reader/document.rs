//! A PDF document: its bytes, its cross-reference table and its trailer.
use vstd::prelude::*;
use crate::lexer::lemmas::{lemma_digit_end_bounds, lemma_digits_value_prefix};
use crate::lexer::spec::{digit_end, digits_value, is_digit_byte};
use crate::object::{PdfDict, SpecObject};
use super::error::{PdfDocumentError, SpecDocError};
use super::xref::{xref_parse, SpecXRefEntry, XRefTable};

verus! {

/// The bytes of the keyword `startxref`.
pub open spec fn startxref_label() -> Seq<u8> {
    seq![0x73u8, 0x74, 0x61, 0x72, 0x74, 0x78, 0x72, 0x65, 0x66]
}

/// The last 100 bytes of `data` (all of it when it is shorter).
pub open spec fn last_bytes(data: Seq<u8>) -> Seq<u8> {
    if data.len() > 100 {
        data.subrange(data.len() - 100, data.len() as int)
    } else {
        data
    }
}

/// The first position at or after `i` where `startxref` starts in `t`.
pub open spec fn find_label(t: Seq<u8>, i: int) -> Option<int>
    decreases t.len() - i,
{
    if i < 0 || i + 9 > t.len() {
        None
    } else if t.subrange(i, i + 9) == startxref_label() {
        Some(i)
    } else {
        find_label(t, i + 1)
    }
}

/// The decimal number that starts at `p` in `t`, which must have at least one
/// digit and fit in a `usize`.
pub open spec fn startxref_number(t: Seq<u8>, p: int) -> Result<usize, SpecDocError> {
    let e = digit_end(t, p);
    let v = digits_value(t.subrange(p, e));
    if e == p || v > usize::MAX {
        Err(SpecDocError::InvalidHeader)
    } else {
        Ok(v as usize)
    }
}

/// The offset that the last 100 bytes of `data` give after `startxref` and
/// an end of line (LF or CR LF).
pub open spec fn startxref_offset(data: Seq<u8>) -> Result<usize, SpecDocError> {
    let t = last_bytes(data);
    match find_label(t, 0) {
        None => Err(SpecDocError::InvalidHeader),
        Some(i) => {
            let j = i + 9;
            if j >= t.len() {
                Err(SpecDocError::Eof)
            } else if t[j] == 13 {
                if j + 1 >= t.len() {
                    Err(SpecDocError::Eof)
                } else if t[j + 1] == 10 {
                    startxref_number(t, j + 2)
                } else {
                    Err(SpecDocError::InvalidHeader)
                }
            } else if t[j] == 10 {
                startxref_number(t, j + 1)
            } else {
                Err(SpecDocError::InvalidHeader)
            }
        },
    }
}

/// What `PdfDocument::from_bytes(data)` gives: the table and the trailer at
/// the offset after `startxref`. `None` when that offset lies past the end of
/// `data` or the arithmetic of reading the table would overflow.
pub open spec fn document_spec(data: Seq<u8>) -> Option<
    Result<(Map<u32, SpecXRefEntry>, Seq<(Seq<u8>, SpecObject)>), SpecDocError>,
> {
    match startxref_offset(data) {
        Err(e) => Some(Err(e)),
        Ok(offset) => if offset > data.len() {
            None
        } else {
            xref_parse(data, offset as int)
        },
    }
}

/// The view of the outcome of `find_startxref`.
pub open spec fn view_offset_result(r: Result<usize, PdfDocumentError>) -> Result<usize, SpecDocError> {
    match r {
        Ok(v) => Ok(v),
        Err(e) => Err(e@),
    }
}

/// The first position where `startxref` starts in `t`.
fn find_label_position(t: &[u8]) -> (r: Option<usize>)
    ensures
        r matches Some(i) ==> find_label(t@, 0) == Some(i as int) && i + 9 <= t@.len(),
        r is None ==> find_label(t@, 0) is None,
{
    let label: [u8; 9] = [0x73, 0x74, 0x61, 0x72, 0x74, 0x78, 0x72, 0x65, 0x66];
    assert(label@ == startxref_label());
    if t.len() < 9 {
        return None;
    }
    let mut i: usize = 0;
    while i <= t.len() - 9
        invariant
            t@.len() >= 9,
            i <= t@.len() - 8,
            label@ == startxref_label(),
            find_label(t@, i as int) == find_label(t@, 0),
        decreases t@.len() - i,
    {
        let mut k: usize = 0;
        let mut same = true;
        while k < 9
            invariant
                i + 9 <= t.len(),
                t.len() == t@.len(),
                k <= 9,
                same == (forall|j: int| 0 <= j < k ==> t@[i + j] == label@[j]),
            decreases 9 - k,
        {
            if t[i + k] != label[k] {
                same = false;
            }
            k += 1;
        }
        if same {
            assert(t@.subrange(i as int, i + 9) =~= startxref_label());
            return Some(i);
        }
        assert(t@.subrange(i as int, i + 9) != startxref_label()) by {
            let j = choose|j: int| 0 <= j < 9 && t@[i + j] != label@[j];
            assert(t@.subrange(i as int, i + 9)[j] == t@[i + j]);
        }
        i += 1;
    }
    None
}

/// The decimal number that starts at `p` in `t`.
fn parse_number(t: &[u8], p: usize) -> (r: Result<usize, PdfDocumentError>)
    requires
        p <= t@.len(),
    ensures
        view_offset_result(r) == startxref_number(t@, p as int),
{
    let ghost e = digit_end(t@, p as int);
    proof {
        lemma_digit_end_bounds(t@, p as int);
        assert forall|i: int| 0 <= i < t@.subrange(p as int, e).len() implies is_digit_byte(
            #[trigger] t@.subrange(p as int, e)[i],
        ) by {
            assert(t@.subrange(p as int, e)[i] == t@[p + i]);
        }
    }
    let mut value: usize = 0;
    let mut k = p;
    let mut overflow = false;
    while k < t.len() && 0x30 <= t[k] && t[k] <= 0x39
        invariant
            p <= k <= e <= t@.len(),
            e == digit_end(t@, p as int),
            forall|i: int| p <= i < e ==> is_digit_byte(#[trigger] t@[i]),
            e == t@.len() || !is_digit_byte(t@[e]),
            forall|i: int|
                0 <= i < t@.subrange(p as int, e).len() ==> is_digit_byte(
                    #[trigger] t@.subrange(p as int, e)[i],
                ),
            !overflow ==> value == digits_value(t@.subrange(p as int, k as int)),
            overflow ==> digits_value(t@.subrange(p as int, e)) > usize::MAX,
        decreases t@.len() - k,
    {
        let d = (t[k] - 0x30) as usize;
        proof {
            assert(t@.subrange(p as int, k + 1).drop_last() =~= t@.subrange(p as int, k as int));
            lemma_digits_value_prefix(t@.subrange(p as int, e), k + 1 - p);
            assert(t@.subrange(p as int, e).subrange(0, k + 1 - p) =~= t@.subrange(p as int, k + 1));
        }
        if !overflow {
            match value.checked_mul(10) {
                Some(v10) => match v10.checked_add(d) {
                    Some(v) => {
                        value = v;
                    },
                    None => {
                        overflow = true;
                    },
                },
                None => {
                    overflow = true;
                    assert(digits_value(t@.subrange(p as int, k + 1)) > usize::MAX);
                },
            }
        }
        k += 1;
    }
    if k == p || overflow {
        return Err(PdfDocumentError::InvalidHeader);
    }
    Ok(value)
}

/// The offset of the cross-reference table, as the last 100 bytes of `data`
/// give it after `startxref`.
pub fn find_startxref(data: &[u8]) -> (r: Result<usize, PdfDocumentError>)
    ensures
        view_offset_result(r) == startxref_offset(data@),
{
    let data = if data.len() > 100 {
        vstd::slice::slice_subrange(data, data.len() - 100, data.len())
    } else {
        data
    };
    let label_len: usize = 9;
    let startxref_pos = match find_label_position(data) {
        Some(i) => i,
        None => {
            return Err(PdfDocumentError::InvalidHeader);
        },
    };
    let j = startxref_pos + label_len;
    let num_pos = if j < data.len() {
        if data[j] == 13 {
            if j + 1 < data.len() {
                if data[j + 1] == 10 {
                    j + 2
                } else {
                    return Err(PdfDocumentError::InvalidHeader);
                }
            } else {
                return Err(PdfDocumentError::Eof);
            }
        } else if data[j] == 10 {
            j + 1
        } else {
            return Err(PdfDocumentError::InvalidHeader);
        }
    } else {
        return Err(PdfDocumentError::Eof);
    };
    parse_number(data, num_pos)
}

/// A PDF document: its bytes, its cross-reference table and its trailer.
pub struct PdfDocument {
    data: Vec<u8>,
    xref: XRefTable,
    trailer: PdfDict,
}

impl PdfDocument {
    /// The bytes of the document.
    pub closed spec fn data(&self) -> Seq<u8> {
        self.data@
    }

    /// The entries of the cross-reference table.
    pub closed spec fn xref_entries(&self) -> Map<u32, SpecXRefEntry> {
        self.xref@
    }

    /// The trailer dictionary.
    pub closed spec fn trailer(&self) -> Seq<(Seq<u8>, SpecObject)> {
        self.trailer@
    }

    /// Reads the cross-reference table and the trailer of a document; `None`
    /// when the offset after `startxref` lies past the end of `data`, or the
    /// integer part of a number, or an object number, exceeds `i64::MAX`.
    pub fn from_bytes_checked(data: Vec<u8>) -> (r: Option<Result<Self, PdfDocumentError>>)
        ensures
            r is None <==> document_spec(data@) is None,
            r matches Some(x) ==> document_spec(data@) == Some(
                match x {
                    Ok(doc) => Ok((doc.xref_entries(), doc.trailer())),
                    Err(e) => Err(e@),
                },
            ),
            r matches Some(Ok(doc)) ==> doc.data() == data@,
    {
        let xref_offset = match find_startxref(data.as_slice()) {
            Ok(o) => o,
            Err(e) => {
                return Some(Err(e));
            },
        };
        let (xref, trailer) = match XRefTable::parse_checked(data.as_slice(), xref_offset) {
            Some(Ok(t)) => t,
            Some(Err(e)) => {
                return Some(Err(e));
            },
            None => {
                return None;
            },
        };
        Some(Ok(Self { data, xref, trailer }))
    }

    /// Reads the cross-reference table and the trailer of a document.
    pub fn from_bytes(data: Vec<u8>) -> (r: Result<Self, PdfDocumentError>)
        requires
            document_spec(data@) is Some,
        ensures
            document_spec(data@) == Some(
                match r {
                    Ok(doc) => Ok((doc.xref_entries(), doc.trailer())),
                    Err(e) => Err(e@),
                },
            ),
            r matches Ok(doc) ==> doc.data() == data@,
    {
        match PdfDocument::from_bytes_checked(data) {
            Some(r) => r,
            None => vstd::pervasive::unreached(),
        }
    }
}

} // verus!
