//! Decimal fields of fixed width, as the entries of a cross-reference table
//! hold them: UTF-8 text, trimmed of white space, then an unsigned decimal
//! number with an optional `+`.
use vstd::prelude::*;

verus! {

/// The characters that `char::is_whitespace` accepts (Unicode `White_Space`).
pub open spec fn is_unicode_whitespace(c: char) -> bool {
    ('\u{9}' <= c <= '\u{d}') || c == ' ' || c == '\u{85}' || c == '\u{a0}' || c == '\u{1680}'
        || ('\u{2000}' <= c <= '\u{200a}') || c == '\u{2028}' || c == '\u{2029}' || c == '\u{202f}'
        || c == '\u{205f}' || c == '\u{3000}'
}

/// The index of the first character of `s` that is not white space (or its length).
pub open spec fn trim_start(s: Seq<char>, i: int) -> int
    decreases s.len() - i,
{
    if 0 <= i < s.len() && is_unicode_whitespace(s[i]) {
        trim_start(s, i + 1)
    } else {
        i
    }
}

/// The index after the last character of `s[..j]` that is not white space (or 0).
pub open spec fn trim_end(s: Seq<char>, j: int) -> int
    decreases j,
{
    if 0 < j <= s.len() && is_unicode_whitespace(s[j - 1]) {
        trim_end(s, j - 1)
    } else {
        j
    }
}

/// `s` without leading and trailing white space, as `str::trim` gives it.
pub open spec fn trimmed(s: Seq<char>) -> Seq<char> {
    let start = trim_start(s, 0);
    if start >= s.len() {
        seq![]
    } else {
        s.subrange(start, trim_end(s, s.len() as int))
    }
}

pub open spec fn is_decimal_char(c: char) -> bool {
    '0' <= c <= '9'
}

/// The value of a sequence of decimal digit characters.
pub open spec fn decimal_value(d: Seq<char>) -> int
    decreases d.len(),
{
    if d.len() == 0 {
        0
    } else {
        decimal_value(d.drop_last()) * 10 + (d.last() as int - '0' as int)
    }
}

/// Whether all characters are decimal digits.
pub open spec fn all_decimal(d: Seq<char>) -> bool {
    forall|i: int| 0 <= i < d.len() ==> is_decimal_char(#[trigger] d[i])
}

/// The digits of an unsigned number: the text without a leading `+`.
pub open spec fn unsigned_digits(t: Seq<char>) -> Seq<char> {
    if t.len() > 0 && t[0] == '+' {
        t.drop_first()
    } else {
        t
    }
}

/// What `str::parse` gives for an unsigned integer type whose largest value
/// is `max`: an optional `+`, then at least one decimal digit, and a value
/// that fits.
pub open spec fn parse_unsigned(t: Seq<char>, max: int) -> Option<int> {
    let d = unsigned_digits(t);
    if d.len() > 0 && all_decimal(d) && decimal_value(d) <= max {
        Some(decimal_value(d))
    } else {
        None
    }
}

/// The value of a field: valid UTF-8 whose trimmed text parses as an unsigned
/// number not above `max`.
pub open spec fn field_value(bytes: Seq<u8>, max: int) -> Option<int> {
    if vstd::utf8::valid_utf8(bytes) {
        parse_unsigned(trimmed(vstd::utf8::decode_utf8(bytes)), max)
    } else {
        None
    }
}

#[verifier::external_type_specification]
#[verifier::external_body]
pub struct ExUtf8Error(core::str::Utf8Error);

/// Calls `std::str::from_utf8`, which, as its documentation says, succeeds
/// exactly when the bytes are valid UTF-8, and then gives the text they encode.
#[verifier::external_body]
fn str_from_utf8(bytes: &[u8]) -> (r: Result<&str, core::str::Utf8Error>)
    ensures
        r is Ok <==> vstd::utf8::valid_utf8(bytes@),
        r matches Ok(s) ==> s@ == vstd::utf8::decode_utf8(bytes@),
{
    std::str::from_utf8(bytes)
}

fn is_whitespace_char(c: char) -> (r: bool)
    ensures
        r == is_unicode_whitespace(c),
{
    ('\u{9}' <= c && c <= '\u{d}') || c == ' ' || c == '\u{85}' || c == '\u{a0}' || c == '\u{1680}'
        || ('\u{2000}' <= c && c <= '\u{200a}') || c == '\u{2028}' || c == '\u{2029}' || c
        == '\u{202f}' || c == '\u{205f}' || c == '\u{3000}'
}

proof fn lemma_trim_start(s: Seq<char>, i: int, k: int)
    requires
        0 <= i <= k <= s.len(),
        forall|j: int| i <= j < k ==> is_unicode_whitespace(#[trigger] s[j]),
        k == s.len() || !is_unicode_whitespace(s[k]),
    ensures
        trim_start(s, i) == k,
    decreases k - i,
{
    if i < k {
        lemma_trim_start(s, i + 1, k);
    }
}

proof fn lemma_trim_end(s: Seq<char>, j: int, k: int)
    requires
        0 <= k <= j <= s.len(),
        forall|m: int| k <= m < j ==> is_unicode_whitespace(#[trigger] s[m]),
        k == 0 || !is_unicode_whitespace(s[k - 1]),
    ensures
        trim_end(s, j) == k,
    decreases j - k,
{
    if k < j {
        lemma_trim_end(s, j - 1, k);
    }
}

proof fn lemma_decimal_value_prefix(d: Seq<char>, k: int)
    requires
        0 <= k <= d.len(),
        forall|i: int| 0 <= i < d.len() ==> is_decimal_char(#[trigger] d[i]),
    ensures
        0 <= decimal_value(d.subrange(0, k)) <= decimal_value(d),
    decreases d.len(),
{
    if d.len() > 0 {
        lemma_decimal_value_prefix(d.drop_last(), if k == d.len() { d.len() - 1 } else { k });
        assert(d.drop_last().subrange(0, d.len() - 1) =~= d.drop_last());
        if k == d.len() {
            assert(d.subrange(0, k) =~= d);
        } else {
            assert(d.drop_last().subrange(0, k) =~= d.subrange(0, k));
        }
        lemma_decimal_value_prefix(d.drop_last(), d.len() - 1);
    }
}

/// Parses the text of a field as `str::trim` followed by `str::parse` of an
/// unsigned integer type whose largest value is `max`.
fn parse_trimmed_unsigned(s: &str, max: u64) -> (r: Option<u64>)
    ensures
        r matches Some(v) ==> parse_unsigned(trimmed(s@), max as int) == Some(v as int),
        r is None ==> parse_unsigned(trimmed(s@), max as int) is None,
{
    let n = s.unicode_len();
    let mut start: usize = 0;
    while start < n && is_whitespace_char(s.get_char(start))
        invariant
            n == s@.len(),
            start <= n,
            forall|j: int| 0 <= j < start ==> is_unicode_whitespace(#[trigger] s@[j]),
        decreases n - start,
    {
        start += 1;
    }
    proof {
        lemma_trim_start(s@, 0, start as int);
    }
    if start >= n {
        assert(trimmed(s@) =~= seq![]);
        return None;
    }
    let mut end: usize = n;
    while end > start && is_whitespace_char(s.get_char(end - 1))
        invariant
            n == s@.len(),
            start < n,
            !is_unicode_whitespace(s@[start as int]),
            start <= end <= n,
            forall|m: int| end <= m < n ==> is_unicode_whitespace(#[trigger] s@[m]),
        decreases end,
    {
        end -= 1;
    }
    proof {
        lemma_trim_end(s@, n as int, end as int);
    }
    let ghost t = trimmed(s@);
    assert(t =~= s@.subrange(start as int, end as int));
    let mut i = start;
    if s.get_char(i) == '+' {
        i += 1;
    }
    let ghost d = unsigned_digits(t);
    assert(d =~= s@.subrange(i as int, end as int));
    if i >= end {
        return None;
    }
    let mut value: u64 = 0;
    let mut k = i;
    while k < end
        invariant
            i <= k <= end <= n,
            n == s@.len(),
            d =~= s@.subrange(i as int, end as int),
            t == trimmed(s@),
            d == unsigned_digits(t),
            d.len() > 0,
            forall|j: int| i <= j < k ==> is_decimal_char(#[trigger] s@[j]),
            value as int == decimal_value(s@.subrange(i as int, k as int)),
            value <= max,
        decreases end - k,
    {
        let c = s.get_char(k);
        if !('0' <= c && c <= '9') {
            assert(!is_decimal_char(d[k - i]));
            assert(!all_decimal(d));
            return None;
        }
        let digit = (c as u32 - '0' as u32) as u64;
        assert(s@.subrange(i as int, k + 1).drop_last() =~= s@.subrange(i as int, k as int));
        if digit > max || value > (max - digit) / 10 {
            proof {
                let w = decimal_value(s@.subrange(i as int, k + 1));
                assert(w == value * 10 + digit);
                assert(value * 10 + digit > max) by (nonlinear_arith)
                    requires
                        digit > max || value > (max - digit) / 10,
                        value >= 0,
                ;
                if all_decimal(d) {
                    lemma_decimal_value_prefix(d, k + 1 - i);
                    assert(d.subrange(0, k + 1 - i) =~= s@.subrange(i as int, k + 1));
                }
            }
            return None;
        }
        value = value * 10 + digit;
        k += 1;
    }
    assert(s@.subrange(i as int, k as int) =~= d);
    Some(value)
}

/// Parses a field as `std::str::from_utf8`, `str::trim` and `str::parse` of
/// an unsigned integer type whose largest value is `max`.
pub fn parse_field(bytes: &[u8], max: u64) -> (r: Option<u64>)
    ensures
        r matches Some(v) ==> field_value(bytes@, max as int) == Some(v as int),
        r is None ==> field_value(bytes@, max as int) is None,
{
    match str_from_utf8(bytes) {
        Ok(s) => parse_trimmed_unsigned(s, max),
        Err(_) => None,
    }
}

} // verus!
