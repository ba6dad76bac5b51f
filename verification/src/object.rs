//! The PDF object model: names, strings, reals, dictionaries and objects,
//! with their mathematical views.
use vstd::prelude::*;

verus! {

/// The mathematical view of a real number as it was written: its sign, the
/// value of its integer part and the decimal digits of its fractional part.
pub struct SpecReal {
    pub negative: bool,
    pub int_part: i64,
    pub frac_digits: Seq<u8>,
}

/// The mathematical view of a PDF string.
pub enum SpecString {
    Literal(Seq<u8>),
    Hex(Seq<u8>),
}

/// The mathematical view of a PDF object.
pub enum SpecObject {
    Boolean(bool),
    Integer(i64),
    Real(SpecReal),
    String(SpecString),
    Name(Seq<u8>),
    Null,
    Array(Seq<SpecObject>),
    Dictionary(Seq<(Seq<u8>, SpecObject)>),
    IndirectRef(i64, i64),
    IndirectObject(i64, i64, Box<SpecObject>),
    Stream(Seq<(Seq<u8>, SpecObject)>, Seq<u8>),
}

/// A real number as written in a PDF file.
///
/// The library keeps the number exactly as it was written: its sign, the
/// value of the digits before the point and the value (0 to 9) of each digit
/// after the point. Turning it into a binary floating-point number is left to
/// the caller.
#[derive(Debug, PartialEq)]
pub struct PdfReal {
    pub negative: bool,
    pub int_part: i64,
    pub frac_digits: Vec<u8>,
}

impl View for PdfReal {
    type V = SpecReal;

    open spec fn view(&self) -> SpecReal {
        SpecReal { negative: self.negative, int_part: self.int_part, frac_digits: self.frac_digits@ }
    }
}

impl Clone for PdfReal {
    fn clone(&self) -> (r: Self)
        ensures
            r@ == self@,
    {
        let digits = self.frac_digits.clone();
        assert(digits@ =~= self.frac_digits@);
        PdfReal { negative: self.negative, int_part: self.int_part, frac_digits: digits }
    }
}

/// A PDF string, either written literally `( ... )` or in hexadecimal `< ... >`.
#[derive(Debug, PartialEq)]
pub enum PdfString {
    Literal(Vec<u8>),
    Hex(Vec<u8>),
}

impl View for PdfString {
    type V = SpecString;

    open spec fn view(&self) -> SpecString {
        match self {
            PdfString::Literal(b) => SpecString::Literal(b@),
            PdfString::Hex(b) => SpecString::Hex(b@),
        }
    }
}

/// A PDF name (the bytes after the `/`, with `#xx` escapes decoded).
#[derive(Debug, PartialEq)]
pub struct PdfName(Vec<u8>);

impl View for PdfName {
    type V = Seq<u8>;

    closed spec fn view(&self) -> Seq<u8> {
        self.0@
    }
}

impl Clone for PdfName {
    fn clone(&self) -> (r: Self)
        ensures
            r@ == self@,
    {
        let bytes = self.0.clone();
        assert(bytes@ =~= self.0@);
        PdfName(bytes)
    }
}

impl PdfName {
    pub fn new(value: Vec<u8>) -> (r: Self)
        ensures
            r@ == value@,
    {
        PdfName(value)
    }

    /// The bytes of the name.
    pub fn as_bytes(&self) -> (r: &Vec<u8>)
        ensures
            r@ == self@,
    {
        &self.0
    }

    /// The text of the name, as `Display` shows it: its bytes decoded as
    /// UTF-8, each invalid sequence replaced by U+FFFD.
    pub fn to_string(&self) -> (r: String)
        ensures
            r@ == lossy_utf8(self@),
            vstd::utf8::valid_utf8(self@) ==> r@ == vstd::utf8::decode_utf8(self@),
    {
        lossy_string(self.0.as_slice())
    }

    /// Whether two names have the same bytes.
    pub fn same_as(&self, other: &PdfName) -> (r: bool)
        ensures
            r == (self@ == other@),
    {
        let n = self.0.len();
        if n != other.0.len() {
            return false;
        }
        let mut i: usize = 0;
        while i < n
            invariant
                n == self.0@.len(),
                n == other.0@.len(),
                i <= n,
                forall|j: int| 0 <= j < i ==> self.0@[j] == other.0@[j],
            decreases n - i,
        {
            if self.0[i] != other.0[i] {
                return false;
            }
            i += 1;
        }
        assert(self.0@ =~= other.0@);
        true
    }
}

/// What `String::from_utf8_lossy` makes of some bytes.
pub uninterp spec fn lossy_utf8(bytes: Seq<u8>) -> Seq<char>;

/// Calls `String::from_utf8_lossy` and takes the owned string. Its result is
/// named `lossy_utf8`; the documentation says that on valid UTF-8 it is the
/// decoded text. How invalid sequences are replaced is left unsaid here.
#[verifier::external_body]
fn lossy_string(bytes: &[u8]) -> (r: String)
    ensures
        r@ == lossy_utf8(bytes@),
        vstd::utf8::valid_utf8(bytes@) ==> r@ == vstd::utf8::decode_utf8(bytes@),
{
    String::from_utf8_lossy(bytes).into_owned()
}

impl From<Vec<u8>> for PdfName {
    fn from(value: Vec<u8>) -> (r: Self)
        ensures
            r@ == value@,
    {
        PdfName(value)
    }
}

impl vstd::std_specs::convert::FromSpecImpl<Vec<u8>> for PdfName {
    open spec fn obeys_from_spec() -> bool {
        true
    }

    closed spec fn from_spec(v: Vec<u8>) -> PdfName {
        PdfName(v)
    }
}

impl<'a> From<&'a [u8]> for PdfName {
    fn from(value: &'a [u8]) -> (r: Self)
        ensures
            r@ == value@,
    {
        PdfName(vstd::slice::slice_to_vec(value))
    }
}

impl<'a> vstd::std_specs::convert::FromSpecImpl<&'a [u8]> for PdfName {
    open spec fn obeys_from_spec() -> bool {
        false
    }

    closed spec fn from_spec(v: &'a [u8]) -> PdfName {
        choose|n: PdfName| n.0@ == v@
    }
}

impl<'a, const N: usize> From<&'a [u8; N]> for PdfName {
    fn from(value: &'a [u8; N]) -> (r: Self)
        ensures
            r@ == value@,
    {
        PdfName(vstd::slice::slice_to_vec(value.as_slice()))
    }
}

impl<'a, const N: usize> vstd::std_specs::convert::FromSpecImpl<&'a [u8; N]> for PdfName {
    open spec fn obeys_from_spec() -> bool {
        false
    }

    closed spec fn from_spec(v: &'a [u8; N]) -> PdfName {
        choose|n: PdfName| n.0@ == v@
    }
}

/// A PDF dictionary: its entries in the order in which they were written.
#[derive(Debug, PartialEq)]
pub struct PdfDict(Vec<(PdfName, PdfObject)>);

/// A PDF object.
#[derive(Debug, PartialEq)]
pub enum PdfObject {
    Boolean(bool),
    Integer(i64),
    Real(PdfReal),
    String(PdfString),
    Name(PdfName),
    Null,
    Array(Vec<PdfObject>),
    Dictionary(PdfDict),
    IndirectRef(i64, i64),
    IndirectObject { num: i64, generation: i64, value: Box<PdfObject> },
    Stream { dict: PdfDict, data: Vec<u8> },
}

impl PdfDict {
    /// The entries of the dictionary, in order.
    pub closed spec fn entries(&self) -> Seq<(PdfName, PdfObject)> {
        self.0@
    }

    /// The view of the entries: each key by its bytes and each value by its view.
    pub closed spec fn view_entries(&self) -> Seq<(Seq<u8>, SpecObject)>
        decreases self,
    {
        Seq::new(
            self.0@.len(),
            |i: int|
                if 0 <= i < self.0@.len() {
                    (self.0@[i].0@, self.0@[i].1.view_object())
                } else {
                    (Seq::empty(), SpecObject::Null)
                },
        )
    }
}

/// The value of the first entry of `entries` whose key is `key`.
pub open spec fn dict_lookup(entries: Seq<(Seq<u8>, SpecObject)>, key: Seq<u8>) -> Option<SpecObject>
    decreases entries.len(),
{
    if entries.len() == 0 {
        None
    } else if entries[0].0 == key {
        Some(entries[0].1)
    } else {
        dict_lookup(entries.drop_first(), key)
    }
}

/// `dict_lookup` finds the entry at `i` when its key matches and no earlier key does,
/// and finds nothing when no key matches.
pub proof fn lemma_dict_lookup(entries: Seq<(Seq<u8>, SpecObject)>, key: Seq<u8>, i: int)
    requires
        0 <= i <= entries.len(),
        forall|j: int| 0 <= j < i ==> entries[j].0 != key,
    ensures
        i < entries.len() && entries[i].0 == key ==> dict_lookup(entries, key) == Some(entries[i].1),
        i == entries.len() ==> dict_lookup(entries, key) is None,
    decreases i,
{
    if i > 0 {
        let rest = entries.drop_first();
        assert forall|j: int| 0 <= j < i - 1 implies rest[j].0 != key by {
            assert(rest[j] == entries[j + 1]);
        }
        lemma_dict_lookup(rest, key, i - 1);
    }
}

/// An error of the object model.
#[derive(Debug, Clone, PartialEq)]
pub enum PdfError {
    KeyNotFound(PdfName),
}

impl PdfDict {
    pub fn new(entries: Vec<(PdfName, PdfObject)>) -> (r: Self)
        ensures
            r.entries() == entries@,
            r@ == Seq::new(entries@.len(), |i: int| (entries@[i].0@, entries@[i].1@)),
    {
        let r = PdfDict(entries);
        assert(r@ =~= Seq::new(entries@.len(), |i: int| (entries@[i].0@, entries@[i].1@)));
        r
    }

    /// The first value whose key is `key`.
    pub fn get(&self, key: &PdfName) -> (r: Option<&PdfObject>)
        ensures
            match r {
                Some(v) => dict_lookup(self@, key@) == Some(v@),
                None => dict_lookup(self@, key@) is None,
            },
    {
        let n = self.0.len();
        let mut i: usize = 0;
        while i < n
            invariant
                n == self.0@.len(),
                i <= n,
                self@.len() == n,
                forall|j: int| 0 <= j < i ==> self@[j].0 != key@,
            decreases n - i,
        {
            assert(self@[i as int] == (self.0@[i as int].0@, self.0@[i as int].1@));
            if self.0[i].0.same_as(key) {
                proof {
                    lemma_dict_lookup(self@, key@, i as int);
                }
                return Some(&self.0[i].1);
            }
            i += 1;
        }
        proof {
            lemma_dict_lookup(self@, key@, i as int);
        }
        None
    }

    /// The first value whose key is `key`, or `KeyNotFound` with that key.
    pub fn get_required(&self, key: &PdfName) -> (r: Result<&PdfObject, PdfError>)
        ensures
            match r {
                Ok(v) => dict_lookup(self@, key@) == Some(v@),
                Err(PdfError::KeyNotFound(k)) => dict_lookup(self@, key@) is None && k@ == key@,
            },
    {
        match self.get(key) {
            Some(v) => Ok(v),
            None => Err(PdfError::KeyNotFound(key.clone())),
        }
    }
}

impl From<Vec<(PdfName, PdfObject)>> for PdfDict {
    fn from(value: Vec<(PdfName, PdfObject)>) -> (r: Self)
        ensures
            r.entries() == value@,
            r@ == Seq::new(value@.len(), |i: int| (value@[i].0@, value@[i].1@)),
    {
        let r = PdfDict(value);
        assert(r@ =~= Seq::new(value@.len(), |i: int| (value@[i].0@, value@[i].1@)));
        r
    }
}

impl vstd::std_specs::convert::FromSpecImpl<Vec<(PdfName, PdfObject)>> for PdfDict {
    open spec fn obeys_from_spec() -> bool {
        true
    }

    closed spec fn from_spec(v: Vec<(PdfName, PdfObject)>) -> PdfDict {
        PdfDict(v)
    }
}

impl PdfObject {
    /// The mathematical view of an object.
    pub open spec fn view_object(&self) -> SpecObject
        decreases self,
    {
        match self {
            PdfObject::Boolean(b) => SpecObject::Boolean(*b),
            PdfObject::Integer(n) => SpecObject::Integer(*n),
            PdfObject::Real(r) => SpecObject::Real(r@),
            PdfObject::String(s) => SpecObject::String(s@),
            PdfObject::Name(n) => SpecObject::Name(n@),
            PdfObject::Null => SpecObject::Null,
            PdfObject::Array(v) => SpecObject::Array(
                Seq::new(
                    v@.len(),
                    |i: int|
                        if 0 <= i < v@.len() {
                            v@[i].view_object()
                        } else {
                            SpecObject::Null
                        },
                ),
            ),
            PdfObject::Dictionary(d) => SpecObject::Dictionary(d.view_entries()),
            PdfObject::IndirectRef(n, g) => SpecObject::IndirectRef(*n, *g),
            PdfObject::IndirectObject { num, generation, value } => SpecObject::IndirectObject(
                *num,
                *generation,
                Box::new(value.view_object()),
            ),
            PdfObject::Stream { dict, data } => SpecObject::Stream(dict.view_entries(), data@),
        }
    }
}

impl View for PdfObject {
    type V = SpecObject;

    open spec fn view(&self) -> SpecObject {
        self.view_object()
    }
}

impl View for PdfDict {
    type V = Seq<(Seq<u8>, SpecObject)>;

    open spec fn view(&self) -> Seq<(Seq<u8>, SpecObject)> {
        self.view_entries()
    }
}

impl Clone for PdfDict {
    fn clone(&self) -> (r: Self)
        ensures
            r@ == self@,
        decreases self,
    {
        let n = self.0.len();
        let mut entries: Vec<(PdfName, PdfObject)> = Vec::new();
        let mut i: usize = 0;
        while i < n
            invariant
                n == self.0@.len(),
                i <= n,
                entries@.len() == i,
                forall|j: int| 0 <= j < i ==> (#[trigger] entries@[j]).0@ == self.0@[j].0@ && entries@[j].1@ == self.0@[j].1@,
            decreases n - i,
        {
            let key = self.0[i].0.clone();
            let value = self.0[i].1.clone();
            entries.push((key, value));
            i += 1;
        }
        let r = PdfDict(entries);
        assert(r@ =~= self@);
        r
    }
}

impl Clone for PdfObject {
    fn clone(&self) -> (r: Self)
        ensures
            r@ == self@,
        decreases self,
    {
        match self {
            PdfObject::Boolean(b) => PdfObject::Boolean(*b),
            PdfObject::Integer(n) => PdfObject::Integer(*n),
            PdfObject::Real(x) => PdfObject::Real(x.clone()),
            PdfObject::String(PdfString::Literal(b)) => {
                let c = b.clone();
                assert(c@ =~= b@);
                PdfObject::String(PdfString::Literal(c))
            },
            PdfObject::String(PdfString::Hex(b)) => {
                let c = b.clone();
                assert(c@ =~= b@);
                PdfObject::String(PdfString::Hex(c))
            },
            PdfObject::Name(n) => PdfObject::Name(n.clone()),
            PdfObject::Null => PdfObject::Null,
            PdfObject::Array(v) => {
                let n = v.len();
                let mut items: Vec<PdfObject> = Vec::new();
                let mut i: usize = 0;
                while i < n
                    invariant
                        n == v@.len(),
                        *self == PdfObject::Array(*v),
                        i <= n,
                        items@.len() == i,
                        forall|j: int| 0 <= j < i ==> (#[trigger] items@[j])@ == v@[j]@,
                    decreases n - i,
                {
                    proof {
                        assert((*self)->Array_0 == *v);
                        assert(decreases_to!(*self => (*self)->Array_0));
                        assert(decreases_to!(*v => v@));
                        assert(decreases_to!(v@ => v@[i as int]));
                        assert(decreases_to!(*self => v@[i as int]));
                    }
                    items.push(v[i].clone());
                    i += 1;
                }
                let r = PdfObject::Array(items);
                assert(r@->Array_0 =~= self@->Array_0);
                r
            },
            PdfObject::Dictionary(d) => PdfObject::Dictionary(d.clone()),
            PdfObject::IndirectRef(n, g) => PdfObject::IndirectRef(*n, *g),
            PdfObject::IndirectObject { num, generation, value } => PdfObject::IndirectObject {
                num: *num,
                generation: *generation,
                value: Box::new((**value).clone()),
            },
            PdfObject::Stream { dict, data } => {
                let c = data.clone();
                assert(c@ =~= data@);
                PdfObject::Stream { dict: dict.clone(), data: c }
            },
        }
    }
}

} // verus!
