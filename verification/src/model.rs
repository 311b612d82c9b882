//! The data model: the eight scalar types, property types and values, the
//! schema (header) description, and the canonical row representation.
use vstd::prelude::*;

use crate::codec::str_bytes;

verus! {

/// The eight primitive numeric types a PLY file can carry.
#[derive(Clone, Copy, Debug, PartialEq, Eq, Structural)]
pub enum ScalarType {
    Char,
    UChar,
    Short,
    UShort,
    Int,
    UInt,
    Float,
    Double,
}

/// The text token of a scalar type in a header line.
pub open spec fn scalar_token(t: ScalarType) -> Seq<u8> {
    match t {
        ScalarType::Char => seq!['c' as u8, 'h' as u8, 'a' as u8, 'r' as u8],
        ScalarType::UChar => seq!['u' as u8, 'c' as u8, 'h' as u8, 'a' as u8, 'r' as u8],
        ScalarType::Short => seq!['s' as u8, 'h' as u8, 'o' as u8, 'r' as u8, 't' as u8],
        ScalarType::UShort => seq![
            'u' as u8,
            's' as u8,
            'h' as u8,
            'o' as u8,
            'r' as u8,
            't' as u8,
        ],
        ScalarType::Int => seq!['i' as u8, 'n' as u8, 't' as u8],
        ScalarType::UInt => seq!['u' as u8, 'i' as u8, 'n' as u8, 't' as u8],
        ScalarType::Float => seq!['f' as u8, 'l' as u8, 'o' as u8, 'a' as u8, 't' as u8],
        ScalarType::Double => seq![
            'd' as u8,
            'o' as u8,
            'u' as u8,
            'b' as u8,
            'l' as u8,
            'e' as u8,
        ],
    }
}

/// The number of bytes one value of the type takes in binary form.
pub open spec fn scalar_width(t: ScalarType) -> nat {
    match t {
        ScalarType::Char => 1,
        ScalarType::UChar => 1,
        ScalarType::Short => 2,
        ScalarType::UShort => 2,
        ScalarType::Int => 4,
        ScalarType::UInt => 4,
        ScalarType::Float => 4,
        ScalarType::Double => 8,
    }
}

/// Whether the type may index a list: every type but the two floating ones.
pub open spec fn scalar_is_integer(t: ScalarType) -> bool {
    !(t is Float || t is Double)
}

/// Append the header token of `t` to `out`.
pub fn push_scalar_token(out: &mut Vec<u8>, t: ScalarType)
    ensures
        final(out)@ == old(out)@ + scalar_token(t),
{
    match t {
        ScalarType::Char => {
            out.push('c' as u8);
            out.push('h' as u8);
            out.push('a' as u8);
            out.push('r' as u8);
        },
        ScalarType::UChar => {
            out.push('u' as u8);
            out.push('c' as u8);
            out.push('h' as u8);
            out.push('a' as u8);
            out.push('r' as u8);
        },
        ScalarType::Short => {
            out.push('s' as u8);
            out.push('h' as u8);
            out.push('o' as u8);
            out.push('r' as u8);
            out.push('t' as u8);
        },
        ScalarType::UShort => {
            out.push('u' as u8);
            out.push('s' as u8);
            out.push('h' as u8);
            out.push('o' as u8);
            out.push('r' as u8);
            out.push('t' as u8);
        },
        ScalarType::Int => {
            out.push('i' as u8);
            out.push('n' as u8);
            out.push('t' as u8);
        },
        ScalarType::UInt => {
            out.push('u' as u8);
            out.push('i' as u8);
            out.push('n' as u8);
            out.push('t' as u8);
        },
        ScalarType::Float => {
            out.push('f' as u8);
            out.push('l' as u8);
            out.push('o' as u8);
            out.push('a' as u8);
            out.push('t' as u8);
        },
        ScalarType::Double => {
            out.push('d' as u8);
            out.push('o' as u8);
            out.push('u' as u8);
            out.push('b' as u8);
            out.push('l' as u8);
            out.push('e' as u8);
        },
    }
    proof {
        assert(out@ =~= old(out)@ + scalar_token(t));
    }
}

/// The scalar type a token denotes, if any: the decoder matching the emitter.
pub open spec fn token_scalar(s: Seq<u8>) -> Option<ScalarType> {
    if s == scalar_token(ScalarType::Char) {
        Some(ScalarType::Char)
    } else if s == scalar_token(ScalarType::UChar) {
        Some(ScalarType::UChar)
    } else if s == scalar_token(ScalarType::Short) {
        Some(ScalarType::Short)
    } else if s == scalar_token(ScalarType::UShort) {
        Some(ScalarType::UShort)
    } else if s == scalar_token(ScalarType::Int) {
        Some(ScalarType::Int)
    } else if s == scalar_token(ScalarType::UInt) {
        Some(ScalarType::UInt)
    } else if s == scalar_token(ScalarType::Float) {
        Some(ScalarType::Float)
    } else if s == scalar_token(ScalarType::Double) {
        Some(ScalarType::Double)
    } else {
        None
    }
}

/// Whether `tok` reads back as the token of `t`.
fn token_matches(tok: &[u8], t: ScalarType) -> (r: bool)
    ensures
        r == (tok@ == scalar_token(t)),
{
    let mut v: Vec<u8> = Vec::new();
    push_scalar_token(&mut v, t);
    if tok.len() != v.len() {
        proof {
            assert(tok@ != scalar_token(t));
        }
        return false;
    }
    let mut i: usize = 0;
    while i < tok.len()
        invariant
            0 <= i <= tok@.len(),
            tok@.len() == v@.len(),
            v@ == scalar_token(t),
            forall|j: int| 0 <= j < i ==> tok@[j] == v@[j],
        decreases tok@.len() - i,
    {
        if tok[i] != v[i] {
            return false;
        }
        i = i + 1;
    }
    proof {
        assert(tok@ =~= scalar_token(t));
    }
    true
}

/// Decode a header token back to its scalar type.
pub fn scalar_type_from_token(tok: &[u8]) -> (r: Option<ScalarType>)
    ensures
        r == token_scalar(tok@),
{
    if token_matches(tok, ScalarType::Char) {
        Some(ScalarType::Char)
    } else if token_matches(tok, ScalarType::UChar) {
        Some(ScalarType::UChar)
    } else if token_matches(tok, ScalarType::Short) {
        Some(ScalarType::Short)
    } else if token_matches(tok, ScalarType::UShort) {
        Some(ScalarType::UShort)
    } else if token_matches(tok, ScalarType::Int) {
        Some(ScalarType::Int)
    } else if token_matches(tok, ScalarType::UInt) {
        Some(ScalarType::UInt)
    } else if token_matches(tok, ScalarType::Float) {
        Some(ScalarType::Float)
    } else if token_matches(tok, ScalarType::Double) {
        Some(ScalarType::Double)
    } else {
        None
    }
}

/// Every scalar type's token reads back as that type.
pub proof fn lemma_scalar_token_round_trip(t: ScalarType)
    ensures
        token_scalar(scalar_token(t)) == Some(t),
{
}

/// The declared type of one property: a single scalar, or a list of scalars
/// whose length travels first, encoded in a separate index type.
#[derive(Clone, Copy, Debug, PartialEq, Eq, Structural)]
pub enum PropertyType {
    Scalar(ScalarType),
    List(ScalarType, ScalarType),
}

/// A list's length may only be indexed by an integer type.
pub open spec fn property_type_valid(t: PropertyType) -> bool {
    match t {
        PropertyType::Scalar(_) => true,
        PropertyType::List(index, _) => scalar_is_integer(index),
    }
}

/// The three wire encodings of a document.
#[derive(Clone, Copy, Debug, PartialEq, Eq, Structural)]
pub enum Encoding {
    Ascii,
    BinaryBigEndian,
    BinaryLittleEndian,
}

/// The format version named in the header's format line.
#[derive(Clone, Copy, Debug, PartialEq, Eq, Structural)]
pub struct Version {
    pub major: u16,
    pub minor: u8,
}

/// One declared property of an element.
pub struct PropertyDef {
    pub name: String,
    pub data_type: PropertyType,
}

/// The mathematical value of a property definition.
pub ghost struct PropertyDefV {
    pub name: Seq<char>,
    pub data_type: PropertyType,
}

impl View for PropertyDef {
    type V = PropertyDefV;

    open spec fn view(&self) -> PropertyDefV {
        PropertyDefV { name: self.name@, data_type: self.data_type }
    }
}

impl DeepView for PropertyDef {
    type V = PropertyDefV;

    open spec fn deep_view(&self) -> PropertyDefV {
        self.view()
    }
}

/// One element of the schema: its name, its expected row count, and its
/// properties in declared order, which is the wire order.
pub struct ElementDef {
    pub name: String,
    pub count: usize,
    pub properties: Vec<PropertyDef>,
}

/// The mathematical value of an element definition.
pub ghost struct ElementDefV {
    pub name: Seq<char>,
    pub count: nat,
    pub properties: Seq<PropertyDefV>,
}

impl View for ElementDef {
    type V = ElementDefV;

    open spec fn view(&self) -> ElementDefV {
        ElementDefV {
            name: self.name@,
            count: self.count as nat,
            properties: self.properties.deep_view(),
        }
    }
}

impl DeepView for ElementDef {
    type V = ElementDefV;

    open spec fn deep_view(&self) -> ElementDefV {
        self.view()
    }
}

/// The whole schema: encoding, version, free-text lines, and the elements in
/// declared order.
pub struct Header {
    pub encoding: Encoding,
    pub version: Version,
    pub comments: Vec<String>,
    pub obj_infos: Vec<String>,
    pub elements: Vec<ElementDef>,
}

/// The mathematical value of a header.
pub ghost struct HeaderV {
    pub encoding: Encoding,
    pub version: Version,
    pub comments: Seq<Seq<char>>,
    pub obj_infos: Seq<Seq<char>>,
    pub elements: Seq<ElementDefV>,
}

impl View for Header {
    type V = HeaderV;

    open spec fn view(&self) -> HeaderV {
        HeaderV {
            encoding: self.encoding,
            version: self.version,
            comments: self.comments.deep_view(),
            obj_infos: self.obj_infos.deep_view(),
            elements: self.elements.deep_view(),
        }
    }
}

/// Every list property of the header declares an integer index type.
pub open spec fn header_valid(h: HeaderV) -> bool {
    forall|i: int, j: int|
        0 <= i < h.elements.len() && 0 <= j < h.elements[i].properties.len()
            ==> property_type_valid(#[trigger] h.elements[i].properties[j].data_type)
}

/// What the writer failed on; stream errors live with the caller who owns the
/// stream.
#[derive(Clone, Copy, Debug, PartialEq, Eq, Structural)]
pub enum PlyError {
    /// A list property declares Float or Double as its length's type.
    InvalidListIndexType,
    /// A row lacks a property the schema declares, or holds it with another
    /// type than the declared one.
    MissingProperty,
}

/// One decoded property value. The two floating arms carry IEEE-754 bit
/// patterns (as `to_bits` yields them): the writer only re-encodes the bits,
/// it never computes with the values.
pub enum Property {
    Char(i8),
    UChar(u8),
    Short(i16),
    UShort(u16),
    Int(i32),
    UInt(u32),
    Float(u32),
    Double(u64),
    ListChar(Vec<i8>),
    ListUChar(Vec<u8>),
    ListShort(Vec<i16>),
    ListUShort(Vec<u16>),
    ListInt(Vec<i32>),
    ListUInt(Vec<u32>),
    ListFloat(Vec<u32>),
    ListDouble(Vec<u64>),
}

/// The mathematical value of a property value.
pub ghost enum PropertyV {
    Char(i8),
    UChar(u8),
    Short(i16),
    UShort(u16),
    Int(i32),
    UInt(u32),
    Float(u32),
    Double(u64),
    ListChar(Seq<i8>),
    ListUChar(Seq<u8>),
    ListShort(Seq<i16>),
    ListUShort(Seq<u16>),
    ListInt(Seq<i32>),
    ListUInt(Seq<u32>),
    ListFloat(Seq<u32>),
    ListDouble(Seq<u64>),
}

impl View for Property {
    type V = PropertyV;

    open spec fn view(&self) -> PropertyV {
        match self {
            Property::Char(v) => PropertyV::Char(*v),
            Property::UChar(v) => PropertyV::UChar(*v),
            Property::Short(v) => PropertyV::Short(*v),
            Property::UShort(v) => PropertyV::UShort(*v),
            Property::Int(v) => PropertyV::Int(*v),
            Property::UInt(v) => PropertyV::UInt(*v),
            Property::Float(v) => PropertyV::Float(*v),
            Property::Double(v) => PropertyV::Double(*v),
            Property::ListChar(v) => PropertyV::ListChar(v@),
            Property::ListUChar(v) => PropertyV::ListUChar(v@),
            Property::ListShort(v) => PropertyV::ListShort(v@),
            Property::ListUShort(v) => PropertyV::ListUShort(v@),
            Property::ListInt(v) => PropertyV::ListInt(v@),
            Property::ListUInt(v) => PropertyV::ListUInt(v@),
            Property::ListFloat(v) => PropertyV::ListFloat(v@),
            Property::ListDouble(v) => PropertyV::ListDouble(v@),
        }
    }
}

impl DeepView for Property {
    type V = PropertyV;

    open spec fn deep_view(&self) -> PropertyV {
        self.view()
    }
}

/// Whether a value fits a declared type: the matching scalar arm, or the
/// matching list arm for the declared content type.
pub open spec fn prop_matches(p: PropertyV, t: PropertyType) -> bool {
    match t {
        PropertyType::Scalar(st) => match st {
            ScalarType::Char => p is Char,
            ScalarType::UChar => p is UChar,
            ScalarType::Short => p is Short,
            ScalarType::UShort => p is UShort,
            ScalarType::Int => p is Int,
            ScalarType::UInt => p is UInt,
            ScalarType::Float => p is Float,
            ScalarType::Double => p is Double,
        },
        PropertyType::List(_, ct) => match ct {
            ScalarType::Char => p is ListChar,
            ScalarType::UChar => p is ListUChar,
            ScalarType::Short => p is ListShort,
            ScalarType::UShort => p is ListUShort,
            ScalarType::Int => p is ListInt,
            ScalarType::UInt => p is ListUInt,
            ScalarType::Float => p is ListFloat,
            ScalarType::Double => p is ListDouble,
        },
    }
}

/// One row in canonical form: property name to value, in schema order.
pub struct DefaultElement {
    pub properties: Vec<(String, Property)>,
}

impl View for DefaultElement {
    type V = Seq<(Seq<char>, PropertyV)>;

    open spec fn view(&self) -> Seq<(Seq<char>, PropertyV)> {
        self.properties.deep_view()
    }
}

/// The first value stored under a name, by the name's UTF-8 bytes.
pub open spec fn find_prop(props: Seq<(Seq<char>, PropertyV)>, key: Seq<u8>) -> Option<PropertyV>
    decreases props.len(),
{
    if props.len() == 0 {
        None
    } else if str_bytes(props[0].0) == key {
        Some(props[0].1)
    } else {
        find_prop(props.skip(1), key)
    }
}

/// Byte-for-byte equality of two slices.
pub fn bytes_eq(a: &[u8], b: &[u8]) -> (r: bool)
    ensures
        r == (a@ == b@),
{
    if a.len() != b.len() {
        proof {
            assert(a@ != b@);
        }
        return false;
    }
    let mut i: usize = 0;
    while i < a.len()
        invariant
            0 <= i <= a@.len(),
            a@.len() == b@.len(),
            forall|j: int| 0 <= j < i ==> a@[j] == b@[j],
        decreases a@.len() - i,
    {
        if a[i] != b[i] {
            return false;
        }
        i = i + 1;
    }
    proof {
        assert(a@ =~= b@);
    }
    true
}

/// An element-by-element copy of a vector of plain values.
pub fn copy_vec<T: Copy>(v: &Vec<T>) -> (r: Vec<T>)
    ensures
        r@ == v@,
{
    let mut r: Vec<T> = Vec::new();
    let mut i: usize = 0;
    while i < v.len()
        invariant
            0 <= i <= v@.len(),
            r@ == v@.subrange(0, i as int),
        decreases v@.len() - i,
    {
        r.push(v[i]);
        proof {
            assert(v@.subrange(0, i + 1 as int) =~= v@.subrange(0, i as int) + seq![v@[i as int]]);
        }
        i = i + 1;
    }
    proof {
        assert(v@.subrange(0, v@.len() as int) =~= v@);
    }
    r
}

/// A copy of a string with the same text.
pub fn clone_string(s: &String) -> (r: String)
    ensures
        r@ == s@,
{
    s.as_str().to_owned()
}

/// A copy of a property value with the same mathematical value.
pub fn clone_property(p: &Property) -> (r: Property)
    ensures
        r@ == p@,
{
    match p {
        Property::Char(v) => Property::Char(*v),
        Property::UChar(v) => Property::UChar(*v),
        Property::Short(v) => Property::Short(*v),
        Property::UShort(v) => Property::UShort(*v),
        Property::Int(v) => Property::Int(*v),
        Property::UInt(v) => Property::UInt(*v),
        Property::Float(v) => Property::Float(*v),
        Property::Double(v) => Property::Double(*v),
        Property::ListChar(l) => Property::ListChar(copy_vec(l)),
        Property::ListUChar(l) => Property::ListUChar(copy_vec(l)),
        Property::ListShort(l) => Property::ListShort(copy_vec(l)),
        Property::ListUShort(l) => Property::ListUShort(copy_vec(l)),
        Property::ListInt(l) => Property::ListInt(copy_vec(l)),
        Property::ListUInt(l) => Property::ListUInt(copy_vec(l)),
        Property::ListFloat(l) => Property::ListFloat(copy_vec(l)),
        Property::ListDouble(l) => Property::ListDouble(copy_vec(l)),
    }
}

/// The first element definition stored under a name, by the name's bytes.
pub open spec fn find_element(elems: Seq<ElementDefV>, key: Seq<u8>) -> Option<ElementDefV>
    decreases elems.len(),
{
    if elems.len() == 0 {
        None
    } else if str_bytes(elems[0].name) == key {
        Some(elems[0])
    } else {
        find_element(elems.skip(1), key)
    }
}

impl Header {
    /// Borrow the first element definition stored under `name`, if any.
    pub fn get_element(&self, name: &str) -> (r: Option<&ElementDef>)
        ensures
            match r {
                Some(e) => find_element(self@.elements, str_bytes(name@)) == Some(e@),
                None => find_element(self@.elements, str_bytes(name@)) is None,
            },
    {
        let key = name.as_bytes();
        let n = self.elements.len();
        let mut i: usize = 0;
        proof {
            assert(self@.elements.skip(0) =~= self@.elements);
        }
        while i < n
            invariant
                0 <= i <= n,
                n == self@.elements.len(),
                find_element(self@.elements, key@) == find_element(
                    self@.elements.skip(i as int),
                    key@,
                ),
                key@ == str_bytes(name@),
            decreases n - i,
        {
            let entry = &self.elements[i];
            if bytes_eq(entry.name.as_str().as_bytes(), key) {
                proof {
                    assert(self@.elements.skip(i as int)[0] == self@.elements[i as int]);
                }
                return Some(entry);
            }
            proof {
                assert(self@.elements.skip(i as int)[0] == self@.elements[i as int]);
                assert(self@.elements.skip(i as int).skip(1) =~= self@.elements.skip(i + 1));
            }
            i = i + 1;
        }
        proof {
            assert(self@.elements.skip(n as int) =~= Seq::<ElementDefV>::empty());
        }
        None
    }
}

/// A whole document: the schema and, per element name, its rows.
pub struct Ply<P> {
    pub header: Header,
    pub payload: Vec<(String, Vec<P>)>,
}

impl DefaultElement {
    /// A row with no properties yet.
    pub fn new() -> (r: DefaultElement)
        ensures
            r@ == Seq::<(Seq<char>, PropertyV)>::empty(),
    {
        let r = DefaultElement { properties: Vec::new() };
        proof {
            assert(r@ =~= Seq::<(Seq<char>, PropertyV)>::empty());
        }
        r
    }

    /// Add a property at the end of the row.
    pub fn push_property(&mut self, name: String, value: Property)
        ensures
            final(self)@ == old(self)@.push((name@, value@)),
    {
        let ghost before = self@;
        self.properties.push((name, value));
        proof {
            assert(self@ =~= before.push((name@, value@)));
        }
    }

    /// Borrow the first property stored under `name`, if any.
    pub fn get_property(&self, name: &str) -> (r: Option<&Property>)
        ensures
            match r {
                Some(p) => find_prop(self@, str_bytes(name@)) == Some(p@),
                None => find_prop(self@, str_bytes(name@)) is None,
            },
    {
        let key = name.as_bytes();
        let n = self.properties.len();
        let mut i: usize = 0;
        proof {
            assert(self@.skip(0) =~= self@);
        }
        while i < n
            invariant
                0 <= i <= n,
                n == self@.len(),
                find_prop(self@, key@) == find_prop(self@.skip(i as int), key@),
                key@ == str_bytes(name@),
            decreases n - i,
        {
            let entry = &self.properties[i];
            if bytes_eq(entry.0.as_str().as_bytes(), key) {
                proof {
                    assert(self@.skip(i as int)[0] == self@[i as int]);
                }
                return Some(&entry.1);
            }
            proof {
                assert(self@.skip(i as int)[0] == self@[i as int]);
                assert(self@.skip(i as int).skip(1) =~= self@.skip(i + 1));
            }
            i = i + 1;
        }
        proof {
            assert(self@.skip(n as int) =~= Seq::<(Seq<char>, PropertyV)>::empty());
        }
        None
    }
}

} // verus!
