//! Encoding of one canonical row: ASCII text with single-space separators,
//! or fixed-width binary in either byte order.
use vstd::prelude::*;

use crate::codec::concat_bytes;
use crate::codec::dec_int;
use crate::codec::dec_nat;
use crate::codec::f32_text;
use crate::codec::f64_text;
use crate::codec::join_space;
use crate::codec::lemma_concat_bytes_prefix;
use crate::codec::lemma_dec_int_no_space;
use crate::codec::lemma_join_space_concat;
use crate::codec::push_bytes;
use crate::codec::push_dec_i64;
use crate::codec::push_dec_u64;
use crate::codec::push_dec_usize;
use crate::codec::push_f32_text;
use crate::codec::push_f64_text;
use crate::codec::push_u16_bytes;
use crate::codec::push_u32_bytes;
use crate::codec::push_u64_bytes;
use crate::codec::str_bytes;
use crate::codec::token_clean;
use crate::codec::u16_bytes;
use crate::codec::u16_of_bytes;
use crate::codec::u32_bytes;
use crate::codec::u32_of_bytes;
use crate::codec::u64_bytes;
use crate::codec::u64_of_bytes;
use crate::model::find_prop;
use crate::model::prop_matches;
use crate::model::property_type_valid;
use crate::model::scalar_is_integer;
use crate::model::scalar_width;
use crate::model::DefaultElement;
use crate::model::ElementDef;
use crate::model::PlyError;
use crate::model::Property;
use crate::model::PropertyDefV;
use crate::model::PropertyType;
use crate::model::PropertyV;
use crate::model::ScalarType;

verus! {

/// The space-separated tokens one property contributes to an ASCII row: the
/// value itself for a scalar, the length followed by the values for a list.
pub open spec fn ascii_tokens(p: PropertyV) -> Seq<Seq<u8>> {
    match p {
        PropertyV::Char(v) => seq![dec_int(v as int)],
        PropertyV::UChar(v) => seq![dec_nat(v as nat)],
        PropertyV::Short(v) => seq![dec_int(v as int)],
        PropertyV::UShort(v) => seq![dec_nat(v as nat)],
        PropertyV::Int(v) => seq![dec_int(v as int)],
        PropertyV::UInt(v) => seq![dec_nat(v as nat)],
        PropertyV::Float(b) => seq![f32_text(b)],
        PropertyV::Double(b) => seq![f64_text(b)],
        PropertyV::ListChar(l) => seq![dec_nat(l.len())] + l.map_values(|x: i8| dec_int(x as int)),
        PropertyV::ListUChar(l) => seq![dec_nat(l.len())] + l.map_values(
            |x: u8| dec_nat(x as nat),
        ),
        PropertyV::ListShort(l) => seq![dec_nat(l.len())] + l.map_values(
            |x: i16| dec_int(x as int),
        ),
        PropertyV::ListUShort(l) => seq![dec_nat(l.len())] + l.map_values(
            |x: u16| dec_nat(x as nat),
        ),
        PropertyV::ListInt(l) => seq![dec_nat(l.len())] + l.map_values(|x: i32| dec_int(x as int)),
        PropertyV::ListUInt(l) => seq![dec_nat(l.len())] + l.map_values(
            |x: u32| dec_nat(x as nat),
        ),
        PropertyV::ListFloat(l) => seq![dec_nat(l.len())] + l.map_values(|x: u32| f32_text(x)),
        PropertyV::ListDouble(l) => seq![dec_nat(l.len())] + l.map_values(|x: u64| f64_text(x)),
    }
}

/// The tokens of a whole row, property by property in the row's own order.
pub open spec fn row_tokens(props: Seq<(Seq<char>, PropertyV)>) -> Seq<Seq<u8>>
    decreases props.len(),
{
    if props.len() == 0 {
        Seq::empty()
    } else {
        row_tokens(props.drop_last()) + ascii_tokens(props.last().1)
    }
}

/// One ASCII row: its tokens joined by single spaces, closed by the line end.
pub open spec fn ascii_row_bytes(props: Seq<(Seq<char>, PropertyV)>, nl: Seq<u8>) -> Seq<u8> {
    join_space(row_tokens(props)) + nl
}

/// Every property contributes at least one token.
pub proof fn lemma_ascii_tokens_nonempty(p: PropertyV)
    ensures
        ascii_tokens(p).len() >= 1,
{
}

pub proof fn lemma_row_tokens_len(props: Seq<(Seq<char>, PropertyV)>)
    ensures
        row_tokens(props).len() >= props.len(),
    decreases props.len(),
{
    if props.len() > 0 {
        lemma_row_tokens_len(props.drop_last());
        lemma_ascii_tokens_nonempty(props.last().1);
    }
}

/// The binary form of one scalar value in the given byte order; signed values
/// and floating bit patterns travel as their unsigned bit images.
pub open spec fn binary_scalar_bytes(p: PropertyV, be: bool) -> Seq<u8> {
    match p {
        PropertyV::Char(v) => seq![v as u8],
        PropertyV::UChar(v) => seq![v],
        PropertyV::Short(v) => u16_bytes(v as u16, be),
        PropertyV::UShort(v) => u16_bytes(v, be),
        PropertyV::Int(v) => u32_bytes(v as u32, be),
        PropertyV::UInt(v) => u32_bytes(v, be),
        PropertyV::Float(b) => u32_bytes(b, be),
        PropertyV::Double(b) => u64_bytes(b, be),
        _ => Seq::empty(),
    }
}

/// The value the binary form of a scalar reads back as.
pub open spec fn decode_scalar(s: Seq<u8>, st: ScalarType, be: bool) -> PropertyV {
    match st {
        ScalarType::Char => PropertyV::Char(s[0] as i8),
        ScalarType::UChar => PropertyV::UChar(s[0]),
        ScalarType::Short => PropertyV::Short(u16_of_bytes(s, be) as i16),
        ScalarType::UShort => PropertyV::UShort(u16_of_bytes(s, be)),
        ScalarType::Int => PropertyV::Int(u32_of_bytes(s, be) as i32),
        ScalarType::UInt => PropertyV::UInt(u32_of_bytes(s, be)),
        ScalarType::Float => PropertyV::Float(u32_of_bytes(s, be)),
        ScalarType::Double => PropertyV::Double(u64_of_bytes(s, be)),
    }
}

/// The scalar type a scalar value carries.
pub open spec fn scalar_type_of(p: PropertyV) -> ScalarType {
    match p {
        PropertyV::Char(_) => ScalarType::Char,
        PropertyV::UChar(_) => ScalarType::UChar,
        PropertyV::Short(_) => ScalarType::Short,
        PropertyV::UShort(_) => ScalarType::UShort,
        PropertyV::Int(_) => ScalarType::Int,
        PropertyV::UInt(_) => ScalarType::UInt,
        PropertyV::Float(_) => ScalarType::Float,
        PropertyV::Double(_) => ScalarType::Double,
        _ => ScalarType::Char,
    }
}

/// A scalar's binary form is exactly its declared width, and reading those
/// bytes back in the same byte order restores the value: exactly for the six
/// integer types, bit-exactly for the two floating ones.
pub proof fn lemma_binary_scalar_round_trip(p: PropertyV, be: bool)
    requires
        prop_matches(p, PropertyType::Scalar(scalar_type_of(p))),
    ensures
        binary_scalar_bytes(p, be).len() == scalar_width(scalar_type_of(p)),
        decode_scalar(binary_scalar_bytes(p, be), scalar_type_of(p), be) == p,
{
    match p {
        PropertyV::Char(v) => {
            assert(((v as u8) as i8) == v) by (bit_vector);
        },
        PropertyV::UChar(v) => {},
        PropertyV::Short(v) => {
            crate::codec::lemma_u16_bytes_round_trip(v as u16, be);
            assert(((v as u16) as i16) == v) by (bit_vector);
        },
        PropertyV::UShort(v) => {
            crate::codec::lemma_u16_bytes_round_trip(v, be);
        },
        PropertyV::Int(v) => {
            crate::codec::lemma_u32_bytes_round_trip(v as u32, be);
            assert(((v as u32) as i32) == v) by (bit_vector);
        },
        PropertyV::UInt(v) => {
            crate::codec::lemma_u32_bytes_round_trip(v, be);
        },
        PropertyV::Float(b) => {
            crate::codec::lemma_u32_bytes_round_trip(b, be);
        },
        PropertyV::Double(b) => {
            crate::codec::lemma_u64_bytes_round_trip(b, be);
        },
        _ => {},
    }
}

/// The bytes of a list's length prefix: the length truncated to the index
/// type's width, as the original cast does, in the chosen byte order.
pub open spec fn list_len_bytes(index: ScalarType, len: nat, be: bool) -> Seq<u8> {
    match index {
        ScalarType::Char => seq![(len % 0x100) as u8],
        ScalarType::UChar => seq![(len % 0x100) as u8],
        ScalarType::Short => u16_bytes((len % 0x10000) as u16, be),
        ScalarType::UShort => u16_bytes((len % 0x10000) as u16, be),
        ScalarType::Int => u32_bytes((len % 0x100000000) as u32, be),
        ScalarType::UInt => u32_bytes((len % 0x100000000) as u32, be),
        _ => Seq::empty(),
    }
}

/// The length of a list value; zero for scalars.
pub open spec fn list_len(p: PropertyV) -> nat {
    match p {
        PropertyV::ListChar(l) => l.len(),
        PropertyV::ListUChar(l) => l.len(),
        PropertyV::ListShort(l) => l.len(),
        PropertyV::ListUShort(l) => l.len(),
        PropertyV::ListInt(l) => l.len(),
        PropertyV::ListUInt(l) => l.len(),
        PropertyV::ListFloat(l) => l.len(),
        PropertyV::ListDouble(l) => l.len(),
        _ => 0,
    }
}

/// The binary form of a list's values, back to back, no delimiters.
pub open spec fn list_items_bytes(p: PropertyV, be: bool) -> Seq<u8> {
    match p {
        PropertyV::ListChar(l) => concat_bytes(l.map_values(|x: i8| seq![x as u8])),
        PropertyV::ListUChar(l) => concat_bytes(l.map_values(|x: u8| seq![x])),
        PropertyV::ListShort(l) => concat_bytes(l.map_values(|x: i16| u16_bytes(x as u16, be))),
        PropertyV::ListUShort(l) => concat_bytes(l.map_values(|x: u16| u16_bytes(x, be))),
        PropertyV::ListInt(l) => concat_bytes(l.map_values(|x: i32| u32_bytes(x as u32, be))),
        PropertyV::ListUInt(l) => concat_bytes(l.map_values(|x: u32| u32_bytes(x, be))),
        PropertyV::ListFloat(l) => concat_bytes(l.map_values(|x: u32| u32_bytes(x, be))),
        PropertyV::ListDouble(l) => concat_bytes(l.map_values(|x: u64| u64_bytes(x, be))),
        _ => Seq::empty(),
    }
}

/// The binary form of one property under its declared type.
pub open spec fn binary_prop_bytes(p: PropertyV, t: PropertyType, be: bool) -> Seq<u8> {
    match t {
        PropertyType::Scalar(_) => binary_scalar_bytes(p, be),
        PropertyType::List(index, _) => list_len_bytes(index, list_len(p), be) + list_items_bytes(
            p,
            be,
        ),
    }
}

/// Concatenating chunks of one fixed width yields their number times it.
pub proof fn lemma_concat_uniform_len(ss: Seq<Seq<u8>>, w: nat)
    requires
        forall|i: int| 0 <= i < ss.len() ==> #[trigger] ss[i].len() == w,
    ensures
        concat_bytes(ss).len() == ss.len() * w,
    decreases ss.len(),
{
    if ss.len() == 0 {
        assert(0 * w == 0) by (nonlinear_arith);
    } else {
        lemma_concat_uniform_len(ss.drop_last(), w);
        assert((ss.len() - 1) * w + w == ss.len() * w) by (nonlinear_arith);
    }
}

/// The unsigned value a length prefix reads back as.
pub open spec fn decode_list_len(s: Seq<u8>, index: ScalarType, be: bool) -> nat {
    match index {
        ScalarType::Char => s[0] as nat,
        ScalarType::UChar => s[0] as nat,
        ScalarType::Short => u16_of_bytes(s, be) as nat,
        ScalarType::UShort => u16_of_bytes(s, be) as nat,
        ScalarType::Int => u32_of_bytes(s, be) as nat,
        ScalarType::UInt => u32_of_bytes(s, be) as nat,
        _ => 0,
    }
}

/// Whether a list length fits the index type's width unmangled.
pub open spec fn len_fits(index: ScalarType, len: nat) -> bool {
    match index {
        ScalarType::Char => len < 0x100,
        ScalarType::UChar => len < 0x100,
        ScalarType::Short => len < 0x10000,
        ScalarType::UShort => len < 0x10000,
        ScalarType::Int => len < 0x100000000,
        ScalarType::UInt => len < 0x100000000,
        _ => false,
    }
}

/// A list of length L and content type C takes index-width plus L times
/// C's width bytes, and its prefix reads back as L whenever L fits the
/// index type's width.
pub proof fn lemma_binary_list_shape(p: PropertyV, index: ScalarType, ct: ScalarType, be: bool)
    requires
        prop_matches(p, PropertyType::List(index, ct)),
        scalar_is_integer(index),
    ensures
        binary_prop_bytes(p, PropertyType::List(index, ct), be).len() == scalar_width(index)
            + list_len(p) * scalar_width(ct),
        len_fits(index, list_len(p)) ==> decode_list_len(
            binary_prop_bytes(p, PropertyType::List(index, ct), be).subrange(
                0,
                scalar_width(index) as int,
            ),
            index,
            be,
        ) == list_len(p),
{
    let prefix = list_len_bytes(index, list_len(p), be);
    let items = list_items_bytes(p, be);
    let len = list_len(p);
    match index {
        ScalarType::Char | ScalarType::UChar => {
            if len_fits(index, len) {
                assert(len % 0x100 == len);
            }
        },
        ScalarType::Short | ScalarType::UShort => {
            crate::codec::lemma_u16_bytes_round_trip((len % 0x10000) as u16, be);
            if len_fits(index, len) {
                assert(len % 0x10000 == len);
            }
        },
        ScalarType::Int | ScalarType::UInt => {
            crate::codec::lemma_u32_bytes_round_trip((len % 0x100000000) as u32, be);
            if len_fits(index, len) {
                assert(len % 0x100000000 == len);
            }
        },
        _ => {},
    }
    assert((prefix + items).subrange(0, prefix.len() as int) =~= prefix);
    match p {
        PropertyV::ListChar(l) => {
            lemma_concat_uniform_len(l.map_values(|x: i8| seq![x as u8]), 1);
        },
        PropertyV::ListUChar(l) => {
            lemma_concat_uniform_len(l.map_values(|x: u8| seq![x]), 1);
        },
        PropertyV::ListShort(l) => {
            lemma_concat_uniform_len(l.map_values(|x: i16| u16_bytes(x as u16, be)), 2);
        },
        PropertyV::ListUShort(l) => {
            lemma_concat_uniform_len(l.map_values(|x: u16| u16_bytes(x, be)), 2);
        },
        PropertyV::ListInt(l) => {
            lemma_concat_uniform_len(l.map_values(|x: i32| u32_bytes(x as u32, be)), 4);
        },
        PropertyV::ListUInt(l) => {
            lemma_concat_uniform_len(l.map_values(|x: u32| u32_bytes(x, be)), 4);
        },
        PropertyV::ListFloat(l) => {
            lemma_concat_uniform_len(l.map_values(|x: u32| u32_bytes(x, be)), 4);
        },
        PropertyV::ListDouble(l) => {
            lemma_concat_uniform_len(l.map_values(|x: u64| u64_bytes(x, be)), 8);
        },
        _ => {},
    }
}

/// The first fault of a row against an element's declared properties, walked
/// in schema order: a floating list index is reported before the value is
/// even looked up; a value that is absent or of the wrong shape is a missing
/// property.
pub open spec fn row_first_error(
    props: Seq<(Seq<char>, PropertyV)>,
    defs: Seq<PropertyDefV>,
) -> Option<PlyError>
    decreases defs.len(),
{
    if defs.len() == 0 {
        None
    } else if !property_type_valid(defs[0].data_type) {
        Some(PlyError::InvalidListIndexType)
    } else {
        match find_prop(props, str_bytes(defs[0].name)) {
            None => Some(PlyError::MissingProperty),
            Some(p) => if !prop_matches(p, defs[0].data_type) {
                Some(PlyError::MissingProperty)
            } else {
                row_first_error(props, defs.skip(1))
            },
        }
    }
}

/// A schema-violation fault is only ever reported for a schema that holds
/// one: the first-fault walk yields `InvalidListIndexType` only when some
/// declared property has a floating list index.
pub proof fn lemma_row_first_error_kinds(
    props: Seq<(Seq<char>, PropertyV)>,
    defs: Seq<PropertyDefV>,
)
    ensures
        row_first_error(props, defs) == Some(PlyError::InvalidListIndexType) ==> exists|j: int|
            0 <= j < defs.len() && !property_type_valid(#[trigger] defs[j].data_type),
    decreases defs.len(),
{
    if defs.len() > 0 {
        if !property_type_valid(defs[0].data_type) {
            assert(!property_type_valid(defs[0].data_type));
        } else {
            lemma_row_first_error_kinds(props, defs.skip(1));
            if row_first_error(props, defs) == Some(PlyError::InvalidListIndexType) {
                let j = choose|j: int|
                    0 <= j < defs.skip(1).len() && !property_type_valid(
                        #[trigger] defs.skip(1)[j].data_type,
                    );
                assert(defs.skip(1)[j] == defs[j + 1]);
                assert(!property_type_valid(defs[j + 1].data_type));
            }
        }
    }
}

/// The value a row holds for a declared property.
pub open spec fn row_prop(props: Seq<(Seq<char>, PropertyV)>, d: PropertyDefV) -> PropertyV {
    match find_prop(props, str_bytes(d.name)) {
        Some(p) => p,
        None => vstd::pervasive::arbitrary(),
    }
}

/// The binary form of a whole row: each declared property's form, in schema
/// order, no delimiters and no terminator.
pub open spec fn binary_row_bytes(
    props: Seq<(Seq<char>, PropertyV)>,
    defs: Seq<PropertyDefV>,
    be: bool,
) -> Seq<u8>
    decreases defs.len(),
{
    if defs.len() == 0 {
        Seq::empty()
    } else {
        binary_row_bytes(props, defs.drop_last(), be) + binary_prop_bytes(
            row_prop(props, defs.last()),
            defs.last().data_type,
            be,
        )
    }
}

/// Whether a value fits a declared type, decided in executable code.
pub fn prop_matches_exec(p: &Property, t: PropertyType) -> (r: bool)
    ensures
        r == prop_matches(p@, t),
{
    let st = match t {
        PropertyType::Scalar(st) => st,
        PropertyType::List(_, ct) => ct,
    };
    let is_list = match t {
        PropertyType::Scalar(_) => false,
        PropertyType::List(_, _) => true,
    };
    match (st, is_list, p) {
        (ScalarType::Char, false, Property::Char(_)) => true,
        (ScalarType::UChar, false, Property::UChar(_)) => true,
        (ScalarType::Short, false, Property::Short(_)) => true,
        (ScalarType::UShort, false, Property::UShort(_)) => true,
        (ScalarType::Int, false, Property::Int(_)) => true,
        (ScalarType::UInt, false, Property::UInt(_)) => true,
        (ScalarType::Float, false, Property::Float(_)) => true,
        (ScalarType::Double, false, Property::Double(_)) => true,
        (ScalarType::Char, true, Property::ListChar(_)) => true,
        (ScalarType::UChar, true, Property::ListUChar(_)) => true,
        (ScalarType::Short, true, Property::ListShort(_)) => true,
        (ScalarType::UShort, true, Property::ListUShort(_)) => true,
        (ScalarType::Int, true, Property::ListInt(_)) => true,
        (ScalarType::UInt, true, Property::ListUInt(_)) => true,
        (ScalarType::Float, true, Property::ListFloat(_)) => true,
        (ScalarType::Double, true, Property::ListDouble(_)) => true,
        _ => false,
    }
}

/// Append one scalar value's binary form.
fn push_binary_scalar(out: &mut Vec<u8>, p: &Property, be: bool)
    ensures
        final(out)@ == old(out)@ + binary_scalar_bytes(p@, be),
{
    match p {
        Property::Char(v) => {
            out.push(*v as u8);
        },
        Property::UChar(v) => {
            out.push(*v);
        },
        Property::Short(v) => {
            push_u16_bytes(out, *v as u16, be);
        },
        Property::UShort(v) => {
            push_u16_bytes(out, *v, be);
        },
        Property::Int(v) => {
            push_u32_bytes(out, *v as u32, be);
        },
        Property::UInt(v) => {
            push_u32_bytes(out, *v, be);
        },
        Property::Float(b) => {
            push_u32_bytes(out, *b, be);
        },
        Property::Double(b) => {
            push_u64_bytes(out, *b, be);
        },
        _ => {},
    }
    proof {
        assert(out@ =~= old(out)@ + binary_scalar_bytes(p@, be));
    }
}

/// Append a list's length, truncated to the declared index type's width.
fn push_list_len(out: &mut Vec<u8>, index: ScalarType, len: usize, be: bool)
    requires
        scalar_is_integer(index),
    ensures
        final(out)@ == old(out)@ + list_len_bytes(index, len as nat, be),
{
    let w: u64 = len as u64;
    match index {
        ScalarType::Char | ScalarType::UChar => {
            proof {
                assert(w as u8 == (w % 0x100) as u8) by (bit_vector);
            }
            out.push(#[verifier::truncate] (w as u8));
        },
        ScalarType::Short | ScalarType::UShort => {
            proof {
                assert(w as u16 == (w % 0x10000) as u16) by (bit_vector);
            }
            push_u16_bytes(out, #[verifier::truncate] (w as u16), be);
        },
        ScalarType::Int | ScalarType::UInt => {
            proof {
                assert(w as u32 == (w % 0x100000000) as u32) by (bit_vector);
            }
            push_u32_bytes(out, #[verifier::truncate] (w as u32), be);
        },
        _ => {},
    }
    proof {
        assert(out@ =~= old(out)@ + list_len_bytes(index, len as nat, be));
    }
}

/// Append every value of a list in binary form, back to back.
fn push_list_items(out: &mut Vec<u8>, p: &Property, be: bool)
    ensures
        final(out)@ == old(out)@ + list_items_bytes(p@, be),
{
    match p {
        Property::ListChar(l) => {
            let ghost chunks = l@.map_values(|x: i8| seq![x as u8]);
            let mut j: usize = 0;
            while j < l.len()
                invariant
                    0 <= j <= l@.len(),
                    chunks == l@.map_values(|x: i8| seq![x as u8]),
                    out@ == old(out)@ + concat_bytes(chunks.subrange(0, j as int)),
                decreases l@.len() - j,
            {
                proof {
                    lemma_concat_bytes_prefix(chunks, j as int);
                }
                out.push(l[j] as u8);
                j = j + 1;
            }
            proof {
                assert(chunks.subrange(0, chunks.len() as int) =~= chunks);
            }
        },
        Property::ListUChar(l) => {
            let ghost chunks = l@.map_values(|x: u8| seq![x]);
            let mut j: usize = 0;
            while j < l.len()
                invariant
                    0 <= j <= l@.len(),
                    chunks == l@.map_values(|x: u8| seq![x]),
                    out@ == old(out)@ + concat_bytes(chunks.subrange(0, j as int)),
                decreases l@.len() - j,
            {
                proof {
                    lemma_concat_bytes_prefix(chunks, j as int);
                }
                out.push(l[j]);
                j = j + 1;
            }
            proof {
                assert(chunks.subrange(0, chunks.len() as int) =~= chunks);
            }
        },
        Property::ListShort(l) => {
            let ghost chunks = l@.map_values(|x: i16| u16_bytes(x as u16, be));
            let mut j: usize = 0;
            while j < l.len()
                invariant
                    0 <= j <= l@.len(),
                    chunks == l@.map_values(|x: i16| u16_bytes(x as u16, be)),
                    out@ == old(out)@ + concat_bytes(chunks.subrange(0, j as int)),
                decreases l@.len() - j,
            {
                proof {
                    lemma_concat_bytes_prefix(chunks, j as int);
                }
                push_u16_bytes(out, l[j] as u16, be);
                j = j + 1;
            }
            proof {
                assert(chunks.subrange(0, chunks.len() as int) =~= chunks);
            }
        },
        Property::ListUShort(l) => {
            let ghost chunks = l@.map_values(|x: u16| u16_bytes(x, be));
            let mut j: usize = 0;
            while j < l.len()
                invariant
                    0 <= j <= l@.len(),
                    chunks == l@.map_values(|x: u16| u16_bytes(x, be)),
                    out@ == old(out)@ + concat_bytes(chunks.subrange(0, j as int)),
                decreases l@.len() - j,
            {
                proof {
                    lemma_concat_bytes_prefix(chunks, j as int);
                }
                push_u16_bytes(out, l[j], be);
                j = j + 1;
            }
            proof {
                assert(chunks.subrange(0, chunks.len() as int) =~= chunks);
            }
        },
        Property::ListInt(l) => {
            let ghost chunks = l@.map_values(|x: i32| u32_bytes(x as u32, be));
            let mut j: usize = 0;
            while j < l.len()
                invariant
                    0 <= j <= l@.len(),
                    chunks == l@.map_values(|x: i32| u32_bytes(x as u32, be)),
                    out@ == old(out)@ + concat_bytes(chunks.subrange(0, j as int)),
                decreases l@.len() - j,
            {
                proof {
                    lemma_concat_bytes_prefix(chunks, j as int);
                }
                push_u32_bytes(out, l[j] as u32, be);
                j = j + 1;
            }
            proof {
                assert(chunks.subrange(0, chunks.len() as int) =~= chunks);
            }
        },
        Property::ListUInt(l) => {
            let ghost chunks = l@.map_values(|x: u32| u32_bytes(x, be));
            let mut j: usize = 0;
            while j < l.len()
                invariant
                    0 <= j <= l@.len(),
                    chunks == l@.map_values(|x: u32| u32_bytes(x, be)),
                    out@ == old(out)@ + concat_bytes(chunks.subrange(0, j as int)),
                decreases l@.len() - j,
            {
                proof {
                    lemma_concat_bytes_prefix(chunks, j as int);
                }
                push_u32_bytes(out, l[j], be);
                j = j + 1;
            }
            proof {
                assert(chunks.subrange(0, chunks.len() as int) =~= chunks);
            }
        },
        Property::ListFloat(l) => {
            let ghost chunks = l@.map_values(|x: u32| u32_bytes(x, be));
            let mut j: usize = 0;
            while j < l.len()
                invariant
                    0 <= j <= l@.len(),
                    chunks == l@.map_values(|x: u32| u32_bytes(x, be)),
                    out@ == old(out)@ + concat_bytes(chunks.subrange(0, j as int)),
                decreases l@.len() - j,
            {
                proof {
                    lemma_concat_bytes_prefix(chunks, j as int);
                }
                push_u32_bytes(out, l[j], be);
                j = j + 1;
            }
            proof {
                assert(chunks.subrange(0, chunks.len() as int) =~= chunks);
            }
        },
        Property::ListDouble(l) => {
            let ghost chunks = l@.map_values(|x: u64| u64_bytes(x, be));
            let mut j: usize = 0;
            while j < l.len()
                invariant
                    0 <= j <= l@.len(),
                    chunks == l@.map_values(|x: u64| u64_bytes(x, be)),
                    out@ == old(out)@ + concat_bytes(chunks.subrange(0, j as int)),
                decreases l@.len() - j,
            {
                proof {
                    lemma_concat_bytes_prefix(chunks, j as int);
                }
                push_u64_bytes(out, l[j], be);
                j = j + 1;
            }
            proof {
                assert(chunks.subrange(0, chunks.len() as int) =~= chunks);
            }
        },
        _ => {},
    }
    proof {
        assert(out@ =~= old(out)@ + list_items_bytes(p@, be));
    }
}

/// Write one row in binary form against its element's schema. Nothing is
/// written unless the whole row checks out against the declared properties.
pub fn write_binary_row(
    out: &mut Vec<u8>,
    elem: &DefaultElement,
    def: &ElementDef,
    be: bool,
) -> (r: Result<usize, PlyError>)
    ensures
        match r {
            Ok(n) => row_first_error(elem@, def@.properties) is None && final(out)@ == old(out)@
                + binary_row_bytes(elem@, def@.properties, be) && n == binary_row_bytes(
                elem@,
                def@.properties,
                be,
            ).len(),
            Err(e) => row_first_error(elem@, def@.properties) == Some(e) && final(out)@ == old(
                out,
            )@,
        },
{
    let ghost defs = def@.properties;
    let m = def.properties.len();
    let mut i: usize = 0;
    proof {
        assert(defs.skip(0) =~= defs);
    }
    while i < m
        invariant
            0 <= i <= m,
            m == defs.len(),
            defs == def@.properties,
            row_first_error(elem@, defs) == row_first_error(elem@, defs.skip(i as int)),
            forall|k: int|
                0 <= k < i ==> property_type_valid(#[trigger] defs[k].data_type) && {
                    let f = find_prop(elem@, str_bytes(defs[k].name));
                    f is Some && prop_matches(f->0, defs[k].data_type)
                },
        decreases m - i,
    {
        let d = &def.properties[i];
        proof {
            assert(defs.skip(i as int)[0] == defs[i as int]);
            assert(defs.skip(i as int).skip(1) =~= defs.skip(i + 1));
        }
        match d.data_type {
            PropertyType::List(index, _) => {
                match index {
                    ScalarType::Float | ScalarType::Double => {
                        return Err(PlyError::InvalidListIndexType);
                    },
                    _ => {},
                }
            },
            PropertyType::Scalar(_) => {},
        }
        match elem.get_property(d.name.as_str()) {
            None => {
                return Err(PlyError::MissingProperty);
            },
            Some(p) => {
                if !prop_matches_exec(p, d.data_type) {
                    return Err(PlyError::MissingProperty);
                }
            },
        }
        i = i + 1;
    }
    proof {
        assert(defs.skip(m as int) =~= Seq::<PropertyDefV>::empty());
    }
    let start = out.len();
    let mut i: usize = 0;
    while i < m
        invariant
            0 <= i <= m,
            m == defs.len(),
            defs == def@.properties,
            out@ == old(out)@ + binary_row_bytes(elem@, defs.subrange(0, i as int), be),
            forall|k: int|
                0 <= k < m ==> property_type_valid(#[trigger] defs[k].data_type) && {
                    let f = find_prop(elem@, str_bytes(defs[k].name));
                    f is Some && prop_matches(f->0, defs[k].data_type)
                },
            start == old(out)@.len(),
        decreases m - i,
    {
        let d = &def.properties[i];
        proof {
            let pre = defs.subrange(0, i + 1);
            assert(pre.drop_last() =~= defs.subrange(0, i as int));
            assert(pre.last() == defs[i as int]);
        }
        let p = match elem.get_property(d.name.as_str()) {
            Some(p) => p,
            None => {
                proof {
                    assert(false);
                }
                return Err(PlyError::MissingProperty);
            },
        };
        match d.data_type {
            PropertyType::Scalar(_) => {
                push_binary_scalar(out, p, be);
            },
            PropertyType::List(index, _) => {
                let len = match p {
                    Property::ListChar(l) => l.len(),
                    Property::ListUChar(l) => l.len(),
                    Property::ListShort(l) => l.len(),
                    Property::ListUShort(l) => l.len(),
                    Property::ListInt(l) => l.len(),
                    Property::ListUInt(l) => l.len(),
                    Property::ListFloat(l) => l.len(),
                    Property::ListDouble(l) => l.len(),
                    _ => 0,
                };
                push_list_len(out, index, len, be);
                push_list_items(out, p, be);
                proof {
                    assert(out@ =~= old(out)@ + binary_row_bytes(elem@, defs.subrange(0, i as int), be)
                        + binary_prop_bytes(row_prop(elem@, defs[i as int]), defs[i as int].data_type, be));
                }
            },
        }
        proof {
            assert(out@ =~= old(out)@ + binary_row_bytes(elem@, defs.subrange(0, i + 1), be));
        }
        i = i + 1;
    }
    proof {
        assert(defs.subrange(0, m as int) =~= defs);
    }
    Ok(out.len() - start)
}


/// Append one property's ASCII text: its tokens joined by single spaces.
fn push_ascii_property(out: &mut Vec<u8>, p: &Property)
    ensures
        final(out)@ == old(out)@ + join_space(ascii_tokens(p@)),
        forall|k: int|
            0 <= k < ascii_tokens(p@).len() ==> token_clean(#[trigger] ascii_tokens(p@)[k]),
{
    match p {
        Property::Char(v) => {
            push_dec_i64(out, *v as i64);
            proof {
                lemma_dec_int_no_space(*v as int);
            }
        },
        Property::UChar(v) => {
            push_dec_u64(out, *v as u64);
            proof {
                lemma_dec_int_no_space(*v as int);
            }
        },
        Property::Short(v) => {
            push_dec_i64(out, *v as i64);
            proof {
                lemma_dec_int_no_space(*v as int);
            }
        },
        Property::UShort(v) => {
            push_dec_u64(out, *v as u64);
            proof {
                lemma_dec_int_no_space(*v as int);
            }
        },
        Property::Int(v) => {
            push_dec_i64(out, *v as i64);
            proof {
                lemma_dec_int_no_space(*v as int);
            }
        },
        Property::UInt(v) => {
            push_dec_u64(out, *v as u64);
            proof {
                lemma_dec_int_no_space(*v as int);
            }
        },
        Property::Float(b) => {
            let ghost mid = out@;
            push_f32_text(out, *b);
            proof {
                assert(out@.skip(mid.len() as int) =~= f32_text(*b));
            }
        },
        Property::Double(b) => {
            let ghost mid = out@;
            push_f64_text(out, *b);
            proof {
                assert(out@.skip(mid.len() as int) =~= f64_text(*b));
            }
        },
        Property::ListChar(l) => {
            let ghost toks = seq![dec_nat(l@.len())] + l@.map_values(|x: i8| dec_int(x as int));
            push_dec_usize(out, l.len());
            proof {
                lemma_dec_int_no_space(l@.len() as int);
                assert(join_space(toks.subrange(0, 1)) == toks[0]);
            }
            let mut j: usize = 0;
            while j < l.len()
                invariant
                    0 <= j <= l@.len(),
                    toks == seq![dec_nat(l@.len())] + l@.map_values(|x: i8| dec_int(x as int)),
                    out@ == old(out)@ + join_space(toks.subrange(0, j + 1)),
                    forall|k: int| 0 <= k < j + 1 ==> token_clean(#[trigger] toks[k]),
                decreases l@.len() - j,
            {
                out.push(' ' as u8);
                push_dec_i64(out, l[j] as i64);
                proof {
                    let pre = toks.subrange(0, j + 2);
                    assert(pre.drop_last() =~= toks.subrange(0, j + 1));
                    assert(pre.last() == toks[j + 1]);
                    lemma_dec_int_no_space(l@[j as int] as int);
                    assert(out@ =~= old(out)@ + join_space(toks.subrange(0, j + 2)));
                }
                j = j + 1;
            }
            proof {
                assert(toks.subrange(0, toks.len() as int) =~= toks);
            }
        },
        Property::ListUChar(l) => {
            let ghost toks = seq![dec_nat(l@.len())] + l@.map_values(|x: u8| dec_nat(x as nat));
            push_dec_usize(out, l.len());
            proof {
                lemma_dec_int_no_space(l@.len() as int);
                assert(join_space(toks.subrange(0, 1)) == toks[0]);
            }
            let mut j: usize = 0;
            while j < l.len()
                invariant
                    0 <= j <= l@.len(),
                    toks == seq![dec_nat(l@.len())] + l@.map_values(|x: u8| dec_nat(x as nat)),
                    out@ == old(out)@ + join_space(toks.subrange(0, j + 1)),
                    forall|k: int| 0 <= k < j + 1 ==> token_clean(#[trigger] toks[k]),
                decreases l@.len() - j,
            {
                out.push(' ' as u8);
                push_dec_u64(out, l[j] as u64);
                proof {
                    let pre = toks.subrange(0, j + 2);
                    assert(pre.drop_last() =~= toks.subrange(0, j + 1));
                    assert(pre.last() == toks[j + 1]);
                    lemma_dec_int_no_space(l@[j as int] as int);
                    assert(out@ =~= old(out)@ + join_space(toks.subrange(0, j + 2)));
                }
                j = j + 1;
            }
            proof {
                assert(toks.subrange(0, toks.len() as int) =~= toks);
            }
        },
        Property::ListShort(l) => {
            let ghost toks = seq![dec_nat(l@.len())] + l@.map_values(|x: i16| dec_int(x as int));
            push_dec_usize(out, l.len());
            proof {
                lemma_dec_int_no_space(l@.len() as int);
                assert(join_space(toks.subrange(0, 1)) == toks[0]);
            }
            let mut j: usize = 0;
            while j < l.len()
                invariant
                    0 <= j <= l@.len(),
                    toks == seq![dec_nat(l@.len())] + l@.map_values(|x: i16| dec_int(x as int)),
                    out@ == old(out)@ + join_space(toks.subrange(0, j + 1)),
                    forall|k: int| 0 <= k < j + 1 ==> token_clean(#[trigger] toks[k]),
                decreases l@.len() - j,
            {
                out.push(' ' as u8);
                push_dec_i64(out, l[j] as i64);
                proof {
                    let pre = toks.subrange(0, j + 2);
                    assert(pre.drop_last() =~= toks.subrange(0, j + 1));
                    assert(pre.last() == toks[j + 1]);
                    lemma_dec_int_no_space(l@[j as int] as int);
                    assert(out@ =~= old(out)@ + join_space(toks.subrange(0, j + 2)));
                }
                j = j + 1;
            }
            proof {
                assert(toks.subrange(0, toks.len() as int) =~= toks);
            }
        },
        Property::ListUShort(l) => {
            let ghost toks = seq![dec_nat(l@.len())] + l@.map_values(|x: u16| dec_nat(x as nat));
            push_dec_usize(out, l.len());
            proof {
                lemma_dec_int_no_space(l@.len() as int);
                assert(join_space(toks.subrange(0, 1)) == toks[0]);
            }
            let mut j: usize = 0;
            while j < l.len()
                invariant
                    0 <= j <= l@.len(),
                    toks == seq![dec_nat(l@.len())] + l@.map_values(|x: u16| dec_nat(x as nat)),
                    out@ == old(out)@ + join_space(toks.subrange(0, j + 1)),
                    forall|k: int| 0 <= k < j + 1 ==> token_clean(#[trigger] toks[k]),
                decreases l@.len() - j,
            {
                out.push(' ' as u8);
                push_dec_u64(out, l[j] as u64);
                proof {
                    let pre = toks.subrange(0, j + 2);
                    assert(pre.drop_last() =~= toks.subrange(0, j + 1));
                    assert(pre.last() == toks[j + 1]);
                    lemma_dec_int_no_space(l@[j as int] as int);
                    assert(out@ =~= old(out)@ + join_space(toks.subrange(0, j + 2)));
                }
                j = j + 1;
            }
            proof {
                assert(toks.subrange(0, toks.len() as int) =~= toks);
            }
        },
        Property::ListInt(l) => {
            let ghost toks = seq![dec_nat(l@.len())] + l@.map_values(|x: i32| dec_int(x as int));
            push_dec_usize(out, l.len());
            proof {
                lemma_dec_int_no_space(l@.len() as int);
                assert(join_space(toks.subrange(0, 1)) == toks[0]);
            }
            let mut j: usize = 0;
            while j < l.len()
                invariant
                    0 <= j <= l@.len(),
                    toks == seq![dec_nat(l@.len())] + l@.map_values(|x: i32| dec_int(x as int)),
                    out@ == old(out)@ + join_space(toks.subrange(0, j + 1)),
                    forall|k: int| 0 <= k < j + 1 ==> token_clean(#[trigger] toks[k]),
                decreases l@.len() - j,
            {
                out.push(' ' as u8);
                push_dec_i64(out, l[j] as i64);
                proof {
                    let pre = toks.subrange(0, j + 2);
                    assert(pre.drop_last() =~= toks.subrange(0, j + 1));
                    assert(pre.last() == toks[j + 1]);
                    lemma_dec_int_no_space(l@[j as int] as int);
                    assert(out@ =~= old(out)@ + join_space(toks.subrange(0, j + 2)));
                }
                j = j + 1;
            }
            proof {
                assert(toks.subrange(0, toks.len() as int) =~= toks);
            }
        },
        Property::ListUInt(l) => {
            let ghost toks = seq![dec_nat(l@.len())] + l@.map_values(|x: u32| dec_nat(x as nat));
            push_dec_usize(out, l.len());
            proof {
                lemma_dec_int_no_space(l@.len() as int);
                assert(join_space(toks.subrange(0, 1)) == toks[0]);
            }
            let mut j: usize = 0;
            while j < l.len()
                invariant
                    0 <= j <= l@.len(),
                    toks == seq![dec_nat(l@.len())] + l@.map_values(|x: u32| dec_nat(x as nat)),
                    out@ == old(out)@ + join_space(toks.subrange(0, j + 1)),
                    forall|k: int| 0 <= k < j + 1 ==> token_clean(#[trigger] toks[k]),
                decreases l@.len() - j,
            {
                out.push(' ' as u8);
                push_dec_u64(out, l[j] as u64);
                proof {
                    let pre = toks.subrange(0, j + 2);
                    assert(pre.drop_last() =~= toks.subrange(0, j + 1));
                    assert(pre.last() == toks[j + 1]);
                    lemma_dec_int_no_space(l@[j as int] as int);
                    assert(out@ =~= old(out)@ + join_space(toks.subrange(0, j + 2)));
                }
                j = j + 1;
            }
            proof {
                assert(toks.subrange(0, toks.len() as int) =~= toks);
            }
        },
        Property::ListFloat(l) => {
            let ghost toks = seq![dec_nat(l@.len())] + l@.map_values(|x: u32| f32_text(x));
            push_dec_usize(out, l.len());
            proof {
                lemma_dec_int_no_space(l@.len() as int);
                assert(join_space(toks.subrange(0, 1)) == toks[0]);
            }
            let mut j: usize = 0;
            while j < l.len()
                invariant
                    0 <= j <= l@.len(),
                    toks == seq![dec_nat(l@.len())] + l@.map_values(|x: u32| f32_text(x)),
                    out@ == old(out)@ + join_space(toks.subrange(0, j + 1)),
                    forall|k: int| 0 <= k < j + 1 ==> token_clean(#[trigger] toks[k]),
                decreases l@.len() - j,
            {
                out.push(' ' as u8);
                let ghost mid = out@;
                push_f32_text(out, l[j]);
                proof {
                    assert(out@.skip(mid.len() as int) =~= f32_text(l@[j as int]));
                }
                proof {
                    let pre = toks.subrange(0, j + 2);
                    assert(pre.drop_last() =~= toks.subrange(0, j + 1));
                    assert(pre.last() == toks[j + 1]);

                    assert(out@ =~= old(out)@ + join_space(toks.subrange(0, j + 2)));
                }
                j = j + 1;
            }
            proof {
                assert(toks.subrange(0, toks.len() as int) =~= toks);
            }
        },
        Property::ListDouble(l) => {
            let ghost toks = seq![dec_nat(l@.len())] + l@.map_values(|x: u64| f64_text(x));
            push_dec_usize(out, l.len());
            proof {
                lemma_dec_int_no_space(l@.len() as int);
                assert(join_space(toks.subrange(0, 1)) == toks[0]);
            }
            let mut j: usize = 0;
            while j < l.len()
                invariant
                    0 <= j <= l@.len(),
                    toks == seq![dec_nat(l@.len())] + l@.map_values(|x: u64| f64_text(x)),
                    out@ == old(out)@ + join_space(toks.subrange(0, j + 1)),
                    forall|k: int| 0 <= k < j + 1 ==> token_clean(#[trigger] toks[k]),
                decreases l@.len() - j,
            {
                out.push(' ' as u8);
                let ghost mid = out@;
                push_f64_text(out, l[j]);
                proof {
                    assert(out@.skip(mid.len() as int) =~= f64_text(l@[j as int]));
                }
                proof {
                    let pre = toks.subrange(0, j + 2);
                    assert(pre.drop_last() =~= toks.subrange(0, j + 1));
                    assert(pre.last() == toks[j + 1]);

                    assert(out@ =~= old(out)@ + join_space(toks.subrange(0, j + 2)));
                }
                j = j + 1;
            }
            proof {
                assert(toks.subrange(0, toks.len() as int) =~= toks);
            }
        },
    }
}

/// How many tokens an ASCII row yields: one per scalar property, one plus
/// the list's length per list property.
pub open spec fn row_token_count(props: Seq<(Seq<char>, PropertyV)>) -> nat
    decreases props.len(),
{
    if props.len() == 0 {
        0
    } else {
        row_token_count(props.drop_last()) + (match props.last().1 {
            PropertyV::ListChar(_)
            | PropertyV::ListUChar(_)
            | PropertyV::ListShort(_)
            | PropertyV::ListUShort(_)
            | PropertyV::ListInt(_)
            | PropertyV::ListUInt(_)
            | PropertyV::ListFloat(_)
            | PropertyV::ListDouble(_) => 1 + list_len(props.last().1),
            _ => 1,
        })
    }
}

/// An ASCII row is the space-join of its tokens, one per scalar property and
/// one plus the length per list property, closed by the line terminator.
pub proof fn lemma_ascii_row_token_shape(props: Seq<(Seq<char>, PropertyV)>, nl: Seq<u8>)
    ensures
        ascii_row_bytes(props, nl) == join_space(row_tokens(props)) + nl,
        row_tokens(props).len() == row_token_count(props),
    decreases props.len(),
{
    if props.len() > 0 {
        lemma_ascii_row_token_shape(props.drop_last(), nl);
    }
}

/// Write one row as ASCII text: the properties in the row's own order, which
/// the conversion contract fixes as schema order, joined by single spaces and
/// closed by the line terminator. Every token written is non-empty and free
/// of spaces and line breaks.
pub fn write_ascii_row(out: &mut Vec<u8>, elem: &DefaultElement, nl: &[u8]) -> (n: usize)
    ensures
        final(out)@ == old(out)@ + ascii_row_bytes(elem@, nl@),
        n == ascii_row_bytes(elem@, nl@).len(),
        forall|k: int|
            0 <= k < row_tokens(elem@).len() ==> token_clean(#[trigger] row_tokens(elem@)[k]),
{
    let start = out.len();
    let m = elem.properties.len();
    let mut i: usize = 0;
    proof {
        assert(elem@.subrange(0, 0) =~= Seq::<(Seq<char>, PropertyV)>::empty());
    }
    while i < m
        invariant
            0 <= i <= m,
            m == elem@.len(),
            out@ == old(out)@ + join_space(row_tokens(elem@.subrange(0, i as int))),
            forall|k: int|
                0 <= k < row_tokens(elem@.subrange(0, i as int)).len() ==> token_clean(
                    #[trigger] row_tokens(elem@.subrange(0, i as int))[k],
                ),
            start == old(out)@.len(),
        decreases m - i,
    {
        let ghost pre = row_tokens(elem@.subrange(0, i as int));
        if i > 0 {
            out.push(' ' as u8);
        }
        let entry = &elem.properties[i];
        push_ascii_property(out, &entry.1);
        proof {
            let sub1 = elem@.subrange(0, i + 1);
            assert(sub1.drop_last() =~= elem@.subrange(0, i as int));
            assert(sub1.last() == elem@[i as int]);
            assert(entry.1@ == elem@[i as int].1);
            let toks = ascii_tokens(elem@[i as int].1);
            assert(row_tokens(sub1) == pre + toks);
            if i > 0 {
                lemma_row_tokens_len(elem@.subrange(0, i as int));
                lemma_ascii_tokens_nonempty(elem@[i as int].1);
                lemma_join_space_concat(pre, toks);
                assert(out@ =~= old(out)@ + join_space(row_tokens(sub1)));
            } else {
                assert(pre =~= Seq::<Seq<u8>>::empty());
                assert(pre + toks =~= toks);
                assert(out@ =~= old(out)@ + join_space(row_tokens(sub1)));
            }
            assert forall|k: int| 0 <= k < row_tokens(sub1).len() implies token_clean(
                #[trigger] row_tokens(sub1)[k],
            ) by {
                if k < pre.len() {
                    assert(row_tokens(sub1)[k] == pre[k]);
                } else {
                    assert(row_tokens(sub1)[k] == toks[k - pre.len()]);
                }
            }
        }
        i = i + 1;
    }
    proof {
        assert(elem@.subrange(0, m as int) =~= elem@);
    }
    push_bytes(out, nl);
    out.len() - start
}

} // verus!
