//! The writer facade: header emission line by line, payload emission row by
//! row, and the conversion seam that admits arbitrary row types.
use core::marker::PhantomData;
use vstd::prelude::*;

use crate::codec::concat_bytes;
use crate::codec::dec_nat;
use crate::codec::lemma_concat_bytes_prefix;
use crate::codec::push_dec_u64;
use crate::codec::push_dec_usize;
use crate::codec::push_str;
use crate::codec::str_bytes;
use crate::encode::ascii_row_bytes;
use crate::encode::binary_row_bytes;
use crate::encode::lemma_row_first_error_kinds;
use crate::encode::row_first_error;
use crate::encode::write_ascii_row;
use crate::encode::write_binary_row;
use crate::model::find_element;
use crate::model::find_prop;
use crate::model::clone_string;
use crate::model::header_valid;
use crate::model::property_type_valid;
use crate::model::scalar_token;
use crate::model::push_scalar_token;
use crate::model::DefaultElement;
use crate::model::ElementDef;
use crate::model::ElementDefV;
use crate::model::Encoding;
use crate::model::Header;
use crate::model::HeaderV;
use crate::model::Ply;
use crate::model::PlyError;
use crate::model::Property;
use crate::model::PropertyV;
use crate::model::PropertyDef;
use crate::model::PropertyDefV;
use crate::model::PropertyType;
use crate::model::ScalarType;
use crate::model::Version;
use crate::model::clone_property;

verus! {

/// The line terminator a writer is configured with.
#[derive(Clone, Copy, Debug, PartialEq, Eq, Structural)]
pub enum NewLine {
    N,
    R,
    RN,
}

/// The bytes of a line terminator.
pub open spec fn newline_bytes(nl: NewLine) -> Seq<u8> {
    match nl {
        NewLine::N => seq![10u8],
        NewLine::R => seq![13u8],
        NewLine::RN => seq![13u8, 10u8],
    }
}

/// The text token of an encoding in the format line.
pub open spec fn encoding_token(e: Encoding) -> Seq<u8> {
    match e {
        Encoding::Ascii => str_bytes("ascii"@),
        Encoding::BinaryBigEndian => str_bytes("binary_big_endian"@),
        Encoding::BinaryLittleEndian => str_bytes("binary_little_endian"@),
    }
}

/// The magic first line.
pub open spec fn magic_line(nl: Seq<u8>) -> Seq<u8> {
    str_bytes("ply"@) + nl
}

/// The format line: encoding token, then major dot minor.
pub open spec fn format_line(e: Encoding, v: Version, nl: Seq<u8>) -> Seq<u8> {
    str_bytes("format "@) + encoding_token(e) + seq![' ' as u8] + dec_nat(v.major as nat) + seq![
        '.' as u8,
    ] + dec_nat(v.minor as nat) + nl
}

/// One comment line.
pub open spec fn comment_line(c: Seq<char>, nl: Seq<u8>) -> Seq<u8> {
    str_bytes("comment "@) + str_bytes(c) + nl
}

/// One obj_info line.
pub open spec fn obj_info_line(c: Seq<char>, nl: Seq<u8>) -> Seq<u8> {
    str_bytes("obj_info "@) + str_bytes(c) + nl
}

/// One element line: name, then the declared row count.
pub open spec fn element_line(e: ElementDefV, nl: Seq<u8>) -> Seq<u8> {
    str_bytes("element "@) + str_bytes(e.name) + seq![' ' as u8] + dec_nat(e.count) + nl
}

/// The type tokens of a property line: one scalar token, or `list` with the
/// index type's and the content type's tokens.
pub open spec fn property_type_bytes(t: PropertyType) -> Seq<u8> {
    match t {
        PropertyType::Scalar(st) => scalar_token(st),
        PropertyType::List(index, content) => str_bytes("list "@) + scalar_token(index) + seq![
            ' ' as u8,
        ] + scalar_token(content),
    }
}

/// One property line.
pub open spec fn property_line(d: PropertyDefV, nl: Seq<u8>) -> Seq<u8> {
    str_bytes("property "@) + property_type_bytes(d.data_type) + seq![' ' as u8] + str_bytes(
        d.name,
    ) + nl
}

/// One element's block: its element line, then its property lines in
/// declared order.
pub open spec fn element_block(e: ElementDefV, nl: Seq<u8>) -> Seq<u8> {
    element_line(e, nl) + concat_bytes(e.properties.map_values(|d: PropertyDefV| property_line(d, nl)))
}

/// The closing line.
pub open spec fn end_header_line(nl: Seq<u8>) -> Seq<u8> {
    str_bytes("end_header"@) + nl
}

/// The whole header, in exactly this order: magic, format, the comments in
/// input order, the obj_info lines in input order, each element's block in
/// declared order, end_header.
pub open spec fn header_bytes(h: HeaderV, nl: Seq<u8>) -> Seq<u8> {
    magic_line(nl) + format_line(h.encoding, h.version, nl) + concat_bytes(
        h.comments.map_values(|c: Seq<char>| comment_line(c, nl)),
    ) + concat_bytes(h.obj_infos.map_values(|c: Seq<char>| obj_info_line(c, nl)))
        + concat_bytes(h.elements.map_values(|e: ElementDefV| element_block(e, nl)))
        + end_header_line(nl)
}

/// The header's lines stand in exactly the order the spec of `header_bytes`
/// lists; this restates that order as one fact per joint.
pub proof fn lemma_header_line_order(h: HeaderV, nl: Seq<u8>)
    ensures
        header_bytes(h, nl) == magic_line(nl) + (format_line(h.encoding, h.version, nl)
            + (concat_bytes(h.comments.map_values(|c: Seq<char>| comment_line(c, nl)))
            + (concat_bytes(h.obj_infos.map_values(|c: Seq<char>| obj_info_line(c, nl)))
            + (concat_bytes(h.elements.map_values(|e: ElementDefV| element_block(e, nl)))
            + end_header_line(nl))))),
{
    assert(header_bytes(h, nl) =~= magic_line(nl) + (format_line(h.encoding, h.version, nl)
        + (concat_bytes(h.comments.map_values(|c: Seq<char>| comment_line(c, nl)))
        + (concat_bytes(h.obj_infos.map_values(|c: Seq<char>| obj_info_line(c, nl)))
        + (concat_bytes(h.elements.map_values(|e: ElementDefV| element_block(e, nl)))
        + end_header_line(nl))))));
}

/// The mathematical value of one canonical row: its named property values
/// in order.
pub type RowV = Seq<(Seq<char>, PropertyV)>;

/// The wire form of one canonical row in the given encoding: one ASCII line,
/// or one binary row in the encoding's byte order.
pub open spec fn row_wire_bytes(rv: RowV, defs: Seq<PropertyDefV>, enc: Encoding, nl: Seq<u8>) -> Seq<u8> {
    match enc {
        Encoding::Ascii => ascii_row_bytes(rv, nl),
        Encoding::BinaryBigEndian => binary_row_bytes(rv, defs, true),
        Encoding::BinaryLittleEndian => binary_row_bytes(rv, defs, false),
    }
}

/// The wire form of a sequence of canonical rows: one after the other, in
/// order, never reordered or deduplicated.
pub open spec fn rows_wire_bytes(
    rvs: Seq<RowV>,
    defs: Seq<PropertyDefV>,
    enc: Encoding,
    nl: Seq<u8>,
) -> Seq<u8>
    decreases rvs.len(),
{
    if rvs.len() == 0 {
        Seq::empty()
    } else {
        rows_wire_bytes(rvs.drop_last(), defs, enc, nl) + row_wire_bytes(rvs.last(), defs, enc, nl)
    }
}

/// Whether every row checks out where the encoding demands it: a binary row
/// must pass the schema walk; an ASCII row always encodes.
pub open spec fn rows_admissible(rvs: Seq<RowV>, defs: Seq<PropertyDefV>, enc: Encoding) -> bool {
    match enc {
        Encoding::Ascii => true,
        _ => forall|k: int|
            0 <= k < rvs.len() ==> row_first_error(#[trigger] rvs[k], defs) is None,
    }
}

/// The element definition the header holds under a name.
pub open spec fn named_element(h: HeaderV, name: Seq<char>) -> ElementDefV {
    match find_element(h.elements, str_bytes(name)) {
        Some(d) => d,
        None => vstd::pervasive::arbitrary(),
    }
}

/// The wire form of a whole payload: entry by entry in payload order, each
/// entry's rows under the definition the header holds for its name.
pub open spec fn payload_wire_bytes(
    rvss: Seq<Seq<RowV>>,
    names: Seq<Seq<char>>,
    h: HeaderV,
    nl: Seq<u8>,
) -> Seq<u8>
    decreases rvss.len(),
{
    if rvss.len() == 0 {
        Seq::empty()
    } else {
        payload_wire_bytes(rvss.drop_last(), names.drop_last(), h, nl) + rows_wire_bytes(
            rvss.last(),
            named_element(h, names.last()).properties,
            h.encoding,
            nl,
        )
    }
}

/// The conversion contract: any payload row type can render itself as a
/// canonical row, given its element's schema.
pub trait ToElement {
    /// The canonical form of this row under the given element definition, or
    /// an error naming why the row cannot supply it.
    fn to_element(&self, element_def: &ElementDef) -> Result<DefaultElement, PlyError>;
}

impl ToElement for DefaultElement {
    /// The identity conversion: a canonical row is its own canonical form.
    fn to_element(&self, element_def: &ElementDef) -> (r: Result<DefaultElement, PlyError>)
        ensures
            r matches Ok(e) && e@ == self@,
    {
        let mut e = DefaultElement::new();
        let n = self.properties.len();
        let mut i: usize = 0;
        while i < n
            invariant
                0 <= i <= n,
                n == self@.len(),
                e@ == self@.subrange(0, i as int),
            decreases n - i,
        {
            let entry = &self.properties[i];
            e.push_property(clone_string(&entry.0), clone_property(&entry.1));
            proof {
                assert(self@.subrange(0, i + 1 as int) =~= self@.subrange(0, i as int) + seq![
                    self@[i as int],
                ]);
            }
            i = i + 1;
        }
        proof {
            assert(self@.subrange(0, n as int) =~= self@);
        }
        Ok(e)
    }
}

/// Typed access to a row's values by property name, for binary emission
/// without a full conversion.
pub trait PropertyAccess {
    /// The value stored under `name` in canonical form, if the row holds one.
    fn get_property_value(&self, name: &str) -> Option<Property>;
}

impl PropertyAccess for DefaultElement {
    fn get_property_value(&self, name: &str) -> (r: Option<Property>)
        ensures
            match r {
                Some(p) => find_prop(self@, str_bytes(name@)) == Some(p@),
                None => find_prop(self@, str_bytes(name@)) is None,
            },
    {
        match self.get_property(name) {
            Some(p) => Some(clone_property(p)),
            None => None,
        }
    }
}

/// Whether a property type may stand in a header: lists must be indexed by
/// an integer type.
fn property_type_valid_exec(t: PropertyType) -> (r: bool)
    ensures
        r == property_type_valid(t),
{
    match t {
        PropertyType::Scalar(_) => true,
        PropertyType::List(index, _) => match index {
            ScalarType::Float | ScalarType::Double => false,
            _ => true,
        },
    }
}

/// The writer: it holds nothing but its configured line terminator.
pub struct Writer<P: ToElement + PropertyAccess> {
    new_line: NewLine,
    phantom: PhantomData<P>,
}

impl<P: ToElement + PropertyAccess> Writer<P> {
    /// The bytes this writer ends each header line and ASCII row with.
    pub closed spec fn nl(&self) -> Seq<u8> {
        newline_bytes(self.new_line)
    }

    /// A writer with the conventional CR-LF line terminator.
    pub fn new() -> (r: Writer<P>)
        ensures
            r.nl() == seq![13u8, 10u8],
    {
        Writer { new_line: NewLine::RN, phantom: PhantomData }
    }

    /// Choose the line terminator for everything written from here on.
    pub fn set_newline(&mut self, new_line: NewLine)
        ensures
            final(self).nl() == newline_bytes(new_line),
    {
        self.new_line = new_line;
    }

    fn push_newline(&self, out: &mut Vec<u8>)
        ensures
            final(out)@ == old(out)@ + self.nl(),
    {
        match self.new_line {
            NewLine::N => {
                out.push(10);
            },
            NewLine::R => {
                out.push(13);
            },
            NewLine::RN => {
                out.push(13);
                out.push(10);
            },
        }
        proof {
            assert(out@ =~= old(out)@ + self.nl());
        }
    }

    /// Write the magic line `ply`.
    pub fn write_line_magic_number(&self, out: &mut Vec<u8>) -> (r: Result<usize, PlyError>)
        ensures
            final(out)@ == old(out)@ + magic_line(self.nl()),
            r matches Ok(n) && n == magic_line(self.nl()).len(),
    {
        let start = out.len();
        push_str(out, "ply");
        self.push_newline(out);
        proof {
            assert(out@ =~= old(out)@ + magic_line(self.nl()));
        }
        Ok(out.len() - start)
    }

    /// Write the format line for the given encoding and version.
    pub fn write_line_format(
        &self,
        out: &mut Vec<u8>,
        encoding: &Encoding,
        version: &Version,
    ) -> (r: Result<usize, PlyError>)
        ensures
            final(out)@ == old(out)@ + format_line(*encoding, *version, self.nl()),
            r matches Ok(n) && n == format_line(*encoding, *version, self.nl()).len(),
    {
        let start = out.len();
        push_str(out, "format ");
        match encoding {
            Encoding::Ascii => push_str(out, "ascii"),
            Encoding::BinaryBigEndian => push_str(out, "binary_big_endian"),
            Encoding::BinaryLittleEndian => push_str(out, "binary_little_endian"),
        }
        out.push(' ' as u8);
        push_dec_u64(out, version.major as u64);
        out.push('.' as u8);
        push_dec_u64(out, version.minor as u64);
        self.push_newline(out);
        proof {
            assert(out@ =~= old(out)@ + format_line(*encoding, *version, self.nl()));
        }
        Ok(out.len() - start)
    }

    /// Write one comment line.
    pub fn write_line_comment(&self, out: &mut Vec<u8>, comment: &str) -> (r: Result<
        usize,
        PlyError,
    >)
        ensures
            final(out)@ == old(out)@ + comment_line(comment@, self.nl()),
            r matches Ok(n) && n == comment_line(comment@, self.nl()).len(),
    {
        let start = out.len();
        push_str(out, "comment ");
        push_str(out, comment);
        self.push_newline(out);
        proof {
            assert(out@ =~= old(out)@ + comment_line(comment@, self.nl()));
        }
        Ok(out.len() - start)
    }

    /// Write one obj_info line.
    pub fn write_line_obj_info(&self, out: &mut Vec<u8>, obj_info: &str) -> (r: Result<
        usize,
        PlyError,
    >)
        ensures
            final(out)@ == old(out)@ + obj_info_line(obj_info@, self.nl()),
            r matches Ok(n) && n == obj_info_line(obj_info@, self.nl()).len(),
    {
        let start = out.len();
        push_str(out, "obj_info ");
        push_str(out, obj_info);
        self.push_newline(out);
        proof {
            assert(out@ =~= old(out)@ + obj_info_line(obj_info@, self.nl()));
        }
        Ok(out.len() - start)
    }

    /// Write one element's `element` line alone.
    pub fn write_line_element_definition(&self, out: &mut Vec<u8>, element: &ElementDef) -> (r:
        Result<usize, PlyError>)
        ensures
            final(out)@ == old(out)@ + element_line(element@, self.nl()),
            r matches Ok(n) && n == element_line(element@, self.nl()).len(),
    {
        let start = out.len();
        push_str(out, "element ");
        push_str(out, element.name.as_str());
        out.push(' ' as u8);
        push_dec_usize(out, element.count);
        self.push_newline(out);
        proof {
            assert(out@ =~= old(out)@ + element_line(element@, self.nl()));
        }
        Ok(out.len() - start)
    }

    /// Write one property line. A list property whose index type is Float or
    /// Double is refused before any byte of its type token is written.
    #[verifier::rlimit(50)]
    pub fn write_line_property_definition(&self, out: &mut Vec<u8>, property: &PropertyDef) -> (r:
        Result<usize, PlyError>)
        ensures
            property_type_valid(property@.data_type) ==> final(out)@ == old(out)@ + property_line(
                property@,
                self.nl(),
            ) && (r matches Ok(n) && n == property_line(property@, self.nl()).len()),
            !property_type_valid(property@.data_type) ==> final(out)@ == old(out)@ && r == Err::<
                usize,
                PlyError,
            >(PlyError::InvalidListIndexType),
    {
        if !property_type_valid_exec(property.data_type) {
            return Err(PlyError::InvalidListIndexType);
        }
        let start = out.len();
        push_str(out, "property ");
        match property.data_type {
            PropertyType::Scalar(st) => {
                push_scalar_token(out, st);
            },
            PropertyType::List(index, content) => {
                push_str(out, "list ");
                push_scalar_token(out, index);
                out.push(' ' as u8);
                push_scalar_token(out, content);
            },
        }
        out.push(' ' as u8);
        push_str(out, property.name.as_str());
        self.push_newline(out);
        proof {
            assert(out@ =~= old(out)@ + property_line(property@, self.nl()));
        }
        Ok(out.len() - start)
    }

    /// Write one element's block: its element line and all its property
    /// lines, in declared order. Nothing is written if any property declares
    /// a floating list index.
    pub fn write_element_definition(&self, out: &mut Vec<u8>, element: &ElementDef) -> (r: Result<
        usize,
        PlyError,
    >)
        ensures
            (forall|j: int|
                0 <= j < element@.properties.len() ==> property_type_valid(
                    #[trigger] element@.properties[j].data_type,
                )) ==> final(out)@ == old(out)@ + element_block(element@, self.nl()) && (
            r matches Ok(n) && n == element_block(element@, self.nl()).len()),
            !(forall|j: int|
                0 <= j < element@.properties.len() ==> property_type_valid(
                    #[trigger] element@.properties[j].data_type,
                )) ==> final(out)@ == old(out)@ && r == Err::<usize, PlyError>(
                PlyError::InvalidListIndexType,
            ),
    {
        let m = element.properties.len();
        let mut i: usize = 0;
        while i < m
            invariant
                0 <= i <= m,
                m == element@.properties.len(),
                forall|j: int|
                    0 <= j < i ==> property_type_valid(
                        #[trigger] element@.properties[j].data_type,
                    ),
            decreases m - i,
        {
            if !property_type_valid_exec(element.properties[i].data_type) {
                proof {
                    assert(element@.properties[i as int] == element.properties@[
                        i as int
                    ].deep_view());
                    assert(!property_type_valid(element@.properties[i as int].data_type));
                }
                return Err(PlyError::InvalidListIndexType);
            }
            i = i + 1;
        }
        let start = out.len();
        let ghost lines = element@.properties.map_values(
            |d: PropertyDefV| property_line(d, self.nl()),
        );
        match self.write_line_element_definition(out, element) {
            Ok(_) => (),
            Err(e) => {
                return Err(e);
            },
        }
        let mut i: usize = 0;
        proof {
            assert(lines.subrange(0, 0) =~= Seq::<Seq<u8>>::empty());
        }
        while i < m
            invariant
                0 <= i <= m,
                m == element@.properties.len(),
                lines == element@.properties.map_values(
                    |d: PropertyDefV| property_line(d, self.nl()),
                ),
                forall|j: int|
                    0 <= j < m ==> property_type_valid(
                        #[trigger] element@.properties[j].data_type,
                    ),
                out@ == old(out)@ + element_line(element@, self.nl()) + concat_bytes(
                    lines.subrange(0, i as int),
                ),
                start == old(out)@.len(),
            decreases m - i,
        {
            proof {
                lemma_concat_bytes_prefix(lines, i as int);
            }
            match self.write_line_property_definition(out, &element.properties[i]) {
                Ok(_) => (),
                Err(e) => {
                    proof {
                        assert(false);
                    }
                    return Err(e);
                },
            }
            i = i + 1;
        }
        proof {
            assert(lines.subrange(0, m as int) =~= lines);
            assert(out@ =~= old(out)@ + element_block(element@, self.nl()));
        }
        Ok(out.len() - start)
    }

    /// Write the closing `end_header` line.
    pub fn write_line_end_header(&self, out: &mut Vec<u8>) -> (r: Result<usize, PlyError>)
        ensures
            final(out)@ == old(out)@ + end_header_line(self.nl()),
            r matches Ok(n) && n == end_header_line(self.nl()).len(),
    {
        let start = out.len();
        push_str(out, "end_header");
        self.push_newline(out);
        proof {
            assert(out@ =~= old(out)@ + end_header_line(self.nl()));
        }
        Ok(out.len() - start)
    }

    /// Write the whole header. It succeeds exactly when no list property
    /// declares a floating index type; then the lines stand in the order
    /// `header_bytes` fixes. Nothing is written on failure.
    pub fn write_header(&self, out: &mut Vec<u8>, header: &Header) -> (r: Result<usize, PlyError>)
        ensures
            header_valid(header@) ==> final(out)@ == old(out)@ + header_bytes(header@, self.nl())
                && (r matches Ok(n) && n == header_bytes(header@, self.nl()).len()),
            !header_valid(header@) ==> final(out)@ == old(out)@ && r == Err::<usize, PlyError>(
                PlyError::InvalidListIndexType,
            ),
    {
        let ne = header.elements.len();
        let mut i: usize = 0;
        while i < ne
            invariant
                0 <= i <= ne,
                ne == header@.elements.len(),
                forall|a: int, j: int|
                    0 <= a < i && 0 <= j < header@.elements[a].properties.len()
                        ==> property_type_valid(
                        #[trigger] header@.elements[a].properties[j].data_type,
                    ),
            decreases ne - i,
        {
            let e = &header.elements[i];
            let m = e.properties.len();
            let mut j: usize = 0;
            while j < m
                invariant
                    0 <= j <= m,
                    0 <= i < ne,
                    ne == header@.elements.len(),
                    m == e@.properties.len(),
                    e@ == header@.elements[i as int],
                    forall|k: int|
                        0 <= k < j ==> property_type_valid(
                            #[trigger] e@.properties[k].data_type,
                        ),
                decreases m - j,
            {
                if !property_type_valid_exec(e.properties[j].data_type) {
                    proof {
                        assert(e@.properties[j as int] == e.properties@[j as int].deep_view());
                        assert(!property_type_valid(
                            header@.elements[i as int].properties[j as int].data_type,
                        ));
                        assert(!header_valid(header@)) by {
                            if header_valid(header@) {
                                assert(property_type_valid(
                                    header@.elements[i as int].properties[j as int].data_type,
                                ));
                            }
                        }
                    }
                    return Err(PlyError::InvalidListIndexType);
                }
                j = j + 1;
            }
            i = i + 1;
        }
        let start = out.len();
        match self.write_line_magic_number(out) {
            Ok(_) => (),
            Err(e) => {
                proof {
                    assert(false);
                }
                return Err(e);
            },
        }
        match self.write_line_format(out, &header.encoding, &header.version) {
            Ok(_) => (),
            Err(e) => {
                proof {
                    assert(false);
                }
                return Err(e);
            },
        }
        let ghost head2 = old(out)@ + magic_line(self.nl()) + format_line(
            header@.encoding,
            header@.version,
            self.nl(),
        );
        let ghost clines = header@.comments.map_values(
            |c: Seq<char>| comment_line(c, self.nl()),
        );
        let nc = header.comments.len();
        let mut i: usize = 0;
        proof {
            assert(clines.subrange(0, 0) =~= Seq::<Seq<u8>>::empty());
            assert(out@ =~= head2 + concat_bytes(clines.subrange(0, 0)));
        }
        while i < nc
            invariant
                0 <= i <= nc,
                nc == header@.comments.len(),
                clines == header@.comments.map_values(|c: Seq<char>| comment_line(c, self.nl())),
                out@ == head2 + concat_bytes(clines.subrange(0, i as int)),
            decreases nc - i,
        {
            proof {
                lemma_concat_bytes_prefix(clines, i as int);
            }
            match self.write_line_comment(out, header.comments[i].as_str()) {
                Ok(_) => (),
                Err(e) => {
                    proof {
                        assert(false);
                    }
                    return Err(e);
                },
            }
            proof {
                assert(out@ =~= head2 + concat_bytes(clines.subrange(0, i + 1)));
            }
            i = i + 1;
        }
        let ghost head3 = head2 + concat_bytes(clines);
        proof {
            assert(clines.subrange(0, nc as int) =~= clines);
        }
        let ghost olines = header@.obj_infos.map_values(
            |c: Seq<char>| obj_info_line(c, self.nl()),
        );
        let no = header.obj_infos.len();
        let mut i: usize = 0;
        proof {
            assert(olines.subrange(0, 0) =~= Seq::<Seq<u8>>::empty());
            assert(out@ =~= head3 + concat_bytes(olines.subrange(0, 0)));
        }
        while i < no
            invariant
                0 <= i <= no,
                no == header@.obj_infos.len(),
                olines == header@.obj_infos.map_values(|c: Seq<char>| obj_info_line(c, self.nl())),
                out@ == head3 + concat_bytes(olines.subrange(0, i as int)),
            decreases no - i,
        {
            proof {
                lemma_concat_bytes_prefix(olines, i as int);
            }
            match self.write_line_obj_info(out, header.obj_infos[i].as_str()) {
                Ok(_) => (),
                Err(e) => {
                    proof {
                        assert(false);
                    }
                    return Err(e);
                },
            }
            proof {
                assert(out@ =~= head3 + concat_bytes(olines.subrange(0, i + 1)));
            }
            i = i + 1;
        }
        let ghost head4 = head3 + concat_bytes(olines);
        proof {
            assert(olines.subrange(0, no as int) =~= olines);
        }
        let ghost blocks = header@.elements.map_values(
            |e: ElementDefV| element_block(e, self.nl()),
        );
        let mut i: usize = 0;
        proof {
            assert(blocks.subrange(0, 0) =~= Seq::<Seq<u8>>::empty());
            assert(out@ =~= head4 + concat_bytes(blocks.subrange(0, 0)));
        }
        while i < ne
            invariant
                0 <= i <= ne,
                ne == header@.elements.len(),
                blocks == header@.elements.map_values(|e: ElementDefV| element_block(e, self.nl())),
                forall|a: int, j: int|
                    0 <= a < ne && 0 <= j < header@.elements[a].properties.len()
                        ==> property_type_valid(
                        #[trigger] header@.elements[a].properties[j].data_type,
                    ),
                out@ == head4 + concat_bytes(blocks.subrange(0, i as int)),
            decreases ne - i,
        {
            proof {
                lemma_concat_bytes_prefix(blocks, i as int);
            }
            match self.write_element_definition(out, &header.elements[i]) {
                Ok(_) => (),
                Err(e) => {
                    proof {
                        assert(false);
                    }
                    return Err(e);
                },
            }
            proof {
                assert(out@ =~= head4 + concat_bytes(blocks.subrange(0, i + 1)));
            }
            i = i + 1;
        }
        proof {
            assert(blocks.subrange(0, ne as int) =~= blocks);
        }
        match self.write_line_end_header(out) {
            Ok(_) => (),
            Err(e) => {
                proof {
                    assert(false);
                }
                return Err(e);
            },
        }
        proof {
            assert(out@ =~= old(out)@ + header_bytes(header@, self.nl()));
        }
        Ok(out.len() - start)
    }

    /// Gather each declared property of a row through its typed accessor, in
    /// schema order. On success the gathered row carries exactly the declared
    /// names in declared order and every declared type is valid. A floating
    /// list index is the library's own refusal, raised before that property's
    /// accessor is consulted; an accessor that yields nothing is a missing
    /// property.
    fn gather_row(element: &P, element_def: &ElementDef) -> (r: Result<DefaultElement, PlyError>)
        ensures
            match r {
                Ok(g) => g@.len() == element_def@.properties.len() && forall|k: int|
                    0 <= k < g@.len() ==> (#[trigger] g@[k]).0 == element_def@.properties[k].name
                        && property_type_valid(element_def@.properties[k].data_type),
                Err(e) => (e == PlyError::InvalidListIndexType || e == PlyError::MissingProperty)
                    && (e == PlyError::InvalidListIndexType ==> exists|j: int|
                    0 <= j < element_def@.properties.len() && !property_type_valid(
                        #[trigger] element_def@.properties[j].data_type,
                    )),
            },
            element_def@.properties.len() == 0 ==> (r matches Ok(g) && g@.len() == 0),
    {
        let mut g = DefaultElement::new();
        let m = element_def.properties.len();
        let mut i: usize = 0;
        while i < m
            invariant
                0 <= i <= m,
                m == element_def@.properties.len(),
                g@.len() == i,
                forall|k: int|
                    0 <= k < i ==> (#[trigger] g@[k]).0 == element_def@.properties[k].name,
                forall|k: int|
                    0 <= k < i ==> property_type_valid(
                        #[trigger] element_def@.properties[k].data_type,
                    ),
            decreases m - i,
        {
            let d = &element_def.properties[i];
            proof {
                assert(element_def@.properties[i as int] == element_def.properties@[
                    i as int
                ].deep_view());
            }
            if !property_type_valid_exec(d.data_type) {
                proof {
                    assert(!property_type_valid(element_def@.properties[i as int].data_type));
                }
                return Err(PlyError::InvalidListIndexType);
            }
            let ghost gpre = g@;
            match element.get_property_value(d.name.as_str()) {
                None => {
                    return Err(PlyError::MissingProperty);
                },
                Some(p) => {
                    g.push_property(clone_string(&d.name), p);
                },
            }
            proof {
                assert forall|k: int| 0 <= k < i + 1 implies (#[trigger] g@[k]).0
                    == element_def@.properties[k].name && property_type_valid(
                    element_def@.properties[k].data_type,
                ) by {
                    if k < i {
                        assert(g@[k] == gpre[k]);
                    } else {
                        assert(g@[k].0 == element_def@.properties[i as int].name);
                        assert(property_type_valid(element_def@.properties[i as int].data_type));
                    }
                }
            }
            i = i + 1;
        }
        Ok(g)
    }

    /// Write one row in binary form, gathering each declared property through
    /// the row's typed accessor. On success the appended bytes are the binary
    /// form of some canonical row that checks out against the schema; on
    /// failure nothing is written, and a schema-violation error comes back
    /// only for a schema that declares a floating list index. An element with
    /// no properties always succeeds, with nothing to write.
    fn write_binary_element_generic(
        &self,
        out: &mut Vec<u8>,
        element: &P,
        element_def: &ElementDef,
        be: bool,
    ) -> (r: Result<usize, PlyError>)
        ensures
            match r {
                Ok(n) => (exists|rv: RowV|
                    (row_first_error(rv, element_def@.properties) is None && final(out)@
                        == old(out)@ + binary_row_bytes(rv, element_def@.properties, be)))
                    && n == final(out)@.len() - old(out)@.len(),
                Err(e) => final(out)@ == old(out)@ && (e == PlyError::InvalidListIndexType
                    ==> exists|j: int|
                    0 <= j < element_def@.properties.len() && !property_type_valid(
                        #[trigger] element_def@.properties[j].data_type,
                    )),
            },
            old(out)@.is_prefix_of(final(out)@),
            element_def@.properties.len() == 0 ==> (r matches Ok(n) && n == 0),
    {
        let g = match Self::gather_row(element, element_def) {
            Ok(g) => g,
            Err(e) => {
                proof {
                    assert(old(out)@.is_prefix_of(out@));
                }
                return Err(e);
            },
        };
        match write_binary_row(out, &g, element_def, be) {
            Ok(n) => {
                proof {
                    let rv = g@;
                    assert(row_first_error(rv, element_def@.properties) is None && out@ == old(out)@ + binary_row_bytes(rv, element_def@.properties, be));
                    assert(old(out)@ =~= out@.subrange(0, old(out)@.len() as int));
                }
                Ok(n)
            },
            Err(e) => {
                proof {
                    lemma_row_first_error_kinds(g@, element_def@.properties);
                }
                Err(e)
            },
        }
    }

    /// Convert one row to canonical form and write it as one ASCII line. On
    /// success the appended bytes are the ASCII row of the canonical form the
    /// conversion yielded; a conversion failure is passed on with nothing
    /// written.
    pub fn write_ascii_element(&self, out: &mut Vec<u8>, element: &P, element_def: &ElementDef) -> (r:
        Result<usize, PlyError>)
        ensures
            match r {
                Ok(n) => (exists|rv: RowV|
                    (final(out)@ == old(out)@ + ascii_row_bytes(rv, self.nl()))) && n == final(out)@.len() - old(out)@.len(),
                Err(_) => final(out)@ == old(out)@,
            },
            old(out)@.is_prefix_of(final(out)@),
    {
        let raw = match element.to_element(element_def) {
            Ok(r) => r,
            Err(e) => {
                proof {
                    assert(old(out)@.is_prefix_of(out@));
                }
                return Err(e);
            },
        };
        let mut nlv: Vec<u8> = Vec::new();
        self.push_newline(&mut nlv);
        proof {
            assert(nlv@ =~= self.nl());
        }
        let n = write_ascii_row(out, &raw, nlv.as_slice());
        proof {
            let rv = raw@;
            assert(out@ == old(out)@ + ascii_row_bytes(rv, self.nl()));
            assert(old(out)@ =~= out@.subrange(0, old(out)@.len() as int));
        }
        Ok(n)
    }

    /// Write one row in big-endian binary form through its typed accessor.
    pub fn write_big_endian_element(&self, out: &mut Vec<u8>, element: &P, element_def: &ElementDef) -> (r:
        Result<usize, PlyError>)
        ensures
            match r {
                Ok(n) => (exists|rv: RowV|
                    (row_first_error(rv, element_def@.properties) is None && final(out)@
                        == old(out)@ + binary_row_bytes(rv, element_def@.properties, true)))
                    && n == final(out)@.len() - old(out)@.len(),
                Err(e) => final(out)@ == old(out)@ && (e == PlyError::InvalidListIndexType
                    ==> exists|j: int|
                    0 <= j < element_def@.properties.len() && !property_type_valid(
                        #[trigger] element_def@.properties[j].data_type,
                    )),
            },
            old(out)@.is_prefix_of(final(out)@),
            element_def@.properties.len() == 0 ==> (r matches Ok(n) && n == 0),
    {
        self.write_binary_element_generic(out, element, element_def, true)
    }

    /// Write one row in little-endian binary form through its typed accessor.
    pub fn write_little_endian_element(
        &self,
        out: &mut Vec<u8>,
        element: &P,
        element_def: &ElementDef,
    ) -> (r: Result<usize, PlyError>)
        ensures
            match r {
                Ok(n) => (exists|rv: RowV|
                    (row_first_error(rv, element_def@.properties) is None && final(out)@
                        == old(out)@ + binary_row_bytes(rv, element_def@.properties, false)))
                    && n == final(out)@.len() - old(out)@.len(),
                Err(e) => final(out)@ == old(out)@ && (e == PlyError::InvalidListIndexType
                    ==> exists|j: int|
                    0 <= j < element_def@.properties.len() && !property_type_valid(
                        #[trigger] element_def@.properties[j].data_type,
                    )),
            },
            old(out)@.is_prefix_of(final(out)@),
            element_def@.properties.len() == 0 ==> (r matches Ok(n) && n == 0),
    {
        self.write_binary_element_generic(out, element, element_def, false)
    }

    /// Write every row of one element in sequence order, in the document's
    /// encoding: converted and written as ASCII lines when the header says
    /// ASCII, else through the typed accessor in the header's byte order. On
    /// success the appended bytes are the wire form, in order, of one
    /// canonical row per input row; a failing row aborts at once with its
    /// error, keeping exactly the rows already written. An empty row list
    /// succeeds with nothing appended.
    pub fn write_payload_of_element(
        &self,
        out: &mut Vec<u8>,
        element_list: &Vec<P>,
        element_def: &ElementDef,
        header: &Header,
    ) -> (r: Result<usize, PlyError>)
        ensures
            old(out)@.is_prefix_of(final(out)@),
            match r {
                Ok(n) => (exists|rvs: Seq<RowV>|
                    (rvs.len() == element_list@.len() && rows_admissible(
                        rvs,
                        element_def@.properties,
                        header@.encoding,
                    ) && final(out)@ == old(out)@ + rows_wire_bytes(
                        rvs,
                        element_def@.properties,
                        header@.encoding,
                        self.nl(),
                    ))) && n == final(out)@.len() - old(out)@.len(),
                Err(_) => (exists|rvs: Seq<RowV>|
                    (rvs.len() < element_list@.len() && rows_admissible(
                        rvs,
                        element_def@.properties,
                        header@.encoding,
                    ) && final(out)@ == old(out)@ + rows_wire_bytes(
                        rvs,
                        element_def@.properties,
                        header@.encoding,
                        self.nl(),
                    ))),
            },
            element_list@.len() == 0 ==> (r matches Ok(n) && n == 0 && final(out)@ == old(out)@),
    {
        let start = out.len();
        let ghost defs = element_def@.properties;
        let ghost enc = header@.encoding;
        let ghost mut rvs: Seq<RowV> = Seq::empty();
        let is_ascii_mode = match header.encoding {
            Encoding::Ascii => true,
            _ => false,
        };
        let be = match header.encoding {
            Encoding::BinaryBigEndian => true,
            _ => false,
        };
        let mut i: usize = 0;
        while i < element_list.len()
            invariant
                0 <= i <= element_list@.len(),
                start == old(out)@.len(),
                defs == element_def@.properties,
                enc == header@.encoding,
                is_ascii_mode == (enc is Ascii),
                be == (enc is BinaryBigEndian),
                rvs.len() == i,
                rows_admissible(rvs, defs, enc),
                out@ == old(out)@ + rows_wire_bytes(rvs, defs, enc, self.nl()),
            decreases element_list@.len() - i,
        {
            let ghost mid = out@;
            let ghost pre = rvs;
            if is_ascii_mode {
                match self.write_ascii_element(out, &element_list[i], element_def) {
                    Ok(_) => {
                        proof {
                            let rv = choose|rv: RowV| out@ == mid + ascii_row_bytes(rv, self.nl());
                            rvs = rvs.push(rv);
                            assert(rvs.drop_last() =~= pre);
                            assert(out@ =~= old(out)@ + rows_wire_bytes(rvs, defs, enc, self.nl()));
                        }
                    },
                    Err(e) => {
                        proof {
                            assert(old(out)@ =~= out@.subrange(0, old(out)@.len() as int));
                        }
                        return Err(e);
                    },
                }
            } else {
                match self.write_binary_element_generic(out, &element_list[i], element_def, be) {
                    Ok(_) => {
                        proof {
                            let rv = choose|rv: RowV|
                                (row_first_error(rv, defs) is None && out@ == mid
                                    + binary_row_bytes(rv, defs, be));
                            rvs = rvs.push(rv);
                            assert(rvs.drop_last() =~= pre);
                            assert(out@ =~= old(out)@ + rows_wire_bytes(rvs, defs, enc, self.nl()));
                            assert forall|k: int| 0 <= k < rvs.len() implies row_first_error(
                                #[trigger] rvs[k],
                                defs,
                            ) is None by {
                                if k < pre.len() {
                                    assert(rvs[k] == pre[k]);
                                } else {
                                    assert(rvs[k] == rv);
                                }
                            }
                        }
                    },
                    Err(e) => {
                        proof {
                            assert(old(out)@ =~= out@.subrange(0, old(out)@.len() as int));
                        }
                        return Err(e);
                    },
                }
            }
            i = i + 1;
        }
        proof {
            assert(old(out)@ =~= out@.subrange(0, old(out)@.len() as int));
        }
        Ok(out.len() - start)
    }

    /// Write the whole payload: each element's rows, entry by entry in the
    /// payload's own order, each under the definition the header holds for
    /// its name, all in the document's one encoding. On success the appended
    /// bytes are exactly those entries' rows in order; an empty payload
    /// succeeds with nothing appended. The declared element counts are
    /// trusted: the number of rows supplied is not checked against them, as
    /// the schema and the payload are assumed consistent.
    pub fn write_payload(
        &self,
        out: &mut Vec<u8>,
        payload: &Vec<(String, Vec<P>)>,
        header: &Header,
    ) -> (r: Result<usize, PlyError>)
        requires
            forall|i: int|
                0 <= i < payload@.len() ==> find_element(
                    header@.elements,
                    #[trigger] str_bytes(payload@[i].0@),
                ) is Some,
        ensures
            old(out)@.is_prefix_of(final(out)@),
            match r {
                Ok(n) => (exists|rvss: Seq<Seq<RowV>>|
                    (rvss.len() == payload@.len() && (forall|k: int|
                        0 <= k < rvss.len() ==> (#[trigger] rvss[k]).len() == payload@[k].1@.len()
                            && rows_admissible(
                            rvss[k],
                            named_element(header@, payload@[k].0@).properties,
                            header@.encoding,
                        )) && final(out)@ == old(out)@ + payload_wire_bytes(
                        rvss,
                        payload@.map_values(|e: (String, Vec<P>)| e.0@),
                        header@,
                        self.nl(),
                    ))) && n == final(out)@.len() - old(out)@.len(),
                Err(_) => true,
            },
            payload@.len() == 0 ==> (r matches Ok(n) && n == 0 && final(out)@ == old(out)@),
    {
        let start = out.len();
        let ghost names = payload@.map_values(|e: (String, Vec<P>)| e.0@);
        let ghost mut rvss: Seq<Seq<RowV>> = Seq::empty();
        let mut i: usize = 0;
        while i < payload.len()
            invariant
                0 <= i <= payload@.len(),
                start == old(out)@.len(),
                names == payload@.map_values(|e: (String, Vec<P>)| e.0@),
                rvss.len() == i,
                forall|k: int|
                    0 <= k < i ==> (#[trigger] rvss[k]).len() == payload@[k].1@.len()
                        && rows_admissible(
                        rvss[k],
                        named_element(header@, payload@[k].0@).properties,
                        header@.encoding,
                    ),
                out@ == old(out)@ + payload_wire_bytes(
                    rvss,
                    names.subrange(0, i as int),
                    header@,
                    self.nl(),
                ),
                forall|k: int|
                    0 <= k < payload@.len() ==> find_element(
                        header@.elements,
                        #[trigger] str_bytes(payload@[k].0@),
                    ) is Some,
            decreases payload@.len() - i,
        {
            let entry = &payload[i];
            proof {
                assert(entry.0@ == payload@[i as int].0@);
                assert(find_element(header@.elements, str_bytes(payload@[i as int].0@)) is Some);
            }
            let def = match header.get_element(entry.0.as_str()) {
                Some(d) => d,
                None => {
                    proof {
                        assert(false);
                    }
                    return Err(PlyError::MissingProperty);
                },
            };
            proof {
                assert(named_element(header@, payload@[i as int].0@) == def@);
            }
            let ghost mid = out@;
            let ghost pre = rvss;
            match self.write_payload_of_element(out, &entry.1, def, header) {
                Ok(_) => (),
                Err(e) => {
                    proof {
                        assert(old(out)@.is_prefix_of(out@)) by {
                            assert(old(out)@ =~= out@.subrange(0, old(out)@.len() as int));
                        }
                    }
                    return Err(e);
                },
            }
            proof {
                let rvs = choose|rvs: Seq<RowV>|
                    (rvs.len() == entry.1@.len() && rows_admissible(
                        rvs,
                        def@.properties,
                        header@.encoding,
                    ) && out@ == mid + rows_wire_bytes(
                        rvs,
                        def@.properties,
                        header@.encoding,
                        self.nl(),
                    ));
                rvss = rvss.push(rvs);
                assert(rvss.drop_last() =~= pre);
                assert(names.subrange(0, i + 1).drop_last() =~= names.subrange(0, i as int));
                assert(names.subrange(0, i + 1).last() == names[i as int]);
                assert(names[i as int] == payload@[i as int].0@);
                assert(out@ =~= old(out)@ + payload_wire_bytes(
                    rvss,
                    names.subrange(0, i + 1),
                    header@,
                    self.nl(),
                ));
                assert(entry.1@ == payload@[i as int].1@);
                assert forall|k: int| 0 <= k < rvss.len() implies (#[trigger] rvss[k]).len()
                    == payload@[k].1@.len() && rows_admissible(
                    rvss[k],
                    named_element(header@, payload@[k].0@).properties,
                    header@.encoding,
                ) by {
                    if k < pre.len() {
                        assert(rvss[k] == pre[k]);
                    } else {
                        assert(rvss[k] == rvs);
                    }
                }
                assert(old(out)@ =~= out@.subrange(0, old(out)@.len() as int));
            }
            i = i + 1;
        }
        proof {
            assert(names.subrange(0, names.len() as int) =~= names);
            assert(old(out)@ =~= out@.subrange(0, old(out)@.len() as int));
        }
        Ok(out.len() - start)
    }

    /// Write a whole document: the header, then the payload, nothing between
    /// or after. It fails with no bytes written when the schema declares a
    /// floating list index; on success the appended bytes are exactly the
    /// header followed by every payload entry's rows in order, in the one
    /// encoding the header names; with a valid header and an empty payload
    /// success is owed. A payload failure keeps the header and the rows
    /// already written.
    pub fn write_ply(&self, out: &mut Vec<u8>, ply: &Ply<P>) -> (r: Result<usize, PlyError>)
        requires
            forall|i: int|
                0 <= i < ply.payload@.len() ==> find_element(
                    ply.header@.elements,
                    #[trigger] str_bytes(ply.payload@[i].0@),
                ) is Some,
        ensures
            old(out)@.is_prefix_of(final(out)@),
            !header_valid(ply.header@) ==> r == Err::<usize, PlyError>(
                PlyError::InvalidListIndexType,
            ) && final(out)@ == old(out)@,
            header_valid(ply.header@) && ply.payload@.len() == 0 ==> (r matches Ok(n) && n
                == header_bytes(ply.header@, self.nl()).len()),
            match r {
                Ok(n) => header_valid(ply.header@) && n == final(out)@.len() - old(out)@.len() && (
                exists|rvss: Seq<Seq<RowV>>|
                    (rvss.len() == ply.payload@.len() && (forall|k: int|
                        0 <= k < rvss.len() ==> (#[trigger] rvss[k]).len()
                            == ply.payload@[k].1@.len() && rows_admissible(
                            rvss[k],
                            named_element(ply.header@, ply.payload@[k].0@).properties,
                            ply.header@.encoding,
                        )) && final(out)@ == old(out)@ + header_bytes(ply.header@, self.nl())
                        + payload_wire_bytes(
                        rvss,
                        ply.payload@.map_values(|e: (String, Vec<P>)| e.0@),
                        ply.header@,
                        self.nl(),
                    ))),
                Err(_) => true,
            },
    {
        let start = out.len();
        match self.write_header(out, &ply.header) {
            Ok(_) => (),
            Err(e) => {
                proof {
                    assert(out@.is_prefix_of(out@));
                }
                return Err(e);
            },
        }
        let ghost hb = header_bytes(ply.header@, self.nl());
        let ghost mid = out@;
        match self.write_payload(out, &ply.payload, &ply.header) {
            Ok(_) => (),
            Err(e) => {
                proof {
                    assert(old(out)@.is_prefix_of(out@)) by {
                        assert(old(out)@ =~= out@.subrange(0, old(out)@.len() as int));
                    }
                }
                return Err(e);
            },
        }
        proof {
            let rvss = choose|rvss: Seq<Seq<RowV>>|
                (rvss.len() == ply.payload@.len() && (forall|k: int|
                    0 <= k < rvss.len() ==> (#[trigger] rvss[k]).len() == ply.payload@[k].1@.len()
                        && rows_admissible(
                        rvss[k],
                        named_element(ply.header@, ply.payload@[k].0@).properties,
                        ply.header@.encoding,
                    )) && out@ == mid + payload_wire_bytes(
                    rvss,
                    ply.payload@.map_values(|e: (String, Vec<P>)| e.0@),
                    ply.header@,
                    self.nl(),
                ));
            assert(out@ =~= old(out)@ + hb + payload_wire_bytes(
                rvss,
                ply.payload@.map_values(|e: (String, Vec<P>)| e.0@),
                ply.header@,
                self.nl(),
            ));
            assert(old(out)@ =~= out@.subrange(0, old(out)@.len() as int));
        }
        Ok(out.len() - start)
    }
}

} // verus!
