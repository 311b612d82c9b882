use ply_writer::encode::{write_ascii_row, write_binary_row};
use ply_writer::model::{
    scalar_type_from_token, DefaultElement, ElementDef, Encoding, Header, Ply, PlyError, Property,
    PropertyDef, PropertyType, ScalarType, Version,
};
use ply_writer::writer::{NewLine, Writer};

use byteorder::ByteOrder;

fn scalar_types() -> Vec<(ScalarType, &'static [u8])> {
    vec![
        (ScalarType::Char, b"char".as_slice()),
        (ScalarType::UChar, b"uchar".as_slice()),
        (ScalarType::Short, b"short".as_slice()),
        (ScalarType::UShort, b"ushort".as_slice()),
        (ScalarType::Int, b"int".as_slice()),
        (ScalarType::UInt, b"uint".as_slice()),
        (ScalarType::Float, b"float".as_slice()),
        (ScalarType::Double, b"double".as_slice()),
    ]
}

fn elem(props: Vec<(&str, Property)>) -> DefaultElement {
    DefaultElement {
        properties: props.into_iter().map(|(n, p)| (n.to_string(), p)).collect(),
    }
}

fn def(name: &str, count: usize, props: Vec<(&str, PropertyType)>) -> ElementDef {
    ElementDef {
        name: name.to_string(),
        count,
        properties: props
            .into_iter()
            .map(|(n, t)| PropertyDef {
                name: n.to_string(),
                data_type: t,
            })
            .collect(),
    }
}

#[test]
fn scalar_token_round_trips() {
    let mut out: Vec<u8> = Vec::new();
    for (t, token) in scalar_types() {
        out.clear();
        ply_writer::model::push_scalar_token(&mut out, t);
        assert_eq!(out.as_slice(), token);
        assert_eq!(scalar_type_from_token(&out), Some(t));
    }
    assert_eq!(scalar_type_from_token(b"chars"), None);
    assert_eq!(scalar_type_from_token(b""), None);
}

#[test]
fn binary_scalar_widths_and_values() {
    let cases: Vec<(Property, PropertyType, usize)> = vec![
        (Property::Char(-5), PropertyType::Scalar(ScalarType::Char), 1),
        (Property::UChar(200), PropertyType::Scalar(ScalarType::UChar), 1),
        (Property::Short(-1234), PropertyType::Scalar(ScalarType::Short), 2),
        (Property::UShort(54321), PropertyType::Scalar(ScalarType::UShort), 2),
        (Property::Int(-123456789), PropertyType::Scalar(ScalarType::Int), 4),
        (Property::UInt(3123456789), PropertyType::Scalar(ScalarType::UInt), 4),
        (Property::Float(3.5f32.to_bits()), PropertyType::Scalar(ScalarType::Float), 4),
        (
            Property::Double((-1.25f64).to_bits()),
            PropertyType::Scalar(ScalarType::Double),
            8,
        ),
    ];
    for be in [true, false] {
        for (p, t, width) in &cases {
            let e = DefaultElement {
                properties: vec![("v".to_string(), clone_prop(p))],
            };
            let d = def("e", 1, vec![("v", *t)]);
            let mut out: Vec<u8> = Vec::new();
            let n = write_binary_row(&mut out, &e, &d, be).unwrap();
            assert_eq!(n, *width);
            assert_eq!(out.len(), *width);
        }
    }
    // reinterpreting the bytes reproduces the value
    let e = elem(vec![
        ("a", Property::Int(-123456789)),
        ("b", Property::Float(3.5f32.to_bits())),
    ]);
    let d = def(
        "e",
        1,
        vec![
            ("a", PropertyType::Scalar(ScalarType::Int)),
            ("b", PropertyType::Scalar(ScalarType::Float)),
        ],
    );
    let mut out: Vec<u8> = Vec::new();
    write_binary_row(&mut out, &e, &d, true).unwrap();
    assert_eq!(byteorder::BigEndian::read_i32(&out[0..4]), -123456789);
    assert_eq!(f32::from_bits(byteorder::BigEndian::read_u32(&out[4..8])), 3.5f32);
    let mut out: Vec<u8> = Vec::new();
    write_binary_row(&mut out, &e, &d, false).unwrap();
    assert_eq!(byteorder::LittleEndian::read_i32(&out[0..4]), -123456789);
    assert_eq!(f32::from_bits(byteorder::LittleEndian::read_u32(&out[4..8])), 3.5f32);
}

fn clone_prop(p: &Property) -> Property {
    ply_writer::model::clone_property(p)
}

#[test]
fn binary_list_length_prefix_and_size() {
    // index uchar, content int: 1 + 3 * 4 bytes
    let e = elem(vec![("l", Property::ListInt(vec![7, -8, 9]))]);
    let d = def(
        "e",
        1,
        vec![("l", PropertyType::List(ScalarType::UChar, ScalarType::Int))],
    );
    let mut out: Vec<u8> = Vec::new();
    let n = write_binary_row(&mut out, &e, &d, true).unwrap();
    assert_eq!(n, 1 + 3 * 4);
    assert_eq!(out[0], 3);
    assert_eq!(byteorder::BigEndian::read_i32(&out[1..5]), 7);
    assert_eq!(byteorder::BigEndian::read_i32(&out[5..9]), -8);
    assert_eq!(byteorder::BigEndian::read_i32(&out[9..13]), 9);

    // index ushort little-endian, content double
    let e = elem(vec![("l", Property::ListDouble(vec![1.5f64.to_bits()]))]);
    let d = def(
        "e",
        1,
        vec![(
            "l",
            PropertyType::List(ScalarType::UShort, ScalarType::Double),
        )],
    );
    let mut out: Vec<u8> = Vec::new();
    let n = write_binary_row(&mut out, &e, &d, false).unwrap();
    assert_eq!(n, 2 + 8);
    assert_eq!(byteorder::LittleEndian::read_u16(&out[0..2]), 1);
    assert_eq!(
        f64::from_bits(byteorder::LittleEndian::read_u64(&out[2..10])),
        1.5f64
    );
}

#[test]
fn binary_list_length_truncates_to_index_width() {
    let e = elem(vec![("l", Property::ListUChar(vec![0u8; 300]))]);
    let d = def(
        "e",
        1,
        vec![(
            "l",
            PropertyType::List(ScalarType::Char, ScalarType::UChar),
        )],
    );
    let mut out: Vec<u8> = Vec::new();
    let n = write_binary_row(&mut out, &e, &d, true).unwrap();
    assert_eq!(n, 1 + 300);
    assert_eq!(out[0], (300 % 256) as u8);
}

#[test]
fn ascii_row_tokens() {
    let e = elem(vec![
        ("x", Property::Float(1.0f32.to_bits())),
        ("y", Property::Float(2.0f32.to_bits())),
        ("l", Property::ListInt(vec![7])),
    ]);
    let mut out: Vec<u8> = Vec::new();
    let n = write_ascii_row(&mut out, &e, b"\r\n");
    assert_eq!(n, out.len());
    let text = String::from_utf8(out).unwrap();
    let body = text.strip_suffix("\r\n").unwrap();
    let tokens: Vec<&str> = body.split(' ').collect();
    // one token per scalar, one plus the length for the list
    assert_eq!(tokens.len(), 1 + 1 + (1 + 1));
    assert_eq!(tokens[2], "1");
    assert_eq!(tokens[3], "7");

    // empty list yields just its length token
    let e = elem(vec![("l", Property::ListUInt(vec![]))]);
    let mut out: Vec<u8> = Vec::new();
    write_ascii_row(&mut out, &e, b"\n");
    assert_eq!(out, b"0\n");
}

#[test]
fn ascii_scalar_values_exact() {
    let e = elem(vec![
        ("a", Property::Char(-12)),
        ("b", Property::UChar(250)),
        ("c", Property::Short(-32768)),
        ("d", Property::UShort(65535)),
        ("e", Property::Int(-2147483648)),
        ("f", Property::UInt(4294967295)),
    ]);
    let mut out: Vec<u8> = Vec::new();
    write_ascii_row(&mut out, &e, b"\n");
    assert_eq!(out, b"-12 250 -32768 65535 -2147483648 4294967295\n");
}

#[test]
fn header_line_order() {
    let header = Header {
        encoding: Encoding::Ascii,
        version: Version { major: 1, minor: 0 },
        comments: vec!["first".to_string(), "second".to_string()],
        obj_infos: vec!["meta 1".to_string()],
        elements: vec![
            def(
                "vertex",
                3,
                vec![
                    ("x", PropertyType::Scalar(ScalarType::Float)),
                    ("y", PropertyType::Scalar(ScalarType::Float)),
                ],
            ),
            def(
                "face",
                2,
                vec![(
                    "vertex_index",
                    PropertyType::List(ScalarType::UChar, ScalarType::Int),
                )],
            ),
        ],
    };
    let w: Writer<DefaultElement> = Writer::new();
    let mut out: Vec<u8> = Vec::new();
    let n = w.write_header(&mut out, &header).unwrap();
    assert_eq!(n, out.len());
    let expected = "ply\r\n\
                    format ascii 1.0\r\n\
                    comment first\r\n\
                    comment second\r\n\
                    obj_info meta 1\r\n\
                    element vertex 3\r\n\
                    property float x\r\n\
                    property float y\r\n\
                    element face 2\r\n\
                    property list uchar int vertex_index\r\n\
                    end_header\r\n";
    assert_eq!(String::from_utf8(out).unwrap(), expected);
}

#[test]
fn binary_format_lines() {
    let w: Writer<DefaultElement> = Writer::new();
    let mut out: Vec<u8> = Vec::new();
    w.write_line_format(
        &mut out,
        &Encoding::BinaryBigEndian,
        &Version { major: 1, minor: 0 },
    )
    .unwrap();
    assert_eq!(out, b"format binary_big_endian 1.0\r\n");
    let mut out: Vec<u8> = Vec::new();
    w.write_line_format(
        &mut out,
        &Encoding::BinaryLittleEndian,
        &Version { major: 1, minor: 0 },
    )
    .unwrap();
    assert_eq!(out, b"format binary_little_endian 1.0\r\n");
}

#[test]
fn float_list_index_rejected_writes_nothing() {
    let w: Writer<DefaultElement> = Writer::new();
    for bad in [ScalarType::Float, ScalarType::Double] {
        let p = PropertyDef {
            name: "l".to_string(),
            data_type: PropertyType::List(bad, ScalarType::Int),
        };
        let mut out: Vec<u8> = Vec::new();
        let r = w.write_line_property_definition(&mut out, &p);
        assert_eq!(r, Err(PlyError::InvalidListIndexType));
        assert!(out.is_empty());
    }
    // the same schema fault fails the whole header, with nothing written
    let header = Header {
        encoding: Encoding::Ascii,
        version: Version { major: 1, minor: 0 },
        comments: vec![],
        obj_infos: vec![],
        elements: vec![def(
            "e",
            1,
            vec![(
                "l",
                PropertyType::List(ScalarType::Double, ScalarType::Int),
            )],
        )],
    };
    let mut out: Vec<u8> = Vec::new();
    let r = w.write_header(&mut out, &header);
    assert_eq!(r, Err(PlyError::InvalidListIndexType));
    assert!(out.is_empty());
    // and the binary encoder re-checks it defensively
    let e = elem(vec![("l", Property::ListInt(vec![1]))]);
    let d = def(
        "e",
        1,
        vec![("l", PropertyType::List(ScalarType::Float, ScalarType::Int))],
    );
    let mut out: Vec<u8> = Vec::new();
    let r = write_binary_row(&mut out, &e, &d, true);
    assert_eq!(r, Err(PlyError::InvalidListIndexType));
    assert!(out.is_empty());
}

#[test]
fn missing_or_mismatched_property_is_an_error() {
    let d = def("e", 1, vec![("v", PropertyType::Scalar(ScalarType::Int))]);
    // absent entirely
    let e = elem(vec![]);
    let mut out: Vec<u8> = Vec::new();
    assert_eq!(
        write_binary_row(&mut out, &e, &d, true),
        Err(PlyError::MissingProperty)
    );
    assert!(out.is_empty());
    // present with the wrong type
    let e = elem(vec![("v", Property::Float(0))]);
    let mut out: Vec<u8> = Vec::new();
    assert_eq!(
        write_binary_row(&mut out, &e, &d, false),
        Err(PlyError::MissingProperty)
    );
    assert!(out.is_empty());
}

#[test]
fn newline_styles() {
    let mut w: Writer<DefaultElement> = Writer::new();
    let mut out: Vec<u8> = Vec::new();
    w.write_line_magic_number(&mut out).unwrap();
    assert_eq!(out, b"ply\r\n");
    w.set_newline(NewLine::N);
    let mut out: Vec<u8> = Vec::new();
    w.write_line_magic_number(&mut out).unwrap();
    assert_eq!(out, b"ply\n");
    w.set_newline(NewLine::R);
    let mut out: Vec<u8> = Vec::new();
    w.write_line_magic_number(&mut out).unwrap();
    assert_eq!(out, b"ply\r");
    w.set_newline(NewLine::RN);
    let mut out: Vec<u8> = Vec::new();
    w.write_line_end_header(&mut out).unwrap();
    assert_eq!(out, b"end_header\r\n");
}

fn example_ply() -> Ply<DefaultElement> {
    let header = Header {
        encoding: Encoding::Ascii,
        version: Version { major: 1, minor: 0 },
        comments: vec![],
        obj_infos: vec![],
        elements: vec![def(
            "vertex",
            2,
            vec![
                ("x", PropertyType::Scalar(ScalarType::Float)),
                ("y", PropertyType::Scalar(ScalarType::Float)),
                (
                    "list_of_int",
                    PropertyType::List(ScalarType::UChar, ScalarType::Int),
                ),
            ],
        )],
    };
    let row1 = elem(vec![
        ("x", Property::Float(1.0f32.to_bits())),
        ("y", Property::Float(2.0f32.to_bits())),
        ("list_of_int", Property::ListInt(vec![7])),
    ]);
    let row2 = elem(vec![
        ("x", Property::Float(3.5f32.to_bits())),
        ("y", Property::Float((-1.25f32).to_bits())),
        ("list_of_int", Property::ListInt(vec![])),
    ]);
    Ply {
        header,
        payload: vec![("vertex".to_string(), vec![row1, row2])],
    }
}

#[test]
fn end_to_end_ascii_example() {
    let ply = example_ply();
    let w: Writer<DefaultElement> = Writer::new();
    let mut out: Vec<u8> = Vec::new();
    let n = w.write_ply(&mut out, &ply).unwrap();
    assert_eq!(n, out.len());
    let expected = "ply\r\n\
                    format ascii 1.0\r\n\
                    element vertex 2\r\n\
                    property float x\r\n\
                    property float y\r\n\
                    property list uchar int list_of_int\r\n\
                    end_header\r\n\
                    1 2 1 7\r\n\
                    3.5 -1.25 0\r\n";
    assert_eq!(String::from_utf8(out).unwrap(), expected);
}

#[test]
fn end_to_end_binary_payload() {
    let mut ply = example_ply();
    ply.header.encoding = Encoding::BinaryBigEndian;
    let w: Writer<DefaultElement> = Writer::new();
    let mut out: Vec<u8> = Vec::new();
    w.write_ply(&mut out, &ply).unwrap();
    let header_len = b"ply\r\nformat binary_big_endian 1.0\r\nelement vertex 2\r\nproperty float x\r\nproperty float y\r\nproperty list uchar int list_of_int\r\nend_header\r\n".len();
    let payload = &out[header_len..];
    // row 1: two floats, then count 1 and one int
    assert_eq!(payload.len(), (4 + 4 + 1 + 4) + (4 + 4 + 1));
    assert_eq!(f32::from_bits(byteorder::BigEndian::read_u32(&payload[0..4])), 1.0);
    assert_eq!(f32::from_bits(byteorder::BigEndian::read_u32(&payload[4..8])), 2.0);
    assert_eq!(payload[8], 1);
    assert_eq!(byteorder::BigEndian::read_i32(&payload[9..13]), 7);
    assert_eq!(f32::from_bits(byteorder::BigEndian::read_u32(&payload[13..17])), 3.5);
    assert_eq!(
        f32::from_bits(byteorder::BigEndian::read_u32(&payload[17..21])),
        -1.25
    );
    assert_eq!(payload[21], 0);
}

#[test]
fn big_and_little_endian_element_writers_differ() {
    let e = elem(vec![("v", Property::Int(0x01020304))]);
    let d = def("e", 1, vec![("v", PropertyType::Scalar(ScalarType::Int))]);
    let w: Writer<DefaultElement> = Writer::new();
    let mut big: Vec<u8> = Vec::new();
    w.write_big_endian_element(&mut big, &e, &d).unwrap();
    let mut little: Vec<u8> = Vec::new();
    w.write_little_endian_element(&mut little, &e, &d).unwrap();
    assert_eq!(big, vec![1, 2, 3, 4]);
    assert_eq!(little, vec![4, 3, 2, 1]);
}

#[test]
fn ascii_element_uses_conversion() {
    let e = elem(vec![("v", Property::Double(0.5f64.to_bits()))]);
    let d = def("e", 1, vec![("v", PropertyType::Scalar(ScalarType::Double))]);
    let w: Writer<DefaultElement> = Writer::new();
    let mut out: Vec<u8> = Vec::new();
    let n = w.write_ascii_element(&mut out, &e, &d).unwrap();
    assert_eq!(n, out.len());
    assert_eq!(out, b"0.5\r\n");
}

#[test]
fn empty_row_is_just_the_terminator() {
    let e = elem(vec![]);
    let mut out: Vec<u8> = Vec::new();
    let n = write_ascii_row(&mut out, &e, b"\r\n");
    assert_eq!(n, 2);
    assert_eq!(out, b"\r\n");
    let d = def("e", 0, vec![]);
    let mut out: Vec<u8> = Vec::new();
    assert_eq!(write_binary_row(&mut out, &e, &d, true), Ok(0));
    assert!(out.is_empty());
}
