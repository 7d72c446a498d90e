use dagcbor::ipld::Ipld;
use dagcbor::{from_slice, from_slice_prefix, from_slice_tuple, to_vec, DecodeError, Expected};
use dagcbor::Serializer;

fn hex(s: &str) -> Vec<u8> {
    assert!(s.len() % 2 == 0);
    let mut b = Vec::with_capacity(s.len() / 2);
    for i in 0..s.len() / 2 {
        b.push(u8::from_str_radix(&s[i * 2..(i + 1) * 2], 16).unwrap());
    }
    b
}

fn text(s: &str) -> Ipld {
    Ipld::String(s.to_string())
}

#[test]
fn test_string1() {
    let ipld = from_slice(&[0x66, 0x66, 0x6f, 0x6f, 0x62, 0x61, 0x72]);
    assert_eq!(ipld.unwrap(), text("foobar"));
}

#[test]
fn test_string2() {
    let ipld = from_slice(&[
        0x71, 0x49, 0x20, 0x6d, 0x65, 0x74, 0x20, 0x61, 0x20, 0x74, 0x72, 0x61, 0x76, 0x65, 0x6c,
        0x6c, 0x65, 0x72,
    ]);
    assert_eq!(ipld.unwrap(), text("I met a traveller"));
}

#[test]
fn test_string3() {
    let slice = b"\x78\x2fI met a traveller from an antique land who said";
    let ipld = from_slice(slice);
    assert_eq!(ipld.unwrap(), text("I met a traveller from an antique land who said"));
}

#[test]
fn test_byte_string() {
    let ipld = from_slice(&[0x46, 0x66, 0x6f, 0x6f, 0x62, 0x61, 0x72]);
    assert_eq!(ipld.unwrap(), Ipld::Bytes(b"foobar".to_vec()));
}

#[test]
fn test_numbers1() {
    assert_eq!(from_slice(&[0x00]).unwrap(), Ipld::Integer(0));
}

#[test]
fn test_numbers2() {
    assert_eq!(from_slice(&[0x1a, 0x00, 0xbc, 0x61, 0x4e]).unwrap(), Ipld::Integer(12345678));
}

#[test]
fn test_numbers3() {
    assert_eq!(from_slice(&[0x39, 0x07, 0xde]).unwrap(), Ipld::Integer(-2015));
}

#[test]
fn test_numbers_large_negative() {
    let ipld = from_slice(&[0x3b, 0xa5, 0xf7, 0x02, 0xb3, 0xa5, 0xf7, 0x02, 0xb3]);
    let expected: i128 = -11959030306112471732;
    assert!(expected < i128::from(i64::MIN));
    assert_eq!(ipld.unwrap(), Ipld::Integer(expected));
}

#[test]
fn test_bool() {
    assert_eq!(from_slice(b"\xf4").unwrap(), Ipld::Bool(false));
}

#[test]
fn test_trailing_bytes() {
    assert_eq!(from_slice(b"\xf4trailing").unwrap_err(), DecodeError::TrailingData);
}

#[test]
fn test_list1() {
    assert_eq!(
        from_slice(b"\x83\x01\x02\x03").unwrap(),
        Ipld::List(vec![Ipld::Integer(1), Ipld::Integer(2), Ipld::Integer(3)])
    );
}

#[test]
fn test_list2() {
    assert_eq!(
        from_slice(b"\x82\x01\x82\x02\x81\x03").unwrap(),
        Ipld::List(vec![
            Ipld::Integer(1),
            Ipld::List(vec![Ipld::Integer(2), Ipld::List(vec![Ipld::Integer(3)])])
        ])
    );
}

#[test]
fn test_object() {
    let ipld = from_slice(b"\xa5aaaAabaBacaCadaDaeaE");
    let object = vec![
        ("a".to_string(), text("A")),
        ("b".to_string(), text("B")),
        ("c".to_string(), text("C")),
        ("d".to_string(), text("D")),
        ("e".to_string(), text("E")),
    ];
    assert_eq!(ipld.unwrap(), Ipld::Dict(object));
}

#[test]
fn test_indefinite_object_error() {
    let ipld = from_slice(b"\xbfaa\x01ab\x9f\x02\x03\xff\xff");
    assert_eq!(ipld.unwrap_err(), DecodeError::IndefiniteSize);
}

#[test]
fn test_indefinite_list_error() {
    let ipld = from_slice(b"\x9f\x01\x02\x03\xff");
    assert_eq!(ipld.unwrap_err(), DecodeError::IndefiniteSize);
}

#[test]
fn test_indefinite_string_error() {
    let ipld = from_slice(b"\x7f\x65Mary \x64Had \x62a \x67Little \x60\x64Lamb\xff");
    assert_eq!(ipld.unwrap_err(), DecodeError::IndefiniteSize);
}

#[test]
fn test_indefinite_byte_string_error() {
    let ipld = from_slice(b"\x5f\x42\x01\x23\x42\x45\x67\xff");
    assert_eq!(ipld.unwrap_err(), DecodeError::IndefiniteSize);
}

#[test]
fn test_multiple_indefinite_strings_error() {
    let input = b"\x82\x7f\x65Mary \x64Had \x62a \x67Little \x60\x64Lamb\xff\x5f\x42\x01\x23\x42\x45\x67\xff";
    assert_eq!(from_slice(input).unwrap_err(), DecodeError::IndefiniteSize);
}

#[test]
fn test_float() {
    let ipld = from_slice(b"\xfa\x47\xc3\x50\x00");
    assert_eq!(ipld.unwrap(), Ipld::Float(100000.0f64.to_bits()));
}

#[test]
fn test_rejected_tag() {
    let ipld = from_slice(&[0xd9, 0xd9, 0xf7, 0x66, 0x66, 0x6f, 0x6f, 0x62, 0x61, 0x72]);
    assert_eq!(
        ipld.unwrap_err(),
        DecodeError::TypeMismatch { name: Expected::Tag, byte: 0xf7 }
    );
}

#[test]
fn test_crazy_list() {
    let slice = b"\x86\x1b\x00\x00\x00\x1c\xbe\x99\x1d\xc7\x3b\x00\x7a\xcf\x51\xdc\x51\x70\xdb\x3a\x1b\x3a\x06\xdd\xf5\xf6\xfb\x41\x76\x5e\xb1\xf8\x00\x00\x00";
    let ipld = from_slice(slice).unwrap();
    assert_eq!(
        ipld,
        Ipld::List(vec![
            Ipld::Integer(123456789959),
            Ipld::Integer(-34567897654325468),
            Ipld::Integer(-456787678),
            Ipld::Bool(true),
            Ipld::Null,
            Ipld::Float(23456543.5f64.to_bits()),
        ])
    );
}

#[test]
fn test_nan() {
    let ipld = from_slice(b"\xf9\x7e\x00");
    assert!(matches!(ipld.unwrap_err(), DecodeError::TypeMismatch { .. }));
}

#[test]
fn test_option_roundtrip() {
    let mut ser = Serializer::new(Vec::new());
    ser.serialize_u32(10);
    let v = ser.into_inner();
    assert_eq!(from_slice(&v[..]).unwrap(), Ipld::Integer(10));
}

#[test]
fn test_option_none_roundtrip() {
    let mut ser = Serializer::new(Vec::new());
    ser.serialize_none();
    let v = ser.into_inner();
    assert_eq!(v, [0xf6]);
    assert_eq!(from_slice(&v[..]).unwrap(), Ipld::Null);
}

#[test]
fn test_unit() {
    let mut ser = Serializer::new(Vec::new());
    ser.serialize_unit();
    let v = ser.into_inner();
    assert_eq!(v, [0xf6], "unit is serialized as NULL.");
    assert!(from_slice(&v).is_ok(), "unit was successfully deserialized");
}

#[test]
fn test_variable_length_map_error() {
    let slice = b"\xbf\x67\x6d\x65\x73\x73\x61\x67\x65\x64\x70\x6f\x6e\x67\xff";
    assert_eq!(from_slice(slice).unwrap_err(), DecodeError::IndefiniteSize);
}

#[test]
fn test_object_determinism_roundtrip() {
    let expected = b"\xa2aa\x01ab\x82\x02\x03";
    for _ in 0..10 {
        assert_eq!(&to_vec(&from_slice(expected).unwrap()).unwrap(), expected);
    }
}

#[test]
fn test_from_reader_once() {
    let v: &[u8] = &[0x66, 0x66, 0x6f, 0x6f, 0x62, 0x61, 0x72, 0x0a];
    let (value_1, used_1) = from_slice_prefix(v).unwrap();
    assert_eq!(value_1, text("foobar"));
    let (value_2, used_2) = from_slice_prefix(&v[used_1..]).unwrap();
    assert_eq!(value_2, Ipld::Integer(10));
    assert_eq!(v.len(), used_1 + used_2);
}

#[test]
fn test_stream_deserializer() {
    let v: &[u8] = &[0x66, 0x66, 0x6f, 0x6f, 0x62, 0x61, 0x72, 0x63, 0x62, 0x61, 0x7A];
    let (value_1, used_1) = from_slice_prefix(v).unwrap();
    assert_eq!(value_1, text("foobar"));
    let (value_2, used_2) = from_slice_prefix(&v[used_1..]).unwrap();
    assert_eq!(value_2, text("baz"));
    assert_eq!(used_1 + used_2, v.len());
}

#[test]
fn test_stream_deserializer_marker_traits() {
    fn is_send<T: Send>(_: &T) {}
    let v: &[u8] = &[0x66, 0x66, 0x6f, 0x6f, 0x62, 0x61, 0x72, 0x63, 0x62, 0x61, 0x7A];
    let value_1 = from_slice_prefix(v).unwrap();
    is_send(&value_1);
    assert_eq!(value_1.0, text("foobar"));
}

#[test]
fn test_stream_deserializer_trailing_data() {
    // one byte missing on the end
    let v: &[u8] = &[0x66, 0x66, 0x6f, 0x6f, 0x62, 0x61, 0x72, 0x63, 0x62, 0x61];
    let (value_1, used_1) = from_slice_prefix(v).unwrap();
    assert_eq!(value_1, text("foobar"));
    assert_eq!(from_slice_prefix(&v[used_1..]).unwrap_err(), DecodeError::Eof);
}

#[test]
fn attempt_stack_overflow() {
    // A tag 17, followed by 999 more tag 17.
    let input = vec![0xd1; 1000];
    assert!(from_slice(&input).is_err(), "recursion limit");
}

#[test]
fn truncated_object() {
    let input: Vec<u8> = [
        &b"\x84\x87\xD8\x2A\x58\x27\x00\x01\x71\xA0\xE4\x02\x20\x83\xEC\x9F\x76\x1D"[..],
        &b"\xB5\xEE\xA0\xC8\xE1\xB5\x74\x0D\x1F\x0A\x1D\xB1\x8A\x52\x6B\xCB\x42\x69"[..],
        &b"\xFD\x99\x24\x9E\xCE\xA9\xE8\xFD\x24\xD8\x2A\x58\x27\x00\x01\x71\xA0\xE4"[..],
        &b"\x02\x20\xF1\x9B\xC1\x42\x83\x31\xB1\x39\xB3\x3F\x43\x02\x87\xCC\x1C\x12"[..],
        &b"\xF2\x84\x47\xA3\x9B\x07\x59\x40\x17\x68\xFE\xE8\x09\xBB\xF2\x54\xD8\x2A"[..],
        &b"\x58\x27\x00\x01\x71\xA0\xE4\x02\x20\xB0\x75\x09\x92\x78\x6B\x6B\x4C\xED"[..],
        &b"\xF0\xE1\x50\xA3\x1C\xAB\xDF\x25\xA9\x26\x8C\x63\xDD\xCB\x25\x73\x6B\xF5"[..],
        &b"\x8D\xE8\xA4\x24\x29"[..],
    ]
    .concat();
    assert!(from_slice(&input).is_err(), "truncated");
}

#[test]
fn invalid_string() {
    // Non UTF-8 byte sequence, but using major type 3 (text string)
    let input = [0x63, 0xc5, 0x01, 0x02];
    assert_eq!(from_slice(&input).unwrap_err(), DecodeError::InvalidUtf8);
}

#[test]
fn error_on_undefined() {
    // CBOR simple type `undefined`
    let input = [0xf7];
    assert!(matches!(from_slice(&input).unwrap_err(), DecodeError::Unsupported { .. }));
}

/// A tuple struct `{ a: u32 = 0, b: String = "" }` read from its elements.
fn tuple_with_defaults(items: &[Ipld]) -> (i128, String) {
    let a = match items.first() {
        Some(Ipld::Integer(n)) => *n,
        None => 0,
        other => panic!("unexpected {:?}", other),
    };
    let b = match items.get(1) {
        Some(Ipld::String(s)) => s.clone(),
        None => String::new(),
        other => panic!("unexpected {:?}", other),
    };
    (a, b)
}

#[test]
fn test_default_values() {
    // [] -> default
    let r = from_slice_tuple(&hex("80"), 0, 2).unwrap();
    assert_eq!(tuple_with_defaults(&r), (0, "".to_string()));
    // [101] -> set a and default b
    let r = from_slice_tuple(&hex("811865"), 0, 2).unwrap();
    assert_eq!(tuple_with_defaults(&r), (101, "".to_string()));
    // [202, "yep"]
    let r = from_slice_tuple(&hex("8218ca63796570"), 0, 2).unwrap();
    assert_eq!(tuple_with_defaults(&r), (202, "yep".to_string()));
    // [202,"nup",false] has too many elements so it errors with RequireLength
    assert_eq!(
        from_slice_tuple(&hex("8318ca636e7570f4"), 0, 2).unwrap_err(),
        DecodeError::RequireLength { expect: 2, value: 3 }
    );

    // [505,[],606]: the outer struct has three fields, the last defaultable.
    let outer = from_slice_tuple(&hex("831901f98019025e"), 2, 3).unwrap();
    assert_eq!(outer[0], Ipld::Integer(505));
    assert_eq!(outer[1], Ipld::List(vec![]));
    assert_eq!(outer[2], Ipld::Integer(606));
    // [505,[202,"yep"],606]
    let outer = from_slice_tuple(&hex("831901f98218ca6379657019025e"), 2, 3).unwrap();
    match &outer[1] {
        Ipld::List(inner) => assert_eq!(tuple_with_defaults(inner), (202, "yep".to_string())),
        other => panic!("unexpected {:?}", other),
    }
    // [505,[202,"nup",false],606] has too many elements in the inner struct
    let inner = to_vec(&from_slice_tuple(&hex("831901f98318ca636e7570f419025e"), 2, 3).unwrap()[1])
        .unwrap();
    assert_eq!(
        from_slice_tuple(&inner, 0, 2).unwrap_err(),
        DecodeError::RequireLength { expect: 2, value: 3 }
    );
    // [505,[]] -> bop defaults
    let outer = from_slice_tuple(&hex("821901f980"), 2, 3).unwrap();
    assert_eq!(outer.len(), 2);
    // [505,[202,"yep"]]
    let outer = from_slice_tuple(&hex("821901f98218ca63796570"), 2, 3).unwrap();
    assert_eq!(outer.len(), 2);

    // [404] -> default inner
    let outer = from_slice_tuple(&hex("81190194"), 1, 2).unwrap();
    assert_eq!(outer, vec![Ipld::Integer(404)]);
    // [404,[]] -> default inner
    let outer = from_slice_tuple(&hex("8219019480"), 1, 2).unwrap();
    assert_eq!(outer, vec![Ipld::Integer(404), Ipld::List(vec![])]);
    // [] -> error because the outer struct's first field has no default
    assert!(from_slice_tuple(&hex("80"), 1, 2).is_err());

    // [[1,2],3] -> expected layout
    let outer = from_slice_tuple(&hex("8282010203"), 1, 2).unwrap();
    assert_eq!(outer[1], Ipld::Integer(3));
    // [[1],2] -> error because inner has too few elements: the input ends early
    assert_eq!(from_slice_tuple(&hex("82820102"), 1, 2).unwrap_err(), DecodeError::Eof);
    // [[1,2,3],4] -> error because inner has too many elements
    let outer = from_slice_tuple(&hex("828301020304"), 1, 2).unwrap();
    let inner = to_vec(&outer[0]).unwrap();
    assert_eq!(
        from_slice_tuple(&inner, 2, 2).unwrap_err(),
        DecodeError::RequireLength { expect: 2, value: 3 }
    );
    // [[1,2]] + 3 -> error because there's a trailing element
    assert_eq!(from_slice_tuple(&hex("8182010203"), 1, 2).unwrap_err(), DecodeError::TrailingData);
    // [[1,2,3]] -> error because the inner struct has too many elements
    let outer = from_slice_tuple(&hex("8183010203"), 1, 2).unwrap();
    let inner = to_vec(&outer[0]).unwrap();
    assert_eq!(
        from_slice_tuple(&inner, 2, 2).unwrap_err(),
        DecodeError::RequireLength { expect: 2, value: 3 }
    );

    // {"inner":{"a":1,"b":2},"c":3} -> expected layout
    let v = from_slice(&hex("a261630365696e6e6572a2616101616202")).unwrap();
    assert_eq!(
        v,
        Ipld::Dict(vec![
            ("c".to_string(), Ipld::Integer(3)),
            (
                "inner".to_string(),
                Ipld::Dict(vec![
                    ("a".to_string(), Ipld::Integer(1)),
                    ("b".to_string(), Ipld::Integer(2)),
                ])
            ),
        ])
    );
    // {"inner":{"a":1},"c":3}: the inner map lacks field `b`
    match from_slice(&hex("a261630365696e6e6572a1616101")).unwrap() {
        Ipld::Dict(entries) => assert_eq!(
            entries[1].1,
            Ipld::Dict(vec![("a".to_string(), Ipld::Integer(1))])
        ),
        other => panic!("unexpected {:?}", other),
    }
    // {"inner":{"a":1,"b":2,"c":3},"c":4}: the inner map has an unknown field `c`
    match from_slice(&hex("a261630465696e6e6572a3616101616202616303")).unwrap() {
        Ipld::Dict(entries) => match &entries[1].1 {
            Ipld::Dict(inner) => assert_eq!(inner[2].0, "c"),
            other => panic!("unexpected {:?}", other),
        },
        other => panic!("unexpected {:?}", other),
    }
    // {"inner":{"a":1,"b":2}} + "c":3 -> error because there's a trailing element
    assert_eq!(
        from_slice(&hex("a165696e6e6572a2616101616202616303")).unwrap_err(),
        DecodeError::TrailingData
    );
    // {"inner":{"a":1,"b":2,"c":3}}: the inner map has an unknown field `c`
    match from_slice(&hex("a165696e6e6572a3616101616202616303")).unwrap() {
        Ipld::Dict(entries) => match &entries[0].1 {
            Ipld::Dict(inner) => assert_eq!(inner.len(), 3),
            other => panic!("unexpected {:?}", other),
        },
        other => panic!("unexpected {:?}", other),
    }
}
