use dagcbor::ipld::Ipld;
use dagcbor::{from_slice, is_link_name, to_vec, to_vec_packed, DecodeError, EncodeError, Expected};
use dagcbor::{MAX_DEPTH, Serializer};

fn hex(s: &str) -> Vec<u8> {
    assert!(s.len() % 2 == 0);
    let mut b = Vec::with_capacity(s.len() / 2);
    for i in 0..s.len() / 2 {
        b.push(u8::from_str_radix(&s[i * 2..(i + 1) * 2], 16).unwrap());
    }
    b
}

fn encoded(v: &Ipld) -> Vec<u8> {
    to_vec(v).unwrap()
}

fn sub() -> Serializer {
    Serializer::new(Vec::new())
}

#[test]
fn map_canonical_in_any_insertion_order() {
    let list = || Ipld::List(vec![Ipld::Integer(2), Ipld::Integer(3)]);
    let ab = Ipld::Dict(vec![("a".to_string(), Ipld::Integer(1)), ("b".to_string(), list())]);
    let ba = Ipld::Dict(vec![("b".to_string(), list()), ("a".to_string(), Ipld::Integer(1))]);
    let expected = hex("a26161016162820203");
    assert_eq!(encoded(&ab), expected);
    assert_eq!(encoded(&ba), expected);
}

#[test]
fn map_keys_sorted_by_length_first() {
    let v = Ipld::Dict(vec![
        ("bb".to_string(), Ipld::Integer(1)),
        ("c".to_string(), Ipld::Integer(2)),
        ("aaa".to_string(), Ipld::Integer(3)),
    ]);
    assert_eq!(encoded(&v), hex("a3616302626262016361616103"));
}

#[test]
fn collect_map_sorts_entries() {
    let mut s = sub();
    s.collect_map(vec![hex("6162820203"), hex("616101")]);
    assert_eq!(s.into_inner(), hex("a26161016162820203"));
}

#[test]
fn collection_serializer_map_and_seq() {
    let mut m = sub().serialize_collection(5);
    m.serialize_key(&hex("6162"));
    m.serialize_value(&hex("820203"));
    m.serialize_key(&hex("6161"));
    m.serialize_value(&hex("01"));
    assert_eq!(m.end_inner().into_inner(), hex("a26161016162820203"));

    let mut l = sub().serialize_collection(4);
    l.serialize_element(&hex("03"));
    l.serialize_element(&hex("01"));
    assert_eq!(l.end_inner().into_inner(), hex("820301"));
}

#[test]
fn minimal_width_integers() {
    let mut s = sub();
    s.serialize_u64(23);
    assert_eq!(s.into_inner(), hex("17"));
    let mut s = sub();
    s.serialize_u64(24);
    assert_eq!(s.into_inner(), hex("1818"));
    let mut s = sub();
    s.serialize_i64(-2015);
    assert_eq!(s.into_inner(), hex("3907de"));
    assert_eq!(encoded(&Ipld::Integer(23)), hex("17"));
    assert_eq!(encoded(&Ipld::Integer(24)), hex("1818"));
    assert_eq!(encoded(&Ipld::Integer(-2015)), hex("3907de"));
}

#[test]
fn integer_width_boundaries() {
    let cases: [(i128, &str); 10] = [
        (0, "00"),
        (255, "18ff"),
        (256, "190100"),
        (65535, "19ffff"),
        (65536, "1a00010000"),
        (4294967295, "1affffffff"),
        (4294967296, "1b0000000100000000"),
        (-1, "20"),
        (-256, "38ff"),
        (-257, "390100"),
    ];
    for (n, h) in cases {
        assert_eq!(encoded(&Ipld::Integer(n)), hex(h), "for {}", n);
        assert_eq!(from_slice(&hex(h)).unwrap(), Ipld::Integer(n));
    }
}

#[test]
fn narrow_integer_callbacks() {
    let mut s = sub();
    s.serialize_i8(-128);
    s.serialize_i8(5);
    s.serialize_i16(-257);
    s.serialize_i32(98745874);
    s.serialize_u8(24);
    s.serialize_u16(255);
    s.serialize_u32(98745874);
    assert_eq!(s.into_inner(), hex("387f053901001a05e2be12181818ff1a05e2be12"));
}

#[test]
fn integer_range_limits() {
    let max = u64::MAX as i128;
    assert_eq!(encoded(&Ipld::Integer(max)), hex("1bffffffffffffffff"));
    assert_eq!(encoded(&Ipld::Integer(-max - 1)), hex("3bffffffffffffffff"));
    assert_eq!(to_vec(&Ipld::Integer(max + 1)).unwrap_err(), EncodeError::OutOfRange);
    assert_eq!(to_vec(&Ipld::Integer(-max - 2)).unwrap_err(), EncodeError::OutOfRange);
    let mut s = sub();
    assert_eq!(s.serialize_u128(u64::MAX as u128 + 1), Err(EncodeError::OutOfRange));
    assert_eq!(s.serialize_i128(-1), Ok(()));
    assert_eq!(s.serialize_u128(17), Ok(()));
    assert_eq!(s.into_inner(), hex("2011"));
}

#[test]
fn floats_are_doubles_and_finite() {
    assert_eq!(encoded(&Ipld::Float(12345.6f64.to_bits())), hex("fb40c81ccccccccccd"));
    assert_eq!(to_vec(&Ipld::Float(f64::NAN.to_bits())).unwrap_err(), EncodeError::NonFiniteFloat);
    assert_eq!(
        to_vec(&Ipld::Float(f64::INFINITY.to_bits())).unwrap_err(),
        EncodeError::NonFiniteFloat
    );
    assert_eq!(
        to_vec(&Ipld::Float(f64::NEG_INFINITY.to_bits())).unwrap_err(),
        EncodeError::NonFiniteFloat
    );
    let mut s = sub();
    assert_eq!(s.serialize_f32(f32::NAN.to_bits()), Err(EncodeError::NonFiniteFloat));
    assert_eq!(s.into_inner(), Vec::<u8>::new());
}

#[test]
fn half_precision_is_rejected() {
    assert_eq!(
        from_slice(&hex("f97e00")).unwrap_err(),
        DecodeError::TypeMismatch { name: Expected::Simple, byte: 0xf9 }
    );
}

#[test]
fn test_f32_encoding_is_f64() {
    let mut s = sub();
    s.serialize_f32(1.5f32.to_bits()).expect("encoding should succeed");
    let encoded = s.into_inner();
    assert_eq!(encoded[0], 0xfb);
    assert_eq!(encoded.len(), 9);
}

#[test]
fn test_f32_roundtrip() {
    let test_values = vec![
        0.0f32,
        -0.0f32,
        1.0f32,
        -1.0f32,
        1.5f32,
        f32::MIN,
        f32::MAX,
        f32::EPSILON,
        f32::MIN_POSITIVE,
    ];
    for value in test_values {
        let mut s = sub();
        s.serialize_f32(value.to_bits()).expect("encoding should succeed");
        let decoded = from_slice(&s.into_inner()).expect("decoding should succeed");
        match decoded {
            Ipld::Float(bits) => {
                assert_eq!(bits, f64::from(value).to_bits());
                assert_eq!((f64::from_bits(bits) as f32).to_bits(), value.to_bits());
            },
            other => panic!("unexpected {:?}", other),
        }
    }
}

#[test]
fn widening_matches_std_on_subnormals_and_specials() {
    let values = [
        f32::from_bits(1),
        f32::from_bits(0x0000_0300),
        f32::from_bits(0x007f_ffff),
        f32::MIN_POSITIVE,
        f32::INFINITY,
        f32::NEG_INFINITY,
        -0.0f32,
        123.456f32,
    ];
    for v in values {
        assert_eq!(dagcbor::float::widen_f32_bits(v.to_bits()), f64::from(v).to_bits(), "{}", v);
    }
    // NaN stays NaN, with its payload moved to the top of the fraction.
    assert_eq!(dagcbor::float::widen_f32_bits(0x7fc0_0001), 0x7ff8_0000_2000_0000);
}

#[test]
fn test_accept_f32_cbor_marker_for_compatibility() {
    let f32_cbor = vec![0xfa, 0x3f, 0xc0, 0x00, 0x00];
    let result = from_slice(&f32_cbor);
    assert!(result.is_ok());
    assert_eq!(result.unwrap(), Ipld::Float(1.5f64.to_bits()));
}

#[test]
fn strings_and_bytes() {
    assert_eq!(encoded(&Ipld::String("\u{0}".to_string())), hex("6100"));
    assert_eq!(encoded(&Ipld::String("\u{1F494}".to_string())), hex("64f09f9294"));
    assert_eq!(
        encoded(&Ipld::String("a\u{e2}\u{f8}\u{2193}\u{e9}".to_string())),
        hex("6a61c3a2c3b8e28693c3a9")
    );
    assert_eq!(encoded(&Ipld::Bytes(b"foobar".to_vec())), hex("46666f6f626172"));
    assert_eq!(encoded(&Ipld::Bool(true)), hex("f5"));
    assert_eq!(encoded(&Ipld::Null), hex("f6"));
}

#[test]
fn link_is_tag_42_with_zero_prefix() {
    let cid = vec![0x01, 0x71, 0x12];
    let bytes = encoded(&Ipld::Link(cid.clone()));
    assert_eq!(bytes, hex("d82a4400017112"));
    assert_eq!(from_slice(&bytes).unwrap(), Ipld::Link(cid.clone()));
    let mut s = sub();
    s.serialize_link(&cid);
    assert_eq!(s.into_inner(), bytes);
}

#[test]
fn other_tags_and_bad_links_are_rejected() {
    assert_eq!(
        from_slice(&hex("d82b4400017112")).unwrap_err(),
        DecodeError::TypeMismatch { name: Expected::Tag, byte: 0x2b }
    );
    assert_eq!(
        from_slice(&hex("d82a4401017112")).unwrap_err(),
        DecodeError::TypeMismatch { name: Expected::Link, byte: 0x44 }
    );
    assert_eq!(
        from_slice(&hex("d82a6161")).unwrap_err(),
        DecodeError::TypeMismatch { name: Expected::Link, byte: 0x61 }
    );
}

#[test]
fn newtype_struct_of_cid_name_is_a_link() {
    let name = "$__private__serde__identifier__for__cid";
    assert!(is_link_name(name));
    assert!(!is_link_name("Cid"));
    let mut s = sub();
    s.serialize_newtype_struct(name, &[0x01, 0x55]);
    assert_eq!(s.into_inner(), hex("d82a43000155"));
    let mut s = sub();
    s.serialize_newtype_struct("NewtypeStruct", &hex("f5"));
    assert_eq!(s.into_inner(), hex("f5"));
}

#[test]
fn self_describe_prefix() {
    let mut s = sub();
    s.self_describe();
    s.serialize_bool(false);
    assert_eq!(s.into_inner(), hex("d9d9f7f4"));
}

fn field(s: &Serializer, f: impl Fn(&mut Serializer)) -> Vec<u8> {
    let mut e = s.fresh();
    f(&mut e);
    e.into_inner()
}

#[test]
fn struct_fields_form_a_canonical_map() {
    let ser = sub();
    let name = field(&ser, |e| e.serialize_str("Grace Hopper"));
    let year = field(&ser, |e| e.serialize_u16(1906));
    let prof = field(&ser, |e| e.serialize_str("computer scientist"));
    let mut st = ser.serialize_struct();
    st.serialize_field_inner("name", &name);
    st.serialize_field_inner("year_of_birth", &year);
    st.serialize_field_inner("profession", &prof);
    assert_eq!(
        st.end_inner().into_inner(),
        hex("a3646e616d656c477261636520486f707065726a70726f66657373696f6e72636f6d707574657220736369656e746973746d796561725f6f665f6269727468190772")
    );

    let ser = sub();
    let mut st = ser.serialize_struct();
    st.serialize_field_inner("name", &name);
    st.skip_field_inner("year_of_birth");
    st.serialize_field_inner("profession", &prof);
    assert_eq!(
        st.end_inner().into_inner(),
        hex("a2646e616d656c477261636520486f707065726a70726f66657373696f6e72636f6d707574657220736369656e74697374")
    );
}

#[test]
fn packed_struct_uses_field_indices() {
    let ser = sub().packed_format();
    let a = field(&ser, |e| e.serialize_u8(7));
    let mut st = ser.serialize_struct();
    st.skip_field_inner("zero");
    st.serialize_field_inner("one", &a);
    assert_eq!(st.end_inner().into_inner(), hex("a10107"));
}

#[test]
fn enum_representations() {
    let mut s = sub();
    s.serialize_unit_variant(1, "Blue");
    assert_eq!(s.into_inner(), hex("64426c7565"));

    let mut s = sub();
    s.serialize_newtype_variant(3, "Other", &hex("182a"));
    assert_eq!(s.into_inner(), hex("a1654f74686572182a"));

    let mut s = sub();
    s.serialize_tuple_variant(4, "Alpha", 2);
    s.serialize_u64(234567);
    s.serialize_u8(60);
    assert_eq!(s.into_inner(), hex("a165416c706861821a00039447183c"));

    let mut s = sub().legacy_enums();
    s.serialize_newtype_variant(3, "Other", &hex("182a"));
    assert_eq!(s.into_inner(), hex("82654f74686572182a"));

    let mut s = sub().legacy_enums();
    s.serialize_tuple_variant(4, "Alpha", 2);
    s.serialize_u64(234567);
    s.serialize_u8(60);
    assert_eq!(s.into_inner(), hex("8365416c7068611a00039447183c"));

    let mut s = sub().packed_format().legacy_enums();
    s.serialize_unit_variant(1, "Blue");
    assert_eq!(s.into_inner(), hex("01"));

    let ser = sub().legacy_enums();
    let x = field(&ser, |e| e.serialize_i32(5));
    let mut st = ser.serialize_struct_variant(5, "Struct");
    st.serialize_field_inner("x", &x);
    assert_eq!(st.end_inner().into_inner(), hex("8266537472756374a1617805"));
}

#[test]
fn tuple_header() {
    let mut s = sub();
    s.serialize_tuple(3);
    s.serialize_str("test");
    s.serialize_i8(-60);
    s.serialize_u16(3000);
    assert_eq!(s.into_inner(), hex("836474657374383b190bb8"));
}

#[test]
fn duplicate_keys_are_not_encoded() {
    let v = Ipld::Dict(vec![
        ("a".to_string(), Ipld::Integer(1)),
        ("a".to_string(), Ipld::Integer(2)),
    ]);
    assert_eq!(to_vec(&v).unwrap_err(), EncodeError::DuplicateKey);
}

#[test]
fn packed_value_tree_matches_plain() {
    let v = Ipld::List(vec![Ipld::Integer(1), Ipld::String("x".to_string())]);
    assert_eq!(to_vec_packed(&v).unwrap(), to_vec(&v).unwrap());
}

#[test]
fn unsorted_or_duplicate_map_keys_are_rejected() {
    assert_eq!(
        from_slice(&hex("a2616201616102")).unwrap_err(),
        DecodeError::TypeMismatch { name: Expected::KeyOrder, byte: 0x61 }
    );
    assert_eq!(
        from_slice(&hex("a2616101616102")).unwrap_err(),
        DecodeError::TypeMismatch { name: Expected::KeyOrder, byte: 0x61 }
    );
    assert_eq!(
        from_slice(&hex("a10101")).unwrap_err(),
        DecodeError::TypeMismatch { name: Expected::MapKey, byte: 0x01 }
    );
}

#[test]
fn nesting_beyond_ceiling_is_refused() {
    let depth = MAX_DEPTH as usize;
    let mut ok = vec![0x81u8; depth];
    ok.push(0x00);
    assert!(from_slice(&ok).is_ok());
    let mut deep = vec![0x81u8; depth + 1];
    deep.push(0x00);
    assert_eq!(from_slice(&deep).unwrap_err(), DecodeError::DepthLimit);
    let mut very_deep = vec![0x81u8; 1000];
    very_deep.push(0x00);
    assert_eq!(from_slice(&very_deep).unwrap_err(), DecodeError::DepthLimit);
}

#[test]
fn over_wide_integer_heads_are_accepted() {
    assert_eq!(from_slice(&hex("1b0000000000000017")).unwrap(), Ipld::Integer(23));
    assert_eq!(from_slice(&hex("780161")).unwrap(), Ipld::String("a".to_string()));
}

#[test]
fn truncated_and_reserved_input() {
    assert_eq!(from_slice(&[]).unwrap_err(), DecodeError::Eof);
    assert_eq!(from_slice(&hex("1a0001")).unwrap_err(), DecodeError::Eof);
    assert_eq!(from_slice(&hex("1c")).unwrap_err(), DecodeError::Unsupported { byte: 0x1c });
    assert_eq!(from_slice(&hex("f0")).unwrap_err(), DecodeError::Unsupported { byte: 0xf0 });
}

#[test]
fn test_f32_strict_precision_rejection() {
    fn f64_bytes(v: f64) -> Vec<u8> {
        to_vec(&Ipld::Float(v.to_bits())).expect("encoding should succeed")
    }

    // Value that loses precision when converted to f32
    let encoded = f64_bytes(0.1f64);
    let result = dagcbor::from_slice_f32(&encoded);
    assert!(result.is_err());
    if let Err(e) = result {
        assert_eq!(e, DecodeError::PrecisionLoss);
        let error_msg = e.message();
        assert!(error_msg.contains("precision"), "Expected precision error, got: {}", error_msg);
    }

    // Value that is exactly representable in f32 should work
    let encoded = f64_bytes(1.5f64);
    let result = dagcbor::from_slice_f32(&encoded);
    assert!(result.is_ok());
    assert_eq!(f32::from_bits(result.unwrap()), 1.5f32);

    // A struct holding an f32 is a map with the widened double
    let ser = Serializer::new(Vec::new());
    let mut value = ser.fresh();
    value.serialize_f32(1.5f32.to_bits()).unwrap();
    let value = value.into_inner();
    let mut st = ser.serialize_struct();
    st.serialize_field_inner("value", &value);
    let encoded = st.end_inner().into_inner();
    match from_slice(&encoded).unwrap() {
        Ipld::Dict(entries) => {
            let field = to_vec(&entries[0].1).unwrap();
            assert_eq!(dagcbor::from_slice_f32(&field).unwrap(), 1.5f32.to_bits());
        },
        other => panic!("unexpected {:?}", other),
    }

    // Negative zero should preserve sign bit and work
    let encoded = f64_bytes(-0.0f64);
    let result = dagcbor::from_slice_f32(&encoded);
    assert!(result.is_ok());
    let decoded_f32 = f32::from_bits(result.unwrap());
    assert_eq!(decoded_f32, -0.0f32);
    assert_eq!(decoded_f32.to_bits(), (-0.0f32).to_bits());
}

#[test]
fn narrowing_is_exact_or_refused() {
    let exact = [
        0.0f32,
        1.0,
        -2.5,
        f32::MAX,
        f32::MIN_POSITIVE,
        f32::from_bits(1),
        f32::from_bits(0x0040_0001),
        f32::INFINITY,
    ];
    for v in exact {
        let bits = f64::from(v).to_bits();
        assert_eq!(dagcbor::float::narrow_f64_bits(bits), Some(v.to_bits()), "{}", v);
    }
    for d in [0.1f64, 1e300, 1e-300, f64::from(f32::MAX) * 2.0, 1.0 + f64::EPSILON] {
        assert_eq!(dagcbor::float::narrow_f64_bits(d.to_bits()), None, "{}", d);
    }
    assert_eq!(
        dagcbor::from_slice_f32(&hex("f5")).unwrap_err(),
        DecodeError::TypeMismatch { name: Expected::Float, byte: 0xf5 }
    );
}

#[test]
fn first_error_in_encoding_order() {
    let nan = Ipld::Float(f64::NAN.to_bits());
    let big = Ipld::Integer(u64::MAX as i128 + 1);
    assert_eq!(to_vec(&Ipld::List(vec![Ipld::Null, nan])).unwrap_err(), EncodeError::NonFiniteFloat);
    let nan = Ipld::Float(f64::NAN.to_bits());
    assert_eq!(to_vec(&Ipld::List(vec![big, nan])).unwrap_err(), EncodeError::OutOfRange);
    let nan = Ipld::Float(f64::NAN.to_bits());
    let nested = Ipld::Dict(vec![
        ("a".to_string(), Ipld::List(vec![nan])),
        ("b".to_string(), Ipld::Integer(-(u64::MAX as i128) - 2)),
    ]);
    assert_eq!(to_vec(&nested).unwrap_err(), EncodeError::NonFiniteFloat);
    let nan = Ipld::Float(f64::NAN.to_bits());
    let dup = Ipld::Dict(vec![
        ("a".to_string(), nan),
        ("a".to_string(), Ipld::Null),
    ]);
    assert_eq!(to_vec(&dup).unwrap_err(), EncodeError::DuplicateKey);
}
