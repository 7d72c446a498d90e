use dagcbor::ipld::Ipld;
use dagcbor::{from_slice, from_slice_tuple, to_vec, DecodeError};

fn s(x: &str) -> Ipld {
    Ipld::String(x.to_string())
}

#[test]
fn serde() {
    let tuple_struct = Ipld::List(vec![s("test"), Ipld::Integer(-60), Ipld::Integer(3000)]);
    let tuple = Ipld::List(vec![
        s("hello"),
        Ipld::Float(f64::from(-50.004097f32).to_bits()),
        Ipld::Float((-12.094635556478f64).to_bits()),
    ]);
    let map = Ipld::Dict(vec![
        ("key1".to_string(), s("value1")),
        ("key2".to_string(), s("value2")),
        ("key3".to_string(), s("value3")),
        ("key4".to_string(), s("value4")),
    ]);
    let bytes = Ipld::Bytes(b"test byte string".to_vec());
    let array = Ipld::List(vec![s("one"), s("two"), s("three")]);
    // Map entries stand in canonical order: shorter keys first.
    let ipld = Ipld::Dict(vec![
        ("map".to_string(), map),
        ("array".to_string(), array),
        ("bytes".to_string(), bytes),
        ("tuple".to_string(), tuple),
        ("tuple_struct".to_string(), tuple_struct),
    ]);

    let data_ser = to_vec(&ipld).unwrap();
    let data_de_ipld = from_slice(&data_ser).unwrap();

    if let (Ipld::Dict(a), Ipld::Dict(b)) = (&ipld, &data_de_ipld) {
        for ((k1, v1), (k2, v2)) in a.iter().zip(b.iter()) {
            assert_eq!(k1, k2);
            assert_eq!(v1, v2);
        }
    } else {
        panic!()
    }
    assert_eq!(ipld, data_de_ipld);
}

#[test]
fn struct_with_tuple_representation() {
    let st = Ipld::List(vec![Ipld::Integer(42), Ipld::Integer(23), s("smoked")]);
    let data_ser = to_vec(&st).unwrap();
    let strt = from_slice_tuple(&data_ser, 2, 3).unwrap();
    assert_eq!(Ipld::List(strt), st);

    let data_ser = vec![0x82, 0x17, 0x18, 0x2a]; // two element array [23,42]
    let strt = from_slice_tuple(&data_ser, 2, 3).unwrap();
    assert_eq!(strt, vec![Ipld::Integer(23), Ipld::Integer(42)]);

    let data_ser = vec![0x84, 0x17, 0x18, 0x2a, 0x64, 0xf0, 0x9f, 0x91, 0x8c, 0xf4];
    let err = from_slice_tuple(&data_ser, 2, 3).unwrap_err();
    assert_eq!(err, DecodeError::RequireLength { expect: 3, value: 4 });
}

#[test]
fn round_trip_of_canonical_values() {
    let values = vec![
        Ipld::Null,
        Ipld::Bool(false),
        Ipld::Integer(-(u64::MAX as i128) - 1),
        Ipld::Integer(u64::MAX as i128),
        Ipld::Float((-0.0f64).to_bits()),
        Ipld::Float(0.1f64.to_bits()),
        s(""),
        s("\u{1F494} broken"),
        Ipld::Bytes(vec![]),
        Ipld::Bytes(vec![0, 255, 7]),
        Ipld::Link(vec![1, 0x71, 0x12, 0x20, 9]),
        Ipld::List(vec![]),
        Ipld::Dict(vec![]),
        Ipld::Dict(vec![
            ("z".to_string(), Ipld::List(vec![Ipld::Null, Ipld::Link(vec![5])])),
            ("aa".to_string(), Ipld::Dict(vec![("k".to_string(), Ipld::Bool(true))])),
        ]),
    ];
    for v in values {
        let bytes = to_vec(&v).unwrap();
        let back = from_slice(&bytes).unwrap();
        assert_eq!(back, v);
        assert_eq!(to_vec(&back).unwrap(), bytes);
    }
}

#[test]
fn reencoding_an_unordered_map_is_stable() {
    let v = Ipld::Dict(vec![
        ("bbb".to_string(), Ipld::Integer(1)),
        ("a".to_string(), Ipld::Integer(2)),
        ("cc".to_string(), Ipld::Integer(3)),
    ]);
    let bytes = to_vec(&v).unwrap();
    let back = from_slice(&bytes).unwrap();
    assert_eq!(to_vec(&back).unwrap(), bytes);
    assert_eq!(
        back,
        Ipld::Dict(vec![
            ("a".to_string(), Ipld::Integer(2)),
            ("cc".to_string(), Ipld::Integer(3)),
            ("bbb".to_string(), Ipld::Integer(1)),
        ])
    );
}

#[test]
fn trailing_data_after_a_value() {
    let mut bytes = to_vec(&Ipld::List(vec![Ipld::Integer(1)])).unwrap();
    bytes.push(0x00);
    assert_eq!(from_slice(&bytes).unwrap_err(), DecodeError::TrailingData);
}

#[test]
fn negative_zero_keeps_its_sign() {
    let bytes = to_vec(&Ipld::Float((-0.0f64).to_bits())).unwrap();
    assert_eq!(bytes, vec![0xfb, 0x80, 0, 0, 0, 0, 0, 0, 0]);
    match from_slice(&bytes).unwrap() {
        Ipld::Float(b) => assert_eq!(b, (-0.0f64).to_bits()),
        other => panic!("unexpected {:?}", other),
    }
}
