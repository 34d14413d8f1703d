use zewif::{Amount, Blob, Leaf, LeafCodec, Value};

fn unsigned(n: u64) -> Vec<u8> {
    Value::Unsigned(n).to_cbor_data()
}

#[test]
fn unsigned_numbers_take_the_fewest_bytes() {
    assert_eq!(unsigned(0), vec![0x00]);
    assert_eq!(unsigned(1), vec![0x01]);
    assert_eq!(unsigned(23), vec![0x17]);
    assert_eq!(unsigned(24), vec![0x18, 0x18]);
    assert_eq!(unsigned(255), vec![0x18, 0xff]);
    assert_eq!(unsigned(256), vec![0x19, 0x01, 0x00]);
    assert_eq!(unsigned(65535), vec![0x19, 0xff, 0xff]);
    assert_eq!(unsigned(65536), vec![0x1a, 0x00, 0x01, 0x00, 0x00]);
    assert_eq!(unsigned(4294967295), vec![0x1a, 0xff, 0xff, 0xff, 0xff]);
    assert_eq!(unsigned(4294967296), vec![0x1b, 0, 0, 0, 1, 0, 0, 0, 0]);
    assert_eq!(unsigned(u64::MAX), vec![0x1b, 0xff, 0xff, 0xff, 0xff, 0xff, 0xff, 0xff, 0xff]);
}

#[test]
fn negative_numbers_are_written_as_their_distance_to_minus_one() {
    assert_eq!(Value::Negative(0).to_cbor_data(), vec![0x20]);
    assert_eq!(Value::Negative(2).to_cbor_data(), vec![0x22]);
    assert_eq!(Value::Negative(999).to_cbor_data(), vec![0x39, 0x03, 0xe7]);
}

#[test]
fn amounts_on_the_wire() {
    assert_eq!(Amount::from_u64(5_000_000).unwrap().to_leaf().to_cbor_data(), vec![0x1a, 0x00, 0x4c, 0x4b, 0x40]);
    assert_eq!(Amount::zero().to_leaf().to_cbor_data(), vec![0x00]);
    assert_eq!(Amount::from_i64(-1000).unwrap().to_leaf().to_cbor_data(), vec![0x39, 0x03, 0xe7]);
}

#[test]
fn byte_strings_are_written_raw() {
    assert_eq!(Value::Bytes(vec![]).to_cbor_data(), vec![0x40]);
    assert_eq!(Value::Bytes(vec![1, 2, 3]).to_cbor_data(), vec![0x43, 1, 2, 3]);
    let mut expected = vec![0x4b];
    expected.extend_from_slice(&[0u8; 11]);
    assert_eq!(Blob::<11>::default().to_leaf().to_cbor_data(), expected);
    let mut expected = vec![0x58, 0x20];
    expected.extend_from_slice(&[7u8; 32]);
    assert_eq!(Blob::<32>::new([7; 32]).to_leaf().to_cbor_data(), expected);
}

#[test]
fn texts_are_written_as_utf8() {
    assert_eq!(Value::Text(String::new()).to_cbor_data(), vec![0x60]);
    assert_eq!(Value::Text("IETF".to_string()).to_cbor_data(), vec![0x64, 0x49, 0x45, 0x54, 0x46]);
    assert_eq!(Value::Text("\u{fc}".to_string()).to_cbor_data(), vec![0x62, 0xc3, 0xbc]);
}

#[test]
fn texts_are_normalized() {
    let composed = Value::Text("\u{e9}".to_string()).to_cbor_data();
    let decomposed = Value::Text("e\u{301}".to_string()).to_cbor_data();
    assert_eq!(composed, vec![0x62, 0xc3, 0xa9]);
    assert_eq!(decomposed, composed);
}

#[test]
fn null_is_one_byte() {
    assert_eq!(Value::Null.to_cbor_data(), vec![0xf6]);
}

#[test]
fn lists_are_arrays() {
    assert_eq!(Leaf::List(vec![]).to_cbor_data(), vec![0x80]);
    assert_eq!(
        Leaf::List(vec![Value::Bytes(vec![1, 1]), Value::Null, Value::Unsigned(500)]).to_cbor_data(),
        vec![0x83, 0x42, 1, 1, 0xf6, 0x19, 0x01, 0xf4]
    );
    let long = Leaf::List(vec![Value::Unsigned(1); 25]).to_cbor_data();
    assert_eq!(&long[..2], &[0x98, 25]);
    assert_eq!(long.len(), 27);
    assert_eq!(Leaf::One(Value::Unsigned(500)).to_cbor_data(), vec![0x19, 0x01, 0xf4]);
}

#[test]
fn leaves_become_cbor_values_and_come_back() {
    let leaves = vec![
        Leaf::One(Value::Unsigned(7)),
        Leaf::One(Value::Negative(7)),
        Leaf::One(Value::Bytes(vec![1, 2, 3])),
        Leaf::One(Value::Text("text".to_string())),
        Leaf::One(Value::Null),
        Leaf::List(vec![]),
        Leaf::List(vec![Value::Bytes(vec![1]), Value::Null, Value::Unsigned(9)]),
    ];
    for leaf in leaves {
        let cbor = leaf.to_cbor();
        assert_eq!(cbor.to_cbor_data(), leaf.to_cbor_data());
        assert_eq!(Leaf::from_cbor(&cbor), Some(leaf));
    }
    assert_eq!(Leaf::One(Value::Unsigned(7)).to_cbor(), dcbor::CBOR::from(7u64));
    assert_eq!(Leaf::One(Value::Negative(6)).to_cbor(), dcbor::CBOR::from(-7i64));
    assert_eq!(Leaf::One(Value::Text("a".to_string())).to_cbor(), dcbor::CBOR::from("a"));
    assert_eq!(Leaf::One(Value::Bytes(vec![1])).to_cbor(), dcbor::CBOR::to_byte_string([1u8]));
}

#[test]
fn cbor_values_that_are_no_leaves() {
    assert_eq!(Leaf::from_cbor(&dcbor::CBOR::from(true)), None);
    assert_eq!(Leaf::from_cbor(&dcbor::CBOR::from(1.5f64)), None);
    let nested = dcbor::CBOR::from(vec![dcbor::CBOR::from(vec![1u64])]);
    assert_eq!(Leaf::from_cbor(&nested), None);
    let mixed = dcbor::CBOR::from(vec![dcbor::CBOR::from(1u64), dcbor::CBOR::from(false)]);
    assert_eq!(Leaf::from_cbor(&mixed), None);
    let flat = dcbor::CBOR::from(vec![1u64, 2, 3]);
    assert_eq!(
        Leaf::from_cbor(&flat),
        Some(Leaf::List(vec![Value::Unsigned(1), Value::Unsigned(2), Value::Unsigned(3)]))
    );
}
