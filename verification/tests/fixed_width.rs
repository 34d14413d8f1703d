use zewif::{Blob, Blob32, HexDecodeError, HexParseError};

#[test]
fn from_hex_reads_four_bytes() {
    let blob = Blob::<4>::from_hex("01020304").unwrap();
    assert_eq!(blob.as_slice(), &[1, 2, 3, 4]);
    assert_eq!(blob.to_vec(), vec![1, 2, 3, 4]);
    assert_eq!(blob.as_bytes(), &[1u8, 2, 3, 4]);
}

#[test]
fn from_hex_refuses_a_shorter_text() {
    let outcome = Blob::<4>::from_hex("0102");
    assert_eq!(outcome, Err(HexParseError::SliceInvalid { expected: 4, actual: 2 }));
}

#[test]
fn from_hex_refuses_a_longer_text() {
    let outcome = Blob::<2>::from_hex("0102030405");
    assert_eq!(outcome, Err(HexParseError::SliceInvalid { expected: 2, actual: 5 }));
}

#[test]
fn from_hex_reads_both_cases() {
    let lower = Blob::<3>::from_hex("abcdef").unwrap();
    let upper = Blob::<3>::from_hex("ABCDEF").unwrap();
    let mixed = Blob::<3>::from_hex("aBcDeF").unwrap();
    assert_eq!(lower.as_slice(), &[0xab, 0xcd, 0xef]);
    assert_eq!(lower, upper);
    assert_eq!(lower, mixed);
}

#[test]
fn from_hex_reports_the_first_bad_digit() {
    let outcome = Blob::<4>::from_hex("01g2030z");
    assert_eq!(
        outcome,
        Err(HexParseError::HexInvalid(HexDecodeError::InvalidHexCharacter { c: 'g', index: 2 }))
    );
}

#[test]
fn from_hex_reports_an_odd_length_before_a_bad_digit() {
    assert_eq!(
        Blob::<4>::from_hex("0102030"),
        Err(HexParseError::HexInvalid(HexDecodeError::OddLength))
    );
    assert_eq!(
        Blob::<4>::from_hex("zz0"),
        Err(HexParseError::HexInvalid(HexDecodeError::OddLength))
    );
}

#[test]
fn from_hex_of_the_empty_text() {
    assert_eq!(Blob::<0>::from_hex("").unwrap().len(), 0);
    assert_eq!(
        Blob::<1>::from_hex(""),
        Err(HexParseError::SliceInvalid { expected: 1, actual: 0 })
    );
}

#[test]
fn to_hex_is_lowercase_without_prefix() {
    let blob = Blob::<5>::new([0x00, 0x0f, 0xa0, 0xff, 0x5c]);
    assert_eq!(blob.to_hex(), "000fa0ff5c");
}

#[test]
fn hex_round_trip() {
    let mut bytes = [0u8; 32];
    for (i, byte) in bytes.iter_mut().enumerate() {
        *byte = (i as u8).wrapping_mul(37).wrapping_add(11);
    }
    let blob = Blob32::new(bytes);
    assert_eq!(Blob32::from_hex(&blob.to_hex()), Ok(blob));
    let zero = Blob::<20>::default();
    assert_eq!(Blob::<20>::from_hex(&zero.to_hex()), Ok(zero));
}

#[test]
fn from_slice_enforces_the_length() {
    let source = [1u8, 2, 3, 4];
    assert_eq!(Blob::<4>::from_slice(&source).unwrap().to_vec(), source.to_vec());
    assert_eq!(
        Blob::<5>::from_slice(&source),
        Err(HexParseError::SliceInvalid { expected: 5, actual: 4 })
    );
    assert_eq!(
        Blob::<3>::from_slice(&source),
        Err(HexParseError::SliceInvalid { expected: 3, actual: 4 })
    );
    assert_eq!(
        Blob::<32>::from_slice(&[]),
        Err(HexParseError::SliceInvalid { expected: 32, actual: 0 })
    );
}

#[test]
fn from_vec_enforces_the_length() {
    assert_eq!(Blob::<2>::from_vec(vec![9, 8]).unwrap().as_slice(), &[9, 8]);
    assert_eq!(
        Blob::<2>::from_vec(vec![9, 8, 7]),
        Err(HexParseError::SliceInvalid { expected: 2, actual: 3 })
    );
}

#[test]
fn a_value_gives_its_array_back() {
    let blob = Blob::<3>::new([4, 5, 6]);
    let array: [u8; 3] = blob.into();
    assert_eq!(array, [4, 5, 6]);
}

#[test]
fn length_and_emptiness() {
    assert_eq!(Blob::<32>::default().len(), 32);
    assert!(!Blob::<32>::default().is_empty());
    assert!(Blob::<0>::default().is_empty());
}

#[test]
fn default_is_all_zero() {
    assert_eq!(Blob::<11>::default().as_slice(), &[0u8; 11]);
}

#[test]
fn single_bytes_and_ranges() {
    let blob = Blob::<6>::new([10, 20, 30, 40, 50, 60]);
    assert_eq!(blob.get(0), 10);
    assert_eq!(blob.get(5), 60);
    assert_eq!(blob.range(1, 4), &[20, 30, 40]);
    assert_eq!(blob.range(0, 6), &[10, 20, 30, 40, 50, 60]);
    assert_eq!(blob.range(3, 3), &[] as &[u8]);
}

#[test]
fn equality_is_by_content() {
    let a = Blob::<3>::new([1, 2, 3]);
    let b = Blob::<3>::from_slice(&[1, 2, 3]).unwrap();
    let c = Blob::<3>::new([1, 2, 4]);
    assert_eq!(a, b);
    assert_ne!(a, c);
    assert!(a.same_bytes(&b));
    assert!(!a.same_bytes(&c));
}
