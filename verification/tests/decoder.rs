use zewif::parser::{compact_size, write_compact_size};
use zewif::{ParseFailure, Parser, ReceiverType};

fn read_back(n: u64) -> (u64, usize) {
    let mut bytes = compact_size(n);
    let width = bytes.len();
    bytes.extend_from_slice(&[0xaa, 0xbb]);
    let mut parser = Parser::new(&bytes);
    let value = parser.read_compact_size().unwrap();
    assert_eq!(parser.offset(), width);
    assert_eq!(parser.remaining(), 2);
    (value, width)
}

#[test]
fn compact_size_round_trip_at_the_boundaries() {
    assert_eq!(read_back(0), (0, 1));
    assert_eq!(read_back(1), (1, 1));
    assert_eq!(read_back(252), (252, 1));
    assert_eq!(read_back(253), (253, 3));
    assert_eq!(read_back(65535), (65535, 3));
    assert_eq!(read_back(65536), (65536, 5));
    assert_eq!(read_back(4294967295), (4294967295, 5));
    assert_eq!(read_back(4294967296), (4294967296, 9));
    assert_eq!(read_back(u64::MAX), (u64::MAX, 9));
}

#[test]
fn compact_size_bytes_are_little_endian() {
    assert_eq!(compact_size(0), vec![0x00]);
    assert_eq!(compact_size(252), vec![0xfc]);
    assert_eq!(compact_size(253), vec![0xfd, 0xfd, 0x00]);
    assert_eq!(compact_size(0x1234), vec![0xfd, 0x34, 0x12]);
    assert_eq!(compact_size(0x0001_0000), vec![0xfe, 0x00, 0x00, 0x01, 0x00]);
    assert_eq!(compact_size(0x1234_5678), vec![0xfe, 0x78, 0x56, 0x34, 0x12]);
    assert_eq!(
        compact_size(0x0102_0304_0506_0708),
        vec![0xff, 0x08, 0x07, 0x06, 0x05, 0x04, 0x03, 0x02, 0x01]
    );
}

#[test]
fn write_compact_size_appends() {
    let mut out = vec![0x42];
    write_compact_size(300, &mut out);
    write_compact_size(7, &mut out);
    assert_eq!(out, vec![0x42, 0xfd, 0x2c, 0x01, 0x07]);
}

#[test]
fn compact_size_in_a_wider_form_is_refused() {
    let cases: [(&[u8], u64); 4] = [
        (&[0xfd, 0xfc, 0x00], 252),
        (&[0xfd, 0x00, 0x00], 0),
        (&[0xfe, 0xff, 0xff, 0x00, 0x00], 65535),
        (&[0xff, 0xff, 0xff, 0xff, 0xff, 0x00, 0x00, 0x00, 0x00], 4294967295),
    ];
    for (bytes, value) in cases {
        let mut parser = Parser::new(bytes);
        assert_eq!(parser.read_compact_size(), Err(ParseFailure::NonCanonical { value }));
        assert_eq!(parser.offset(), 0);
    }
}

#[test]
fn compact_size_needs_all_its_bytes() {
    let mut parser = Parser::new(&[]);
    assert_eq!(
        parser.read_compact_size(),
        Err(ParseFailure::BufferUnderrun { needed: 1, remaining: 0 })
    );
    let bytes = [0xfe, 0x01, 0x02];
    let mut parser = Parser::new(&bytes);
    assert_eq!(
        parser.read_compact_size(),
        Err(ParseFailure::BufferUnderrun { needed: 4, remaining: 2 })
    );
    assert_eq!(parser.offset(), 0);
    let bytes = [0xff, 1, 2, 3, 4, 5, 6, 7];
    let mut parser = Parser::new(&bytes);
    assert_eq!(
        parser.read_compact_size(),
        Err(ParseFailure::BufferUnderrun { needed: 8, remaining: 7 })
    );
    assert_eq!(parser.offset(), 0);
}

#[test]
fn fixed_width_numbers_are_little_endian() {
    let bytes = [0x01, 0x02, 0x03, 0x04, 0x05, 0x06, 0x07, 0x08, 0x09, 0x0a, 0x0b, 0x0c, 0x0d, 0x0e, 0x0f];
    let mut parser = Parser::new(&bytes);
    assert_eq!(parser.len(), 15);
    assert!(!parser.is_empty());
    assert_eq!(parser.read_u8(), Ok(0x01));
    assert_eq!(parser.read_u16(), Ok(0x0302));
    assert_eq!(parser.read_u32(), Ok(0x0706_0504));
    assert_eq!(parser.read_u64(), Ok(0x0f0e_0d0c_0b0a_0908));
    assert_eq!(parser.remaining(), 0);
    assert_eq!(parser.read_u8(), Err(ParseFailure::BufferUnderrun { needed: 1, remaining: 0 }));
}

#[test]
fn a_failed_read_leaves_the_cursor() {
    let bytes = [0x01, 0x02, 0x03];
    let mut parser = Parser::new(&bytes);
    assert_eq!(parser.read_u8(), Ok(1));
    assert_eq!(parser.read_u32(), Err(ParseFailure::BufferUnderrun { needed: 4, remaining: 2 }));
    assert_eq!(parser.offset(), 1);
    assert_eq!(parser.read_u64(), Err(ParseFailure::BufferUnderrun { needed: 8, remaining: 2 }));
    assert_eq!(parser.offset(), 1);
    assert_eq!(parser.read_u16(), Ok(0x0302));
    assert_eq!(parser.offset(), 3);
}

#[test]
fn next_hands_out_the_bytes() {
    let bytes = [9u8, 8, 7, 6, 5];
    let mut parser = Parser::new(&bytes);
    assert_eq!(parser.next(2), Ok(&bytes[0..2]));
    assert_eq!(parser.next(0), Ok(&bytes[2..2]));
    assert_eq!(parser.next(4), Err(ParseFailure::BufferUnderrun { needed: 4, remaining: 3 }));
    assert_eq!(parser.next(3), Ok(&bytes[2..5]));
    assert_eq!(parser.remaining(), 0);
}

#[test]
fn read_blob_takes_exactly_its_width() {
    let bytes = [1u8, 2, 3, 4, 5];
    let mut parser = Parser::new(&bytes);
    let blob = parser.read_blob::<4>().unwrap();
    assert_eq!(blob.as_slice(), &[1, 2, 3, 4]);
    assert_eq!(parser.offset(), 4);
    assert_eq!(
        parser.read_blob::<2>(),
        Err(ParseFailure::BufferUnderrun { needed: 2, remaining: 1 })
    );
    assert_eq!(parser.offset(), 4);
}

#[test]
fn compact_size_that_does_not_fit_the_target() {
    let bytes = compact_size(4294967296);
    let mut parser = Parser::new(&bytes);
    assert_eq!(
        parser.read_compact_u32(),
        Err(ParseFailure::NumericOverflow { value: 4294967296 })
    );
    assert_eq!(parser.offset(), 0);
    let bytes = compact_size(4294967295);
    let mut parser = Parser::new(&bytes);
    assert_eq!(parser.read_compact_u32(), Ok(4294967295));
    let bytes = compact_size(70000);
    let mut parser = Parser::new(&bytes);
    assert_eq!(parser.read_compact_usize(), Ok(70000));
}

#[test]
fn discriminant_outside_the_enumeration() {
    let bytes = [0x05, 0x01];
    let mut parser = Parser::new(&bytes);
    assert_eq!(
        parser.read_discriminant(5),
        Err(ParseFailure::InvalidDiscriminant { value: 5 })
    );
    assert_eq!(parser.offset(), 0);
    assert_eq!(parser.read_discriminant(6), Ok(5));
    assert_eq!(parser.read_discriminant(6), Ok(1));
}

#[test]
fn receiver_type_parses_its_four_numbers() {
    let bytes = [0x00, 0x01, 0x02, 0x03];
    let mut parser = Parser::new(&bytes);
    assert_eq!(ReceiverType::parse(&mut parser), Ok(ReceiverType::P2PKH));
    assert_eq!(ReceiverType::parse(&mut parser), Ok(ReceiverType::P2SH));
    assert_eq!(ReceiverType::parse(&mut parser), Ok(ReceiverType::Sapling));
    assert_eq!(ReceiverType::parse(&mut parser), Ok(ReceiverType::Orchard));
    assert_eq!(parser.remaining(), 0);
}

#[test]
fn receiver_type_names_the_field_on_failure() {
    let bytes = [0x04];
    let mut parser = Parser::new(&bytes);
    let error = ReceiverType::parse(&mut parser).unwrap_err();
    assert_eq!(error.failure, ParseFailure::InvalidDiscriminant { value: 4 });
    assert_eq!(error.fields, vec!["ReceiverType".to_string()]);
    assert_eq!(parser.offset(), 0);
    let mut parser = Parser::new(&[]);
    let error = ReceiverType::parse(&mut parser).unwrap_err();
    assert_eq!(error.failure, ParseFailure::BufferUnderrun { needed: 1, remaining: 0 });
    assert_eq!(error.fields, vec!["ReceiverType".to_string()]);
    let outer = error.context("UnifiedAddress");
    assert_eq!(outer.fields, vec!["ReceiverType".to_string(), "UnifiedAddress".to_string()]);
}

#[test]
fn receiver_type_numbers() {
    assert_eq!(ReceiverType::P2PKH.number(), 0);
    assert_eq!(ReceiverType::P2SH.number(), 1);
    assert_eq!(ReceiverType::Sapling.number(), 2);
    assert_eq!(ReceiverType::Orchard.number(), 3);
}
