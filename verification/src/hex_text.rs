//! Hexadecimal text: the digit-level model and the two calls into the `hex`
//! crate that convert between bytes and text.

use vstd::prelude::*;
use vstd::string::StringSliceAdditionalSpecFns;

verus! {

/// Why a text could not be read as hexadecimal digits.
#[derive(Debug, Clone, Copy, PartialEq, Eq)]
pub enum HexDecodeError {
    /// The byte `c` at byte offset `index` is not one of `0-9`, `a-f`, `A-F`.
    InvalidHexCharacter { c: char, index: usize },
    /// The text holds an odd number of bytes.
    OddLength,
    /// The text does not fit a container of fixed size.
    InvalidStringLength,
}

/// `b` is an ASCII hexadecimal digit of either case.
pub open spec fn is_hex_digit(b: u8) -> bool {
    ||| 0x30 <= b <= 0x39
    ||| 0x41 <= b <= 0x46
    ||| 0x61 <= b <= 0x66
}

/// The value, 0 to 15, of the hexadecimal digit `b`.
pub open spec fn hex_digit_value(b: u8) -> int {
    if 0x30 <= b <= 0x39 {
        b - 0x30
    } else if 0x41 <= b <= 0x46 {
        b - 0x41 + 10
    } else {
        b - 0x61 + 10
    }
}

/// The lowercase digit that writes the value `v`, for `v` below 16.
pub open spec fn lower_hex_digit(v: int) -> u8 {
    if v < 10 {
        (0x30 + v) as u8
    } else {
        (0x61 + v - 10) as u8
    }
}

/// Every byte of `text` is a hexadecimal digit.
pub open spec fn all_hex_digits(text: Seq<u8>) -> bool {
    forall|i: int| 0 <= i < text.len() ==> is_hex_digit(#[trigger] text[i])
}

/// The bytes that an even number of hexadecimal digits stand for: digit `2i`
/// is the high half of byte `i`, digit `2i + 1` the low half.
pub open spec fn hex_to_bytes(text: Seq<u8>) -> Seq<u8> {
    Seq::new(
        text.len() / 2,
        |i: int| (16 * hex_digit_value(text[2 * i]) + hex_digit_value(text[2 * i + 1])) as u8,
    )
}

/// The lowercase digits that write `data`, two per byte, high half first.
pub open spec fn bytes_to_hex(data: Seq<u8>) -> Seq<u8> {
    Seq::new(
        2 * data.len(),
        |i: int|
            if i % 2 == 0 {
                lower_hex_digit(data[i / 2] as int / 16)
            } else {
                lower_hex_digit(data[i / 2] as int % 16)
            },
    )
}

/// The same digits as characters, which is what a `String` of them views as.
pub open spec fn bytes_to_hex_chars(data: Seq<u8>) -> Seq<char> {
    Seq::new(2 * data.len(), |i: int| bytes_to_hex(data)[i] as char)
}

/// `index` is the offset of the first byte of `text` that is no hexadecimal digit.
pub open spec fn first_invalid_digit(text: Seq<u8>, index: int) -> bool {
    &&& 0 <= index < text.len()
    &&& !is_hex_digit(text[index])
    &&& forall|j: int| 0 <= j < index ==> is_hex_digit(#[trigger] text[j])
}

/// What decoding `text` gives: the bytes, or the first reason it is not
/// well-formed. An odd length is reported before any bad digit.
pub open spec fn hex_decoding(text: Seq<u8>, outcome: Result<Seq<u8>, HexDecodeError>) -> bool {
    match outcome {
        Ok(bytes) => text.len() % 2 == 0 && all_hex_digits(text) && bytes == hex_to_bytes(text),
        Err(HexDecodeError::OddLength) => text.len() % 2 == 1,
        Err(HexDecodeError::InvalidHexCharacter { c, index }) => {
            &&& text.len() % 2 == 0
            &&& first_invalid_digit(text, index as int)
            &&& c as u32 == text[index as int] as u32
        },
        Err(HexDecodeError::InvalidStringLength) => false,
    }
}

/// Calls `hex::decode` on the UTF-8 bytes of `text`.
///
/// Trusted: the function answers as `hex_decoding` says. It rejects an odd
/// number of bytes first, then walks the digits in order and stops at the
/// first byte outside `0-9a-fA-F`, reporting that byte and its offset;
/// otherwise each pair of digits becomes one byte, high half first. It never
/// answers `InvalidStringLength`, which belongs to fixed-size targets.
#[verifier::external_body]
pub(crate) fn hex_decode(text: &str) -> (outcome: Result<Vec<u8>, HexDecodeError>)
    ensures
        hex_decoding(
            text.spec_bytes(),
            match outcome {
                Ok(bytes) => Ok(bytes@),
                Err(e) => Err(e),
            },
        ),
{
    match hex::decode(text) {
        Ok(bytes) => Ok(bytes),
        Err(hex::FromHexError::InvalidHexCharacter { c, index }) => Err(
            HexDecodeError::InvalidHexCharacter { c, index },
        ),
        Err(hex::FromHexError::OddLength) => Err(HexDecodeError::OddLength),
        Err(hex::FromHexError::InvalidStringLength) => Err(HexDecodeError::InvalidStringLength),
    }
}

/// Calls `hex::encode` on `data`.
///
/// Trusted: the text holds two lowercase digits per byte, in order, the high
/// half of each byte first, and nothing else.
#[verifier::external_body]
pub(crate) fn hex_encode(data: &[u8]) -> (text: String)
    ensures
        text@ == bytes_to_hex_chars(data@),
{
    hex::encode(data)
}

/// A digit written for a value reads back as that value.
pub proof fn lemma_digit_round_trip(v: int)
    requires
        0 <= v < 16,
    ensures
        is_hex_digit(lower_hex_digit(v)),
        hex_digit_value(lower_hex_digit(v)) == v,
{
}

/// The digits written for `data` are all valid and read back as `data`.
pub proof fn lemma_hex_round_trip(data: Seq<u8>)
    ensures
        bytes_to_hex(data).len() == 2 * data.len(),
        all_hex_digits(bytes_to_hex(data)),
        hex_to_bytes(bytes_to_hex(data)) == data,
{
    let text = bytes_to_hex(data);
    assert forall|i: int| 0 <= i < text.len() implies is_hex_digit(#[trigger] text[i]) by {
        let b = data[i / 2] as int;
        lemma_digit_round_trip(b / 16);
        lemma_digit_round_trip(b % 16);
    }
    assert forall|i: int| 0 <= i < data.len() implies hex_to_bytes(text)[i] == data[i] by {
        let b = data[i] as int;
        lemma_digit_round_trip(b / 16);
        lemma_digit_round_trip(b % 16);
        assert((2 * i) / 2 == i && (2 * i) % 2 == 0);
        assert((2 * i + 1) / 2 == i && (2 * i + 1) % 2 == 1);
        assert(text[2 * i] == lower_hex_digit(b / 16));
        assert(text[2 * i + 1] == lower_hex_digit(b % 16));
    }
    assert(hex_to_bytes(text) =~= data);
}

} // verus!
