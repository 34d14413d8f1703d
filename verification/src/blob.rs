//! Fixed-width binary values.

use crate::hex_text::{
    bytes_to_hex, bytes_to_hex_chars, hex_decode, hex_decoding, hex_encode,
    hex_to_bytes, lemma_hex_round_trip, HexDecodeError,
};
use vstd::prelude::*;
use vstd::slice::slice_subrange;
use vstd::string::StringSliceAdditionalSpecFns;

verus! {

/// Why a fixed-width value could not be built from its source.
#[derive(Debug, Clone, Copy, PartialEq, Eq)]
pub enum HexParseError {
    /// The source holds `actual` bytes where exactly `expected` are needed.
    SliceInvalid { expected: usize, actual: usize },
    /// The source text is not hexadecimal.
    HexInvalid(HexDecodeError),
}

/// Exactly `N` bytes.
///
/// Used for every field of fixed size: hashes, keys, diversifiers,
/// identifiers. A value is only ever built from a source of exactly `N`
/// bytes; a shorter or longer source is refused, never cut or padded.
#[derive(Debug, Clone, Copy, Eq, Hash)]
pub struct Blob<const N: usize>(pub(crate) [u8; N]);

/// A 256-bit value: a hash, a key, a commitment.
#[allow(non_camel_case_types)]
pub type u256 = Blob<32>;

/// A 20-byte value.
pub type Blob20 = Blob<20>;

/// A 32-byte value.
pub type Blob32 = Blob<32>;

/// A 64-byte value.
pub type Blob64 = Blob<64>;

impl<const N: usize> View for Blob<N> {
    type V = Seq<u8>;

    closed spec fn view(&self) -> Seq<u8> {
        self.0@
    }
}

/// The array that holds the first `filled` bytes of `bytes` and zeros after them.
pub open spec fn array_of<const N: usize>(bytes: Seq<u8>, filled: nat) -> [u8; N]
    decreases filled,
{
    if filled == 0 {
        [0u8;N]
    } else {
        vstd::array::spec_array_update(
            array_of::<N>(bytes, (filled - 1) as nat),
            filled - 1,
            bytes[filled - 1],
        )
    }
}

/// The array built from `bytes` holds them, as far as it was filled.
pub proof fn lemma_array_of<const N: usize>(bytes: Seq<u8>, filled: nat)
    requires
        filled <= N,
        filled <= bytes.len(),
    ensures
        forall|i: int| 0 <= i < filled ==> (#[trigger] array_of::<N>(bytes, filled)@[i]) == bytes[i],
    decreases filled,
{
    if filled > 0 {
        lemma_array_of::<N>(bytes, (filled - 1) as nat);
        let below = array_of::<N>(bytes, (filled - 1) as nat);
        let here = array_of::<N>(bytes, filled);
        vstd::array::axiom_spec_array_update(below, filled - 1, bytes[filled - 1]);
        assert(here@ == below@.update(filled - 1, bytes[filled - 1]));
        assert forall|i: int| 0 <= i < filled implies (#[trigger] here@[i]) == bytes[i] by {
            if i < filled - 1 {
                assert(below@[i] == bytes[i]);
            }
        }
    }
}

/// What building an `N`-byte value from `source` gives.
pub open spec fn sized_bytes(source: Seq<u8>, n: usize) -> Result<Seq<u8>, HexParseError> {
    if source.len() == n {
        Ok(source)
    } else {
        Err(HexParseError::SliceInvalid { expected: n, actual: source.len() as usize })
    }
}

/// What reading an `n`-byte value from the hexadecimal `text` gives: the
/// text must decode, and must decode to exactly `n` bytes.
pub open spec fn sized_hex(text: Seq<u8>, n: usize, outcome: Result<Seq<u8>, HexParseError>) -> bool {
    match outcome {
        Ok(bytes) => hex_decoding(text, Ok(bytes)) && bytes.len() == n,
        Err(HexParseError::HexInvalid(e)) => hex_decoding(text, Err(e)),
        Err(HexParseError::SliceInvalid { expected, actual }) => {
            &&& hex_decoding(text, Ok(hex_to_bytes(text)))
            &&& text.len() / 2 != n
            &&& expected == n
            &&& actual == text.len() / 2
        },
    }
}

/// The views of an outcome's parts.
pub open spec fn outcome_view<const N: usize>(outcome: Result<Blob<N>, HexParseError>) -> Result<
    Seq<u8>,
    HexParseError,
> {
    match outcome {
        Ok(blob) => Ok(blob@),
        Err(e) => Err(e),
    }
}

impl<const N: usize> Blob<N> {
    /// The value that holds the `N` bytes of `bytes`.
    pub closed spec fn of_bytes(bytes: Seq<u8>) -> Self {
        Blob(array_of::<N>(bytes, N as nat))
    }

    /// The value built of `N` bytes holds them.
    pub broadcast proof fn lemma_of_bytes(bytes: Seq<u8>)
        requires
            bytes.len() == N,
        ensures
            #[trigger] Self::of_bytes(bytes)@ == bytes,
    {
        lemma_array_of::<N>(bytes, N as nat);
        assert(Self::of_bytes(bytes)@ =~= bytes);
    }

    /// A value is the one built of its own bytes.
    pub proof fn lemma_is_of_bytes(self)
        ensures
            self == Self::of_bytes(self@),
    {
        Self::lemma_of_bytes(self@);
        self.lemma_equal_by_bytes(Self::of_bytes(self@));
    }

    /// A value always holds `N` bytes.
    pub broadcast proof fn lemma_len(self)
        ensures
            #[trigger] self@.len() == N,
    {
    }

    /// Two values with the same bytes are the same value.
    pub proof fn lemma_equal_by_bytes(self, other: Self)
        requires
            self@ == other@,
        ensures
            self == other,
    {
        assert(self.0 =~= other.0);
    }

    /// Wraps an array of exactly `N` bytes.
    pub fn new(data: [u8; N]) -> (blob: Self)
        ensures
            blob@ == data@,
    {
        Blob(data)
    }

    /// The number of bytes, which is `N`.
    pub fn len(&self) -> (n: usize)
        ensures
            n == N,
            n == self@.len(),
    {
        N
    }

    /// Whether the value holds no byte at all, that is whether `N` is 0.
    pub fn is_empty(&self) -> (empty: bool)
        ensures
            empty == (N == 0),
    {
        N == 0
    }

    /// A copy of the bytes.
    pub fn to_vec(&self) -> (bytes: Vec<u8>)
        ensures
            bytes@ == self@,
            bytes@.len() == N,
    {
        let mut bytes: Vec<u8> = Vec::with_capacity(N);
        let mut i: usize = 0;
        while i < N
            invariant
                i <= N,
                bytes@ == self.0@.take(i as int),
            decreases N - i,
        {
            bytes.push(self.0[i]);
            assert(self.0@.take(i + 1) =~= self.0@.take(i as int).push(self.0@[i as int]));
            i += 1;
        }
        assert(self.0@.take(N as int) =~= self.0@);
        bytes
    }

    /// The bytes as a slice.
    pub fn as_slice(&self) -> (bytes: &[u8])
        ensures
            bytes@ == self@,
    {
        self.0.as_slice()
    }

    /// The bytes as an array.
    #[verifier::when_used_as_spec(bytes)]
    pub fn as_bytes(&self) -> (bytes: &[u8; N])
        ensures
            bytes@ == self@,
            bytes == self.bytes(),
    {
        &self.0
    }

    /// The bytes as an array.
    pub closed spec fn bytes(&self) -> &[u8; N] {
        &self.0
    }

    /// The byte at `index`.
    pub fn get(&self, index: usize) -> (byte: u8)
        requires
            index < N,
        ensures
            byte == self@[index as int],
    {
        self.0[index]
    }

    /// The bytes from `start` up to, not including, `end`.
    pub fn range(&self, start: usize, end: usize) -> (bytes: &[u8])
        requires
            start <= end <= N,
        ensures
            bytes@ == self@.subrange(start as int, end as int),
    {
        slice_subrange(self.0.as_slice(), start, end)
    }

    /// Builds a value from a slice, which must hold exactly `N` bytes.
    pub fn from_slice(data: &[u8]) -> (outcome: Result<Self, HexParseError>)
        ensures
            outcome_view(outcome) == sized_bytes(data@, N),
    {
        if data.len() != N {
            return Err(HexParseError::SliceInvalid { expected: N, actual: data.len() });
        }
        let mut bytes = [0u8;N];
        let mut i: usize = 0;
        while i < N
            invariant
                i <= N,
                data@.len() == N,
                forall|j: int| 0 <= j < i ==> bytes@[j] == data@[j],
            decreases N - i,
        {
            bytes[i] = data[i];
            i += 1;
        }
        assert(bytes@ =~= data@);
        Ok(Blob(bytes))
    }

    /// Builds a value from a vector, which must hold exactly `N` bytes.
    pub fn from_vec(data: Vec<u8>) -> (outcome: Result<Self, HexParseError>)
        ensures
            outcome_view(outcome) == sized_bytes(data@, N),
    {
        Self::from_slice(data.as_slice())
    }

    /// Reads a value from hexadecimal text of either case: `2 * N` digits,
    /// with no prefix and no separators.
    ///
    /// Text that is not hexadecimal is refused with the decoder's reason.
    /// Text that decodes to another number of bytes than `N` is refused with
    /// both lengths, counted in bytes.
    pub fn from_hex(hex: &str) -> (outcome: Result<Self, HexParseError>)
        ensures
            sized_hex(hex.spec_bytes(), N, outcome_view(outcome)),
    {
        match hex_decode(hex) {
            Err(e) => Err(HexParseError::HexInvalid(e)),
            Ok(data) => {
                let decoded: usize = data.len();
                assert(decoded == hex.spec_bytes().len() / 2);
                Self::from_vec(data)
            },
        }
    }

    /// The canonical text of the value: lowercase hexadecimal, two digits
    /// per byte, no prefix, no separators.
    pub fn to_hex(&self) -> (text: String)
        ensures
            text@ == bytes_to_hex_chars(self@),
    {
        hex_encode(self.0.as_slice())
    }

    /// Whether two values hold the same bytes.
    pub fn same_bytes(&self, other: &Self) -> (same: bool)
        ensures
            same == (self@ == other@),
            same == (*self == *other),
    {
        let mut i: usize = 0;
        while i < N
            invariant
                i <= N,
                forall|j: int| 0 <= j < i ==> self.0@[j] == other.0@[j],
            decreases N - i,
        {
            if self.0[i] != other.0[i] {
                return false;
            }
            i += 1;
        }
        assert(self.0@ =~= other.0@);
        assert(self.0 =~= other.0);
        true
    }
}

impl<const N: usize> PartialEq for Blob<N> {
    fn eq(&self, other: &Self) -> (same: bool) {
        self.same_bytes(other)
    }
}

impl<const N: usize> vstd::std_specs::cmp::PartialEqSpecImpl for Blob<N> {
    open spec fn obeys_eq_spec() -> bool {
        true
    }

    open spec fn eq_spec(&self, other: &Self) -> bool {
        *self == *other
    }
}

impl<const N: usize> From<Blob<N>> for [u8; N] {
    fn from(blob: Blob<N>) -> (bytes: Self) {
        blob.0
    }
}

impl<const N: usize> vstd::std_specs::convert::FromSpecImpl<Blob<N>> for [u8; N] {
    open spec fn obeys_from_spec() -> bool {
        true
    }

    open spec fn from_spec(blob: Blob<N>) -> Self {
        *blob.bytes()
    }
}

impl<const N: usize> Default for Blob<N> {
    /// The value whose bytes are all zero.
    fn default() -> (blob: Self)
        ensures
            blob@ == Seq::new(N as nat, |i: int| 0u8),
            blob == Self::of_bytes(Seq::new(N as nat, |i: int| 0u8)),
    {
        let bytes = [0u8;N];
        proof {
            vstd::array::axiom_spec_array_fill_for_copy_type::<u8, N>(0u8);
            assert forall|i: int| 0 <= i < N implies bytes@[i] == 0u8 by {}
            assert(bytes@ =~= Seq::new(N as nat, |i: int| 0u8));
        }
        let blob = Blob(bytes);
        proof {
            blob.lemma_is_of_bytes();
        }
        blob
    }
}

/// Reading back the canonical text of a value gives the value: whatever
/// `from_hex` answers on the text that `to_hex` wrote for `N` bytes, it is
/// those bytes.
pub proof fn lemma_hex_text_round_trip(
    data: Seq<u8>,
    n: usize,
    text: &str,
    outcome: Result<Seq<u8>, HexParseError>,
)
    requires
        data.len() == n,
        text@ == bytes_to_hex_chars(data),
        sized_hex(text.spec_bytes(), n, outcome),
    ensures
        outcome == Ok::<Seq<u8>, HexParseError>(data),
{
    lemma_hex_round_trip(data);
    lemma_hex_text_bytes(data, text);
}

/// The UTF-8 bytes of the canonical text are its digits, one byte each.
pub proof fn lemma_hex_text_bytes(data: Seq<u8>, text: &str)
    requires
        text@ == bytes_to_hex_chars(data),
    ensures
        text.spec_bytes() == bytes_to_hex(data),
{
    broadcast use vstd::string::is_ascii_spec_bytes;

    let digits = bytes_to_hex(data);
    assert forall|i: int| 0 <= i < text@.len() implies (text@[i] as u32) < 128 && text@[i] as u8
        == digits[i] by {
        let d = digits[i];
        let b = data[i / 2] as int;
        assert(d as int <= 0x66);
    }
    assert(vstd::string::is_ascii(text)) by {
        reveal(vstd::utf8::is_ascii_chars);
    }
    assert(text.spec_bytes() =~= digits);
}

/// Building from a source of another length than `N` always fails, and the
/// failure names `N` as expected and the source's length as actual.
pub proof fn lemma_length_enforced(source: Seq<u8>, n: usize)
    requires
        source.len() != n,
        source.len() <= usize::MAX,
    ensures
        sized_bytes(source, n) == Err::<Seq<u8>, HexParseError>(
            HexParseError::SliceInvalid { expected: n, actual: source.len() as usize },
        ),
{
}

} // verus!
