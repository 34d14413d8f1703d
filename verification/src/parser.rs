//! The streaming binary decoder: a cursor over a byte buffer with typed
//! reads that advance it only when they succeed.

use crate::blob::Blob;
use vstd::prelude::*;
use vstd::slice::slice_subrange;

verus! {

/// Why a read failed.
#[derive(Debug, Clone, Copy, PartialEq, Eq)]
pub enum ParseFailure {
    /// The read needs `needed` bytes and only `remaining` are left.
    BufferUnderrun { needed: usize, remaining: usize },
    /// `value` is none of the values that the field may take.
    InvalidDiscriminant { value: u64 },
    /// `value` does not fit the type of the field.
    NumericOverflow { value: u64 },
    /// `value` was written in a wider form than it needs.
    NonCanonical { value: u64 },
}

/// A failed read together with the names of the fields that were being
/// read, the innermost first. The decoder itself names nothing: each
/// caller adds the name of the field it was after.
#[derive(Debug, Clone, PartialEq, Eq)]
pub struct ParseError {
    pub failure: ParseFailure,
    pub fields: Vec<String>,
}

/// The mathematical content of a `ParseError`.
pub ghost struct ParseErrorView {
    pub failure: ParseFailure,
    pub fields: Seq<Seq<char>>,
}

/// The field names as sequences of characters.
pub open spec fn names_view(names: Seq<String>) -> Seq<Seq<char>> {
    names.map_values(|name: String| name@)
}

impl View for ParseError {
    type V = ParseErrorView;

    open spec fn view(&self) -> ParseErrorView {
        ParseErrorView { failure: self.failure, fields: names_view(self.fields@) }
    }
}

impl ParseError {
    /// A failure met while reading the field `field`.
    pub fn new(failure: ParseFailure, field: &str) -> (error: Self)
        ensures
            error@ == (ParseErrorView { failure, fields: seq![field@] }),
    {
        let mut fields: Vec<String> = Vec::new();
        fields.push(field.to_owned());
        assert(names_view(fields@) =~= seq![field@]);
        ParseError { failure, fields }
    }

    /// The same failure, met while reading `field`, which holds the fields
    /// named so far.
    pub fn context(self, field: &str) -> (error: Self)
        ensures
            error@ == (ParseErrorView { failure: self@.failure, fields: self@.fields.push(field@) }),
    {
        let ghost before = self.fields@;
        let mut fields = self.fields;
        fields.push(field.to_owned());
        assert(names_view(fields@) =~= names_view(before).push(field@));
        ParseError { failure: self.failure, fields }
    }
}

/// The number that `width` bytes of `bytes`, from `at` on, write with the
/// least significant byte first.
pub open spec fn le_value(bytes: Seq<u8>, at: int, width: nat) -> nat
    decreases width,
{
    if width == 0 {
        0
    } else {
        bytes[at] as nat + 256 * le_value(bytes, at + 1, (width - 1) as nat)
    }
}

/// The `width` bytes that write `value` with the least significant first.
pub open spec fn le_bytes(value: nat, width: nat) -> Seq<u8>
    decreases width,
{
    if width == 0 {
        Seq::empty()
    } else {
        seq![(value % 256) as u8] + le_bytes(value / 256, (width - 1) as nat)
    }
}

/// 256 to the power `width`.
pub open spec fn radix_power(width: nat) -> nat
    decreases width,
{
    if width == 0 {
        1
    } else {
        256 * radix_power((width - 1) as nat)
    }
}

/// The compact-size form of `n`: one byte below 253, else a marker byte
/// and the least number of 2, 4 or 8 little-endian bytes that hold `n`.
pub open spec fn compact_size_bytes(n: u64) -> Seq<u8> {
    if n < 253 {
        seq![n as u8]
    } else if n <= 0xffff {
        seq![0xfdu8] + le_bytes(n as nat, 2)
    } else if n <= 0xffff_ffff {
        seq![0xfeu8] + le_bytes(n as nat, 4)
    } else {
        seq![0xffu8] + le_bytes(n as nat, 8)
    }
}

/// How many bytes follow the marker byte `marker`.
pub open spec fn compact_size_payload(marker: u8) -> nat {
    if marker < 253 {
        0
    } else if marker == 0xfd {
        2
    } else if marker == 0xfe {
        4
    } else {
        8
    }
}

/// The least value that the form chosen by `marker` is for.
pub open spec fn compact_size_floor(marker: u8) -> nat {
    if marker < 253 {
        0
    } else if marker == 0xfd {
        253
    } else if marker == 0xfe {
        0x1_0000
    } else {
        0x1_0000_0000
    }
}

/// What reading a compact size from the start of `input` gives: the value
/// and the number of bytes it took, or the reason why there is none. A
/// value in a wider form than it needs is refused.
pub open spec fn compact_size_read(input: Seq<u8>) -> Result<(u64, nat), ParseFailure> {
    if input.len() == 0 {
        Err(ParseFailure::BufferUnderrun { needed: 1, remaining: 0 })
    } else {
        let marker = input[0];
        let width = compact_size_payload(marker);
        if marker < 253 {
            Ok((marker as u64, 1))
        } else if input.len() - 1 < width {
            Err(
                ParseFailure::BufferUnderrun {
                    needed: width as usize,
                    remaining: (input.len() - 1) as usize,
                },
            )
        } else {
            let value = le_value(input, 1, width);
            if value < compact_size_floor(marker) {
                Err(ParseFailure::NonCanonical { value: value as u64 })
            } else {
                Ok((value as u64, 1 + width))
            }
        }
    }
}

/// A cursor over a byte buffer.
#[derive(Debug, Clone)]
pub struct Parser<'a> {
    buffer: &'a [u8],
    offset: usize,
}

/// The mathematical content of a `Parser`.
pub ghost struct ParserView {
    /// All the bytes, read or not.
    pub buffer: Seq<u8>,
    /// How many of them have been read.
    pub offset: nat,
}

impl ParserView {
    /// The bytes that have not been read yet.
    pub open spec fn rest(self) -> Seq<u8> {
        self.buffer.skip(self.offset as int)
    }

    /// The cursor after `n` more bytes.
    pub open spec fn advance(self, n: nat) -> Self {
        ParserView { offset: self.offset + n, ..self }
    }
}

impl<'a> View for Parser<'a> {
    type V = ParserView;

    closed spec fn view(&self) -> ParserView {
        ParserView { buffer: self.buffer@, offset: self.offset as nat }
    }
}

/// What a read leaves behind: on success the cursor has moved past the
/// `consumed` bytes, on failure it has not moved.
pub open spec fn reads<T>(
    before: ParserView,
    after: ParserView,
    outcome: Result<T, ParseFailure>,
    expected: Result<(T, nat), ParseFailure>,
) -> bool {
    match expected {
        Ok((value, consumed)) => outcome == Ok::<T, ParseFailure>(value) && after == before.advance(
            consumed,
        ),
        Err(failure) => outcome == Err::<T, ParseFailure>(failure) && after == before,
    }
}

/// What reading `width` bytes as a little-endian number gives.
pub open spec fn fixed_read(input: Seq<u8>, width: nat) -> Result<(nat, nat), ParseFailure> {
    if input.len() < width {
        Err(ParseFailure::BufferUnderrun { needed: width as usize, remaining: input.len() as usize })
    } else {
        Ok((le_value(input, 0, width), width))
    }
}

impl<'a> Parser<'a> {
    /// The cursor stands inside the buffer or at its end.
    pub closed spec fn wf(&self) -> bool {
        self.offset <= self.buffer@.len()
    }

    /// What `wf` means for the view.
    pub broadcast proof fn lemma_wf(&self)
        requires
            #[trigger] self.wf(),
        ensures
            self@.offset <= self@.buffer.len(),
    {
    }

    /// A cursor at the start of `buffer`.
    pub fn new(buffer: &'a [u8]) -> (parser: Self)
        ensures
            parser.wf(),
            parser@ == (ParserView { buffer: buffer@, offset: 0 }),
    {
        Parser { buffer, offset: 0 }
    }

    /// The length of the whole buffer.
    pub fn len(&self) -> (n: usize)
        ensures
            n == self@.buffer.len(),
    {
        self.buffer.len()
    }

    /// Whether the buffer holds no byte at all.
    pub fn is_empty(&self) -> (empty: bool)
        ensures
            empty == (self@.buffer.len() == 0),
    {
        self.buffer.len() == 0
    }

    /// How many bytes have been read.
    pub fn offset(&self) -> (n: usize)
        ensures
            n == self@.offset,
    {
        self.offset
    }

    /// How many bytes are left to read.
    pub fn remaining(&self) -> (n: usize)
        requires
            self.wf(),
        ensures
            n == self@.rest().len(),
            n == self@.buffer.len() - self@.offset,
    {
        self.buffer.len() - self.offset
    }

    /// Reads the next `n` bytes.
    pub fn next(&mut self, n: usize) -> (outcome: Result<&'a [u8], ParseFailure>)
        requires
            old(self).wf(),
        ensures
            final(self).wf(),
            match outcome {
                Ok(bytes) => {
                    &&& n <= old(self)@.rest().len()
                    &&& bytes@ == old(self)@.rest().take(n as int)
                    &&& final(self)@ == old(self)@.advance(n as nat)
                },
                Err(failure) => {
                    &&& n > old(self)@.rest().len()
                    &&& failure == (ParseFailure::BufferUnderrun {
                        needed: n,
                        remaining: old(self)@.rest().len() as usize,
                    })
                    &&& final(self)@ == old(self)@
                },
            },
    {
        let remaining = self.buffer.len() - self.offset;
        if n > remaining {
            return Err(ParseFailure::BufferUnderrun { needed: n, remaining });
        }
        let bytes = slice_subrange(self.buffer, self.offset, self.offset + n);
        assert(bytes@ =~= self@.rest().take(n as int));
        self.offset = self.offset + n;
        Ok(bytes)
    }

    /// Reads `width` bytes, at most 8, as a little-endian number.
    fn read_le(&mut self, width: usize) -> (outcome: Result<u64, ParseFailure>)
        requires
            old(self).wf(),
            width <= 8,
        ensures
            final(self).wf(),
            match outcome {
                Ok(value) => {
                    &&& fixed_read(old(self)@.rest(), width as nat) == Ok::<
                        (nat, nat),
                        ParseFailure,
                    >((value as nat, width as nat))
                    &&& final(self)@ == old(self)@.advance(width as nat)
                },
                Err(failure) => {
                    &&& fixed_read(old(self)@.rest(), width as nat) == Err::<
                        (nat, nat),
                        ParseFailure,
                    >(failure)
                    &&& final(self)@ == old(self)@
                },
            },
    {
        let ghost rest = self@.rest();
        let bytes = match self.next(width) {
            Ok(bytes) => bytes,
            Err(failure) => {
                return Err(failure);
            },
        };
        let mut value: u64 = 0;
        let mut i: usize = width;
        proof {
            lemma_le_value_bound(bytes@, width as int, 0);
        }
        while i > 0
            invariant
                i <= width <= 8,
                bytes@.len() == width,
                value == le_value(bytes@, i as int, (width - i) as nat),
                value < radix_power((width - i) as nat),
            decreases i,
        {
            i -= 1;
            proof {
                lemma_radix_powers();
                lemma_le_value_bound(bytes@, i as int, (width - i) as nat);
                lemma_le_value_bound(bytes@, i + 1, (width - i - 1) as nat);
            }
            value = value * 256 + bytes[i] as u64;
        }
        proof {
            lemma_le_value_window(rest, bytes@, 0, width as nat);
        }
        Ok(value)
    }

    /// Reads one byte.
    pub fn read_u8(&mut self) -> (outcome: Result<u8, ParseFailure>)
        requires
            old(self).wf(),
        ensures
            final(self).wf(),
            reads(
                old(self)@,
                final(self)@,
                outcome,
                match fixed_read(old(self)@.rest(), 1) {
                    Ok((value, consumed)) => Ok((value as u8, consumed)),
                    Err(failure) => Err(failure),
                },
            ),
    {
        proof {
            lemma_radix_powers();
            lemma_le_value_bound(self@.rest(), 0, 1);
        }
        match self.read_le(1) {
            Ok(value) => Ok(value as u8),
            Err(failure) => Err(failure),
        }
    }

    /// Reads a 16-bit number, least significant byte first.
    pub fn read_u16(&mut self) -> (outcome: Result<u16, ParseFailure>)
        requires
            old(self).wf(),
        ensures
            final(self).wf(),
            reads(
                old(self)@,
                final(self)@,
                outcome,
                match fixed_read(old(self)@.rest(), 2) {
                    Ok((value, consumed)) => Ok((value as u16, consumed)),
                    Err(failure) => Err(failure),
                },
            ),
    {
        proof {
            lemma_radix_powers();
            lemma_le_value_bound(self@.rest(), 0, 2);
        }
        match self.read_le(2) {
            Ok(value) => Ok(value as u16),
            Err(failure) => Err(failure),
        }
    }

    /// Reads a 32-bit number, least significant byte first.
    pub fn read_u32(&mut self) -> (outcome: Result<u32, ParseFailure>)
        requires
            old(self).wf(),
        ensures
            final(self).wf(),
            reads(
                old(self)@,
                final(self)@,
                outcome,
                match fixed_read(old(self)@.rest(), 4) {
                    Ok((value, consumed)) => Ok((value as u32, consumed)),
                    Err(failure) => Err(failure),
                },
            ),
    {
        proof {
            lemma_radix_powers();
            lemma_le_value_bound(self@.rest(), 0, 4);
        }
        match self.read_le(4) {
            Ok(value) => Ok(value as u32),
            Err(failure) => Err(failure),
        }
    }

    /// Reads a 64-bit number, least significant byte first.
    pub fn read_u64(&mut self) -> (outcome: Result<u64, ParseFailure>)
        requires
            old(self).wf(),
        ensures
            final(self).wf(),
            reads(
                old(self)@,
                final(self)@,
                outcome,
                match fixed_read(old(self)@.rest(), 8) {
                    Ok((value, consumed)) => Ok((value as u64, consumed)),
                    Err(failure) => Err(failure),
                },
            ),
    {
        proof {
            lemma_radix_powers();
            lemma_le_value_bound(self@.rest(), 0, 8);
        }
        self.read_le(8)
    }

    /// Reads the next `N` bytes as a fixed-width value.
    pub fn read_blob<const N: usize>(&mut self) -> (outcome: Result<Blob<N>, ParseFailure>)
        requires
            old(self).wf(),
        ensures
            final(self).wf(),
            match outcome {
                Ok(blob) => {
                    &&& N <= old(self)@.rest().len()
                    &&& blob@ == old(self)@.rest().take(N as int)
                    &&& final(self)@ == old(self)@.advance(N as nat)
                },
                Err(failure) => {
                    &&& N > old(self)@.rest().len()
                    &&& failure == (ParseFailure::BufferUnderrun {
                        needed: N,
                        remaining: old(self)@.rest().len() as usize,
                    })
                    &&& final(self)@ == old(self)@
                },
            },
    {
        let bytes = match self.next(N) {
            Ok(bytes) => bytes,
            Err(failure) => {
                return Err(failure);
            },
        };
        match Blob::from_slice(bytes) {
            Ok(blob) => Ok(blob),
            Err(_) => vstd::pervasive::unreached(),
        }
    }

    /// Reads a compact size: a marker byte that is the value itself below
    /// 253, or that says whether 2, 4 or 8 little-endian bytes follow. A
    /// value written in a wider form than it needs is refused.
    pub fn read_compact_size(&mut self) -> (outcome: Result<u64, ParseFailure>)
        requires
            old(self).wf(),
        ensures
            final(self).wf(),
            reads(old(self)@, final(self)@, outcome, compact_size_read(old(self)@.rest())),
    {
        let ghost input = self@.rest();
        let start = self.offset;
        proof {
            lemma_radix_powers();
            lemma_le_value_bound(input, 0, 1);
            reveal_with_fuel(le_value, 2);
        }
        let marker = match self.read_u8() {
            Ok(marker) => marker,
            Err(failure) => {
                return Err(failure);
            },
        };
        assert(marker == input[0]);
        if marker < 253 {
            return Ok(marker as u64);
        }
        let (width, floor): (usize, u64) = if marker == 0xfd {
            (2, 253)
        } else if marker == 0xfe {
            (4, 0x1_0000)
        } else {
            (8, 0x1_0000_0000)
        };
        proof {
            assert(self@.rest() =~= input.skip(1));
            if 1 + width <= input.len() {
                lemma_le_value_shift(input, 1, 0, width as nat);
            }
            lemma_le_value_bound(input, 1, width as nat);
        }
        match self.read_le(width) {
            Err(failure) => {
                self.offset = start;
                Err(failure)
            },
            Ok(value) => {
                if value < floor {
                    self.offset = start;
                    Err(ParseFailure::NonCanonical { value })
                } else {
                    Ok(value)
                }
            },
        }
    }

    /// Reads a compact size that must fit in 32 bits.
    pub fn read_compact_u32(&mut self) -> (outcome: Result<u32, ParseFailure>)
        requires
            old(self).wf(),
        ensures
            final(self).wf(),
            reads(
                old(self)@,
                final(self)@,
                outcome,
                match compact_size_read(old(self)@.rest()) {
                    Ok((value, consumed)) => if value <= u32::MAX {
                        Ok((value as u32, consumed))
                    } else {
                        Err(ParseFailure::NumericOverflow { value })
                    },
                    Err(failure) => Err(failure),
                },
            ),
    {
        let start = self.offset;
        match self.read_compact_size() {
            Err(failure) => Err(failure),
            Ok(value) => {
                if value > u32::MAX as u64 {
                    self.offset = start;
                    Err(ParseFailure::NumericOverflow { value })
                } else {
                    Ok(value as u32)
                }
            },
        }
    }

    /// Reads a compact size that names one of `count` variants, numbered
    /// from 0.
    pub fn read_discriminant(&mut self, count: u64) -> (outcome: Result<u64, ParseFailure>)
        requires
            old(self).wf(),
        ensures
            final(self).wf(),
            reads(
                old(self)@,
                final(self)@,
                outcome,
                match compact_size_read(old(self)@.rest()) {
                    Ok((value, consumed)) => if value < count {
                        Ok((value, consumed))
                    } else {
                        Err(ParseFailure::InvalidDiscriminant { value })
                    },
                    Err(failure) => Err(failure),
                },
            ),
    {
        let start = self.offset;
        match self.read_compact_size() {
            Err(failure) => Err(failure),
            Ok(value) => {
                if value >= count {
                    self.offset = start;
                    Err(ParseFailure::InvalidDiscriminant { value })
                } else {
                    Ok(value)
                }
            },
        }
    }

    /// Reads a compact size that must fit a length on this machine.
    pub fn read_compact_usize(&mut self) -> (outcome: Result<usize, ParseFailure>)
        requires
            old(self).wf(),
        ensures
            final(self).wf(),
            reads(
                old(self)@,
                final(self)@,
                outcome,
                match compact_size_read(old(self)@.rest()) {
                    Ok((value, consumed)) => if value <= usize::MAX {
                        Ok((value as usize, consumed))
                    } else {
                        Err(ParseFailure::NumericOverflow { value })
                    },
                    Err(failure) => Err(failure),
                },
            ),
    {
        let start = self.offset;
        match self.read_compact_size() {
            Err(failure) => Err(failure),
            Ok(value) => {
                if value > usize::MAX as u64 {
                    self.offset = start;
                    Err(ParseFailure::NumericOverflow { value })
                } else {
                    Ok(value as usize)
                }
            },
        }
    }
}

/// Writes `value` on `width` bytes, at most 8, least significant first.
fn write_le(value: u64, width: usize, out: &mut Vec<u8>)
    requires
        width <= 8,
    ensures
        final(out)@ == old(out)@ + le_bytes(value as nat, width as nat),
{
    let mut left = value;
    let mut i: usize = 0;
    assert(old(out)@ + le_bytes(value as nat, width as nat) =~= old(out)@ + le_bytes(
        left as nat,
        (width - i) as nat,
    ));
    while i < width
        invariant
            i <= width <= 8,
            old(out)@ + le_bytes(value as nat, width as nat) == out@ + le_bytes(
                left as nat,
                (width - i) as nat,
            ),
        decreases width - i,
    {
        let ghost before = out@;
        let ghost tail = le_bytes((left / 256) as nat, (width - i - 1) as nat);
        out.push((left % 256) as u8);
        assert(before + (seq![(left % 256) as u8] + tail) =~= out@ + tail);
        left = left / 256;
        i += 1;
    }
    assert(out@ + le_bytes(left as nat, 0) =~= out@);
}

/// Appends the compact-size form of `n` to `out`.
pub fn write_compact_size(n: u64, out: &mut Vec<u8>)
    ensures
        final(out)@ == old(out)@ + compact_size_bytes(n),
{
    let ghost before = out@;
    if n < 253 {
        out.push(n as u8);
        assert(out@ =~= before + compact_size_bytes(n));
    } else {
        let (marker, width): (u8, usize) = if n <= 0xffff {
            (0xfd, 2)
        } else if n <= 0xffff_ffff {
            (0xfe, 4)
        } else {
            (0xff, 8)
        };
        out.push(marker);
        write_le(n, width, out);
        assert(out@ =~= before + compact_size_bytes(n));
    }
}

/// The compact-size form of `n`.
pub fn compact_size(n: u64) -> (bytes: Vec<u8>)
    ensures
        bytes@ == compact_size_bytes(n),
{
    let mut bytes: Vec<u8> = Vec::new();
    write_compact_size(n, &mut bytes);
    assert(Seq::<u8>::empty() + compact_size_bytes(n) =~= compact_size_bytes(n));
    bytes
}

/// Reading a number at `at` in what is left after `skipped` bytes is
/// reading it at `skipped + at` in the whole.
pub proof fn lemma_le_value_shift(input: Seq<u8>, skipped: int, at: int, width: nat)
    requires
        0 <= skipped,
        0 <= at,
        skipped + at + width <= input.len(),
    ensures
        le_value(input.skip(skipped), at, width) == le_value(input, skipped + at, width),
    decreases width,
{
    if width > 0 {
        lemma_le_value_shift(input, skipped, at + 1, (width - 1) as nat);
    }
}

/// The bytes written for a number are `width` many.
pub proof fn lemma_le_bytes_len(value: nat, width: nat)
    ensures
        le_bytes(value, width).len() == width,
    decreases width,
{
    if width > 0 {
        lemma_le_bytes_len(value / 256, (width - 1) as nat);
    }
}

/// A number that fits on `width` bytes is read back from the bytes
/// written for it, wherever they stand.
pub proof fn lemma_le_round_trip(value: nat, width: nat, before: Seq<u8>, after: Seq<u8>)
    requires
        value < radix_power(width),
    ensures
        le_value(before + le_bytes(value, width) + after, before.len() as int, width) == value,
    decreases width,
{
    if width > 0 {
        let low = seq![(value % 256) as u8];
        let high = le_bytes(value / 256, (width - 1) as nat);
        lemma_le_bytes_len(value / 256, (width - 1) as nat);
        lemma_le_round_trip(value / 256, (width - 1) as nat, before + low, after);
        assert(before + le_bytes(value, width) + after =~= (before + low) + high + after);
        assert((before + low + high + after)[before.len() as int] == (value % 256) as u8);
    }
}

/// The bytes that a number is read from are the bytes written for it.
pub proof fn lemma_le_bytes_of_value(input: Seq<u8>, at: int, width: nat)
    requires
        0 <= at,
        at + width <= input.len(),
    ensures
        le_bytes(le_value(input, at, width), width) == input.subrange(at, at + width),
    decreases width,
{
    if width > 0 {
        lemma_le_bytes_of_value(input, at + 1, (width - 1) as nat);
        let value = le_value(input, at, width);
        assert(value % 256 == input[at] as nat);
        assert(value / 256 == le_value(input, at + 1, (width - 1) as nat));
        assert(seq![input[at]] + input.subrange(at + 1, at + width) =~= input.subrange(
            at,
            at + width,
        ));
    } else {
        assert(input.subrange(at, at) =~= Seq::<u8>::empty());
    }
}

/// Reading the compact-size form of any 64-bit number, whatever follows
/// it, gives the number back and takes exactly the bytes of the form.
pub proof fn lemma_compact_size_round_trip(n: u64, after: Seq<u8>)
    ensures
        compact_size_read(compact_size_bytes(n) + after) == Ok::<(u64, nat), ParseFailure>(
            (n, compact_size_bytes(n).len()),
        ),
{
    lemma_radix_powers();
    let input = compact_size_bytes(n) + after;
    if n >= 253 {
        let width: nat = if n <= 0xffff {
            2
        } else if n <= 0xffff_ffff {
            4
        } else {
            8
        };
        let marker = seq![compact_size_bytes(n)[0]];
        lemma_le_bytes_len(n as nat, width);
        assert(compact_size_bytes(n) =~= marker + le_bytes(n as nat, width));
        lemma_le_round_trip(n as nat, width, marker, after);
        assert(input =~= marker + le_bytes(n as nat, width) + after);
    }
}

/// Only the compact-size form of a number reads as that number: the
/// bytes that a successful read took are the form of its value.
pub proof fn lemma_compact_size_canonical(input: Seq<u8>, n: u64, consumed: nat)
    requires
        compact_size_read(input) == Ok::<(u64, nat), ParseFailure>((n, consumed)),
    ensures
        consumed <= input.len(),
        input.take(consumed as int) == compact_size_bytes(n),
{
    lemma_radix_powers();
    let marker = input[0];
    if marker < 253 {
        assert(input.take(1) =~= seq![marker]);
    } else {
        let width = compact_size_payload(marker);
        lemma_le_value_bound(input, 1, width);
        lemma_le_bytes_of_value(input, 1, width);
        assert(input.take(consumed as int) =~= seq![marker] + input.subrange(1, 1 + width as int));
    }
}

/// The first powers of 256.
pub proof fn lemma_radix_powers()
    ensures
        radix_power(0) == 1,
        radix_power(1) == 0x100,
        radix_power(2) == 0x1_0000,
        radix_power(3) == 0x100_0000,
        radix_power(4) == 0x1_0000_0000,
        radix_power(5) == 0x100_0000_0000,
        radix_power(6) == 0x1_0000_0000_0000,
        radix_power(7) == 0x100_0000_0000_0000,
        radix_power(8) == 0x1_0000_0000_0000_0000,
{
    reveal_with_fuel(radix_power, 10);
}

/// A number written on `width` bytes is below 256 to the power `width`.
pub proof fn lemma_le_value_bound(bytes: Seq<u8>, at: int, width: nat)
    ensures
        le_value(bytes, at, width) < radix_power(width),
    decreases width,
{
    if width > 0 {
        lemma_le_value_bound(bytes, at + 1, (width - 1) as nat);
    }
}

/// The number written at the start of the unread bytes depends only on
/// the bytes it is written on.
pub proof fn lemma_le_value_window(input: Seq<u8>, window: Seq<u8>, at: int, width: nat)
    requires
        0 <= at,
        at + width <= window.len() <= input.len(),
        window == input.take(window.len() as int),
    ensures
        le_value(window, at, width) == le_value(input, at, width),
    decreases width,
{
    if width > 0 {
        lemma_le_value_window(input, window, at + 1, (width - 1) as nat);
    }
}

} // verus!
