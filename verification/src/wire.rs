//! Leaves as CBOR values of the `dcbor` crate, in both directions, and
//! the bytes of a leaf on the wire: deterministic CBOR, written by that
//! crate.

use crate::document::{Leaf, LeafView, Value, ValueView};
use vstd::prelude::*;

verus! {

/// A CBOR value of the `dcbor` crate: `dcbor::CBOR`, of which nothing is
/// known here but what the functions below say.
#[verifier::external_type_specification]
#[verifier::external_body]
pub struct ExCbor(dcbor::CBOR);

/// The bytes that `dcbor` writes for a CBOR value.
pub uninterp spec fn cbor_data(cbor: dcbor::CBOR) -> Seq<u8>;

/// The CBOR value that `dcbor` builds for a value.
pub uninterp spec fn value_cbor(value: ValueView) -> dcbor::CBOR;

/// The CBOR array that `dcbor` builds of items.
pub uninterp spec fn list_cbor(items: Seq<dcbor::CBOR>) -> dcbor::CBOR;

/// What a CBOR value is found to be when it is looked into.
pub uninterp spec fn cbor_shape(cbor: dcbor::CBOR) -> CborShape;

/// What a CBOR value can be found to be: a single value of one of the
/// kinds that leaves hold, an array, or something else.
pub ghost enum CborShape {
    One(ValueView),
    Items(Seq<dcbor::CBOR>),
    Other,
}

/// What a CBOR value was found to be.
pub enum CborParts {
    /// A single value of one of the kinds that leaves hold.
    One(Value),
    /// An array of these items.
    Items(Vec<dcbor::CBOR>),
    /// A map, a tagged value, a boolean, a floating-point number.
    Other,
}

impl View for CborParts {
    type V = CborShape;

    open spec fn view(&self) -> CborShape {
        match *self {
            CborParts::One(value) => CborShape::One(value@),
            CborParts::Items(items) => CborShape::Items(items@),
            CborParts::Other => CborShape::Other,
        }
    }
}

/// The UTF-8 bytes of a text after it has been brought into Unicode
/// normalization form C, which is how `dcbor` writes every text.
pub uninterp spec fn nfc_utf8(text: Seq<char>) -> Seq<u8>;

/// The `width` bytes that write `n` with the most significant first.
pub open spec fn be_bytes(n: nat, width: nat) -> Seq<u8>
    decreases width,
{
    if width == 0 {
        Seq::empty()
    } else {
        be_bytes(n / 256, (width - 1) as nat).push((n % 256) as u8)
    }
}

/// The head of an item of major type `major` with the argument `n`: the
/// major type in the top three bits of the first byte, and the argument
/// in the fewest bytes that hold it: in the first byte itself below 24,
/// else in 1, 2, 4 or 8 bytes after it.
pub open spec fn cbor_head(major: u8, n: u64) -> Seq<u8> {
    let top = major as int * 32;
    if n < 24 {
        seq![(top + n) as u8]
    } else if n < 0x100 {
        seq![(top + 24) as u8] + be_bytes(n as nat, 1)
    } else if n < 0x1_0000 {
        seq![(top + 25) as u8] + be_bytes(n as nat, 2)
    } else if n < 0x1_0000_0000 {
        seq![(top + 26) as u8] + be_bytes(n as nat, 4)
    } else {
        seq![(top + 27) as u8] + be_bytes(n as nat, 8)
    }
}

/// The text that a value holds, if it is a text.
pub open spec fn text_of(value: ValueView) -> Seq<char> {
    match value {
        ValueView::Text(text) => text,
        _ => Seq::empty(),
    }
}

/// The bytes of a value, where `normalized` are the normalized UTF-8
/// bytes of its text, should it be one: an unsigned number is the head of
/// major type 0, a negative one of major type 1, a byte string and a text
/// follow a head that gives their length in bytes, and null is one byte.
pub open spec fn value_data(value: ValueView, normalized: Seq<u8>) -> Seq<u8> {
    match value {
        ValueView::Unsigned(n) => cbor_head(0, n),
        ValueView::Negative(n) => cbor_head(1, n),
        ValueView::Bytes(bytes) => cbor_head(2, bytes.len() as u64) + bytes,
        ValueView::Text(_) => cbor_head(3, normalized.len() as u64) + normalized,
        ValueView::Null => seq![0xf6u8],
    }
}

/// The bytes of a value.
pub open spec fn value_bytes(value: ValueView) -> Seq<u8> {
    value_data(value, nfc_utf8(text_of(value)))
}

/// The parts one after the other.
pub open spec fn joined(parts: Seq<Seq<u8>>) -> Seq<u8>
    decreases parts.len(),
{
    if parts.len() == 0 {
        Seq::empty()
    } else {
        joined(parts.drop_last()) + parts.last()
    }
}

/// The bytes of a leaf: those of its value, or for a list the head of
/// major type 4 with the number of entries, and then the entries.
pub open spec fn leaf_bytes(leaf: LeafView) -> Seq<u8> {
    match leaf {
        LeafView::One(value) => value_bytes(value),
        LeafView::List(values) => cbor_head(4, values.len() as u64) + joined(
            values.map_values(|value: ValueView| value_bytes(value)),
        ),
    }
}

/// Builds the `dcbor` value for `value`, one constructor per kind.
///
/// Trusted: the value built depends on `value` alone; looked into, it is
/// found to be `value` again; and the bytes that `dcbor` writes for it
/// are those that `value_data` gives for `value`.
#[verifier::external_body]
pub(crate) fn to_cbor(value: &Value) -> (cbor: dcbor::CBOR)
    ensures
        cbor == value_cbor(value@),
        cbor_shape(cbor) == CborShape::One(value@),
        cbor_data(cbor) == value_data(value@, nfc_utf8(text_of(value@))),
{
    match value {
        Value::Unsigned(n) => dcbor::CBORCase::Unsigned(*n).into(),
        Value::Negative(n) => dcbor::CBORCase::Negative(*n).into(),
        Value::Bytes(bytes) => dcbor::CBOR::to_byte_string(bytes),
        Value::Text(text) => dcbor::CBORCase::Text(text.clone()).into(),
        Value::Null => dcbor::CBOR::null(),
    }
}

/// Builds the `dcbor` array that holds `items`.
///
/// Trusted: the array built depends on the items alone; looked into, it
/// is found to be an array of those items; and the bytes that `dcbor`
/// writes for it are the head of major type 4 with the number of items,
/// and then the bytes of each item, in order.
#[verifier::external_body]
pub(crate) fn array_cbor(items: Vec<dcbor::CBOR>) -> (cbor: dcbor::CBOR)
    ensures
        cbor == list_cbor(items@),
        cbor_shape(cbor) == CborShape::Items(items@),
        cbor_data(cbor) == cbor_head(4, items@.len() as u64) + joined(
            items@.map_values(|item: dcbor::CBOR| cbor_data(item)),
        ),
{
    dcbor::CBORCase::Array(items).into()
}

/// Calls `dcbor::CBOR::to_cbor_data`.
///
/// Trusted: the bytes are those that the name `cbor_data` stands for.
#[verifier::external_body]
fn written(cbor: &dcbor::CBOR) -> (bytes: Vec<u8>)
    ensures
        bytes@ == cbor_data(*cbor),
{
    cbor.to_cbor_data()
}

/// Looks into a `dcbor` value: calls `dcbor::CBOR::as_case` and tells
/// the cases apart.
///
/// Trusted: what is found depends on the value alone.
#[verifier::external_body]
pub(crate) fn cbor_parts(cbor: &dcbor::CBOR) -> (parts: CborParts)
    ensures
        parts@ == cbor_shape(*cbor),
{
    match cbor.as_case() {
        dcbor::CBORCase::Unsigned(n) => CborParts::One(Value::Unsigned(*n)),
        dcbor::CBORCase::Negative(n) => CborParts::One(Value::Negative(*n)),
        dcbor::CBORCase::ByteString(bytes) => CborParts::One(Value::Bytes(bytes.to_vec())),
        dcbor::CBORCase::Text(text) => CborParts::One(Value::Text(text.clone())),
        dcbor::CBORCase::Simple(dcbor::Simple::Null) => CborParts::One(Value::Null),
        dcbor::CBORCase::Array(items) => CborParts::Items(items.clone()),
        _ => CborParts::Other,
    }
}

/// The CBOR value that is built for a leaf.
pub open spec fn leaf_cbor(leaf: LeafView) -> dcbor::CBOR {
    match leaf {
        LeafView::One(value) => value_cbor(value),
        LeafView::List(values) => list_cbor(values.map_values(|value: ValueView| value_cbor(value))),
    }
}

/// The single values that `items` are found to be, or nothing if one of
/// them is something else.
pub open spec fn values_of_items(items: Seq<dcbor::CBOR>) -> Option<Seq<ValueView>>
    decreases items.len(),
{
    if items.len() == 0 {
        Some(Seq::empty())
    } else {
        match (values_of_items(items.drop_last()), cbor_shape(items.last())) {
            (Some(values), CborShape::One(value)) => Some(values.push(value)),
            _ => None,
        }
    }
}

/// The leaf that a CBOR value is found to be: a single value, or a list
/// of single values; nothing for anything else.
pub open spec fn leaf_of_cbor(cbor: dcbor::CBOR) -> Option<LeafView> {
    match cbor_shape(cbor) {
        CborShape::One(value) => Some(LeafView::One(value)),
        CborShape::Items(items) => match values_of_items(items) {
            Some(values) => Some(LeafView::List(values)),
            None => None,
        },
        CborShape::Other => None,
    }
}

/// Items one of which is no single value are no list of single values,
/// whatever follows.
pub proof fn lemma_values_of_items_fail(items: Seq<dcbor::CBOR>, i: int)
    requires
        0 <= i < items.len(),
        values_of_items(items.take(i + 1)) is None,
    ensures
        values_of_items(items) is None,
    decreases items.len() - i,
{
    if i + 1 < items.len() {
        assert(items.take(i + 2).drop_last() =~= items.take(i + 1));
        lemma_values_of_items_fail(items, i + 1);
    } else {
        assert(items.take(i + 1) =~= items);
    }
}

impl Leaf {
    /// Builds the `dcbor` value for the leaf.
    pub fn to_cbor(&self) -> (cbor: dcbor::CBOR)
        ensures
            cbor == leaf_cbor(self@),
            leaf_of_cbor(cbor) == Some(self@),
            cbor_data(cbor) == leaf_bytes(self@),
    {
        match self {
            Leaf::One(value) => to_cbor(value),
            Leaf::List(values) => {
                let ghost views = crate::document::values_view(values@);
                let ghost parts = views.map_values(|value: ValueView| value_bytes(value));
                let mut items: Vec<dcbor::CBOR> = Vec::new();
                let n = values.len();
                let mut i: usize = 0;
                assert(views.take(0) =~= Seq::empty());
                while i < n
                    invariant
                        i <= n,
                        n == values@.len(),
                        views == crate::document::values_view(values@),
                        items@.len() == i,
                        forall|j: int|
                            0 <= j < i ==> cbor_data(#[trigger] items@[j]) == value_bytes(
                                values@[j]@,
                            ),
                        forall|j: int| 0 <= j < i ==> #[trigger] items@[j] == value_cbor(values@[j]@),
                        values_of_items(items@) == Some(views.take(i as int)),
                    decreases n - i,
                {
                    let ghost before = items@;
                    items.push(to_cbor(&values[i]));
                    assert(items@.drop_last() =~= before);
                    assert(views.take(i + 1) =~= views.take(i as int).push(values@[i as int]@));
                    i += 1;
                }
                assert(views.take(n as int) =~= views);
                assert(items@.map_values(|item: dcbor::CBOR| cbor_data(item)) =~= parts);
                assert(items@ =~= views.map_values(|value: ValueView| value_cbor(value)));
                array_cbor(items)
            },
        }
    }

    /// Reads a leaf from a `dcbor` value: a single value, or an array of
    /// single values. Anything else is no leaf.
    pub fn from_cbor(cbor: &dcbor::CBOR) -> (outcome: Option<Self>)
        ensures
            match outcome {
                Some(leaf) => leaf_of_cbor(*cbor) == Some(leaf@),
                None => leaf_of_cbor(*cbor) is None,
            },
    {
        match cbor_parts(cbor) {
            CborParts::One(value) => Some(Leaf::One(value)),
            CborParts::Items(items) => {
                let mut values: Vec<Value> = Vec::new();
                let n = items.len();
                let mut i: usize = 0;
                assert(items@.take(0) =~= Seq::empty());
                assert(crate::document::values_view(values@) =~= Seq::empty());
                while i < n
                    invariant
                        i <= n,
                        n == items@.len(),
                        cbor_shape(*cbor) == CborShape::Items(items@),
                        values_of_items(items@.take(i as int)) == Some(
                            crate::document::values_view(values@),
                        ),
                    decreases n - i,
                {
                    let ghost before = crate::document::values_view(values@);
                    assert(items@.take(i + 1).drop_last() =~= items@.take(i as int));
                    match cbor_parts(&items[i]) {
                        CborParts::One(value) => {
                            values.push(value);
                            assert(crate::document::values_view(values@) =~= before.push(value@));
                        },
                        _ => {
                            proof {
                                lemma_values_of_items_fail(items@, i as int);
                            }
                            return None;
                        },
                    }
                    i += 1;
                }
                assert(items@.take(n as int) =~= items@);
                Some(Leaf::List(values))
            },
            CborParts::Other => None,
        }
    }
}

impl Value {
    /// The bytes of the value on the wire.
    pub fn to_cbor_data(&self) -> (bytes: Vec<u8>)
        ensures
            bytes@ == value_bytes(self@),
    {
        written(&to_cbor(self))
    }
}

impl Leaf {
    /// The bytes of the leaf on the wire.
    pub fn to_cbor_data(&self) -> (bytes: Vec<u8>)
        ensures
            bytes@ == leaf_bytes(self@),
    {
        written(&self.to_cbor())
    }
}

/// The number that `bytes` write with the most significant first.
pub open spec fn be_value(bytes: Seq<u8>) -> nat
    decreases bytes.len(),
{
    if bytes.len() == 0 {
        0
    } else {
        be_value(bytes.drop_last()) * 256 + bytes.last() as nat
    }
}

/// A number is written on as many bytes as asked for, and read back from
/// them if it fits.
pub proof fn lemma_be_bytes(n: nat, width: nat)
    ensures
        be_bytes(n, width).len() == width,
        n < crate::parser::radix_power(width) ==> be_value(be_bytes(n, width)) == n,
    decreases width,
{
    if width > 0 {
        lemma_be_bytes(n / 256, (width - 1) as nat);
        assert(be_bytes(n, width).drop_last() =~= be_bytes(n / 256, (width - 1) as nat));
    }
}

/// The head takes the fewest bytes that hold its argument: one below 24,
/// else 2, 3, 5 or 9.
pub proof fn lemma_head_is_minimal(major: u8, n: u64)
    ensures
        cbor_head(major, n).len() == if n < 24 {
            1nat
        } else if n < 0x100 {
            2nat
        } else if n < 0x1_0000 {
            3nat
        } else if n < 0x1_0000_0000 {
            5nat
        } else {
            9nat
        },
{
    lemma_be_bytes(n as nat, 1);
    lemma_be_bytes(n as nat, 2);
    lemma_be_bytes(n as nat, 4);
    lemma_be_bytes(n as nat, 8);
}

/// Two numbers with the same head under one major type are one number:
/// no two values share their bytes.
pub proof fn lemma_head_is_injective(major: u8, a: u64, b: u64)
    requires
        major < 8,
        cbor_head(major, a) == cbor_head(major, b),
    ensures
        a == b,
{
    crate::parser::lemma_radix_powers();
    lemma_head_is_minimal(major, a);
    lemma_head_is_minimal(major, b);
    let width: nat = if a < 24 {
        0
    } else if a < 0x100 {
        1
    } else if a < 0x1_0000 {
        2
    } else if a < 0x1_0000_0000 {
        4
    } else {
        8
    };
    assert(cbor_head(major, a).len() == cbor_head(major, b).len());
    if a < 24 {
        assert(b < 24);
        let top = major as int * 32;
        assert(cbor_head(major, a)[0] == (top + a) as u8);
        assert(cbor_head(major, b)[0] == (top + b) as u8);
        assert(0 <= top + a < 256 && 0 <= top + b < 256);
    } else {
        lemma_be_bytes(a as nat, width);
        lemma_be_bytes(b as nat, width);
        assert(a < crate::parser::radix_power(width));
        assert(b < crate::parser::radix_power(width));
        assert(cbor_head(major, a).skip(1) =~= be_bytes(a as nat, width));
        assert(cbor_head(major, b).skip(1) =~= be_bytes(b as nat, width));
        assert(be_value(be_bytes(a as nat, width)) == be_value(be_bytes(b as nat, width)));
    }
}

} // verus!
