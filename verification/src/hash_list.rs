//! Lists of 256-bit values as leaves: a list of byte strings, or of byte
//! strings and nulls where an entry may be absent.

use crate::blob::{u256, Blob};
use crate::codec::{sized_leaf, LeafCodec};
use crate::document::{DecodeFailure, Leaf, LeafView, Value, ValueView};
use vstd::prelude::*;

verus! {

/// The value that writes an entry that may be absent.
pub open spec fn optional_hash_value(entry: Option<u256>) -> ValueView {
    match entry {
        Some(hash) => ValueView::Bytes(hash@),
        None => ValueView::Null,
    }
}

/// The entry that a value writes: 32 bytes, or null for an absent one.
pub open spec fn optional_hash_of_value(value: ValueView) -> Result<Option<u256>, DecodeFailure> {
    match value {
        ValueView::Bytes(bytes) => match sized_leaf(bytes, 32) {
            Ok(bytes) => Ok(Some(u256::of_bytes(bytes))),
            Err(failure) => Err(failure),
        },
        ValueView::Null => Ok(None),
        _ => Err(DecodeFailure::SubjectCoercion),
    }
}

/// The entries that `values` write, or the failure of the first value
/// that writes none.
pub open spec fn optional_hashes_of_values(values: Seq<ValueView>) -> Result<
    Seq<Option<u256>>,
    DecodeFailure,
>
    decreases values.len(),
{
    if values.len() == 0 {
        Ok(Seq::empty())
    } else {
        match optional_hashes_of_values(values.drop_last()) {
            Ok(entries) => match optional_hash_of_value(values.last()) {
                Ok(entry) => Ok(entries.push(entry)),
                Err(failure) => Err(failure),
            },
            Err(failure) => Err(failure),
        }
    }
}

/// The entries that `values` write, none of which may be absent.
pub open spec fn hashes_of_values(values: Seq<ValueView>) -> Result<Seq<u256>, DecodeFailure>
    decreases values.len(),
{
    if values.len() == 0 {
        Ok(Seq::empty())
    } else {
        match hashes_of_values(values.drop_last()) {
            Ok(entries) => match optional_hash_of_value(values.last()) {
                Ok(Some(entry)) => Ok(entries.push(entry)),
                Ok(None) => Err(DecodeFailure::SubjectCoercion),
                Err(failure) => Err(failure),
            },
            Err(failure) => Err(failure),
        }
    }
}

/// Once a prefix fails, the whole fails in the same way.
pub proof fn lemma_optional_hashes_fail_on(values: Seq<ValueView>, i: int)
    requires
        0 <= i < values.len(),
        optional_hashes_of_values(values.take(i + 1)) is Err,
    ensures
        optional_hashes_of_values(values) == optional_hashes_of_values(values.take(i + 1)),
    decreases values.len() - i,
{
    if i + 1 < values.len() {
        assert(values.take(i + 2).drop_last() =~= values.take(i + 1));
        lemma_optional_hashes_fail_on(values, i + 1);
    } else {
        assert(values.take(i + 1) =~= values);
    }
}

/// Once a prefix fails, the whole fails in the same way.
pub proof fn lemma_hashes_fail_on(values: Seq<ValueView>, i: int)
    requires
        0 <= i < values.len(),
        hashes_of_values(values.take(i + 1)) is Err,
    ensures
        hashes_of_values(values) == hashes_of_values(values.take(i + 1)),
    decreases values.len() - i,
{
    if i + 1 < values.len() {
        assert(values.take(i + 2).drop_last() =~= values.take(i + 1));
        lemma_hashes_fail_on(values, i + 1);
    } else {
        assert(values.take(i + 1) =~= values);
    }
}

/// Reads one entry that may be absent.
fn optional_hash_from_value(value: &Value) -> (outcome: Result<Option<u256>, DecodeFailure>)
    ensures
        outcome == optional_hash_of_value(value@),
{
    match value {
        Value::Bytes(bytes) => {
            let actual = bytes.len();
            match Blob::<32>::from_slice(bytes.as_slice()) {
                Ok(hash) => {
                    proof {
                        hash.lemma_is_of_bytes();
                    }
                    Ok(Some(hash))
                },
                Err(_) => Err(DecodeFailure::LengthMismatch { expected: 32, actual }),
            }
        },
        Value::Null => Ok(None),
        _ => Err(DecodeFailure::SubjectCoercion),
    }
}

impl LeafCodec for Vec<Option<u256>> {
    open spec fn sound(&self) -> bool {
        true
    }

    fn is_sound(&self) -> (ok: bool) {
        true
    }

    /// The list is written entry by entry: 32 bytes, or null.
    open spec fn leaf_of(value: Seq<Option<u256>>) -> LeafView {
        LeafView::List(value.map_values(|entry: Option<u256>| optional_hash_value(entry)))
    }

    open spec fn of_leaf(leaf: LeafView) -> Result<Seq<Option<u256>>, DecodeFailure> {
        match leaf {
            LeafView::List(values) => optional_hashes_of_values(values),
            _ => Err(DecodeFailure::SubjectCoercion),
        }
    }

    fn to_leaf(&self) -> (leaf: Leaf) {
        let mut values: Vec<Value> = Vec::new();
        let n = self.len();
        let mut i: usize = 0;
        while i < n
            invariant
                i <= n,
                n == self@.len(),
                values@.len() == i,
                forall|j: int| 0 <= j < i ==> (#[trigger] values@[j])@ == optional_hash_value(self@[j]),
            decreases n - i,
        {
            let value = match self[i] {
                Some(hash) => Value::Bytes(hash.to_vec()),
                None => Value::Null,
            };
            values.push(value);
            i += 1;
        }
        assert(crate::document::values_view(values@) =~= self@.map_values(
            |entry: Option<u256>| optional_hash_value(entry),
        ));
        Leaf::List(values)
    }

    fn from_leaf(leaf: &Leaf) -> (outcome: Result<Self, DecodeFailure>) {
        match leaf {
            Leaf::List(values) => {
                let ghost views = crate::document::values_view(values@);
                let mut entries: Vec<Option<u256>> = Vec::new();
                let n = values.len();
                let mut i: usize = 0;
                assert(views.take(0) =~= Seq::empty());
                while i < n
                    invariant
                        i <= n,
                        n == values@.len(),
                        views == crate::document::values_view(values@),
                        leaf@ == LeafView::List(views),
                        optional_hashes_of_values(views.take(i as int)) == Ok::<
                            Seq<Option<u256>>,
                            DecodeFailure,
                        >(entries@),
                    decreases n - i,
                {
                    assert(views.take(i + 1).drop_last() =~= views.take(i as int));
                    assert(views.take(i + 1).last() == values@[i as int]@);
                    match optional_hash_from_value(&values[i]) {
                        Ok(entry) => {
                            entries.push(entry);
                        },
                        Err(failure) => {
                            proof {
                                lemma_optional_hashes_fail_on(views, i as int);
                            }
                            return Err(failure);
                        },
                    }
                    i += 1;
                }
                assert(views.take(n as int) =~= views);
                Ok(entries)
            },
            _ => Err(DecodeFailure::SubjectCoercion),
        }
    }

    proof fn lemma_leaf_round_trip(&self) {
        lemma_optional_hashes_round_trip(self@);
    }
}

/// Reading the values written for a list of entries gives the entries.
pub proof fn lemma_optional_hashes_round_trip(entries: Seq<Option<u256>>)
    ensures
        optional_hashes_of_values(
            entries.map_values(|entry: Option<u256>| optional_hash_value(entry)),
        ) == Ok::<Seq<Option<u256>>, DecodeFailure>(entries),
    decreases entries.len(),
{
    let values = entries.map_values(|entry: Option<u256>| optional_hash_value(entry));
    if entries.len() == 0 {
        assert(entries =~= Seq::empty());
    } else {
        lemma_optional_hashes_round_trip(entries.drop_last());
        assert(values.drop_last() =~= entries.drop_last().map_values(
            |entry: Option<u256>| optional_hash_value(entry),
        ));
        match entries.last() {
            Some(hash) => {
                hash.lemma_len();
                hash.lemma_is_of_bytes();
            },
            None => {},
        }
        assert(entries.drop_last().push(entries.last()) =~= entries);
    }
}

impl LeafCodec for Vec<u256> {
    open spec fn sound(&self) -> bool {
        true
    }

    fn is_sound(&self) -> (ok: bool) {
        true
    }

    /// The list is written entry by entry, each as its 32 bytes.
    open spec fn leaf_of(value: Seq<u256>) -> LeafView {
        LeafView::List(value.map_values(|entry: u256| ValueView::Bytes(entry@)))
    }

    open spec fn of_leaf(leaf: LeafView) -> Result<Seq<u256>, DecodeFailure> {
        match leaf {
            LeafView::List(values) => hashes_of_values(values),
            _ => Err(DecodeFailure::SubjectCoercion),
        }
    }

    fn to_leaf(&self) -> (leaf: Leaf) {
        let mut values: Vec<Value> = Vec::new();
        let n = self.len();
        let mut i: usize = 0;
        while i < n
            invariant
                i <= n,
                n == self@.len(),
                values@.len() == i,
                forall|j: int| 0 <= j < i ==> (#[trigger] values@[j])@ == ValueView::Bytes(self@[j]@),
            decreases n - i,
        {
            values.push(Value::Bytes(self[i].to_vec()));
            i += 1;
        }
        assert(crate::document::values_view(values@) =~= self@.map_values(
            |entry: u256| ValueView::Bytes(entry@),
        ));
        Leaf::List(values)
    }

    fn from_leaf(leaf: &Leaf) -> (outcome: Result<Self, DecodeFailure>) {
        match leaf {
            Leaf::List(values) => {
                let ghost views = crate::document::values_view(values@);
                let mut entries: Vec<u256> = Vec::new();
                let n = values.len();
                let mut i: usize = 0;
                assert(views.take(0) =~= Seq::empty());
                while i < n
                    invariant
                        i <= n,
                        n == values@.len(),
                        views == crate::document::values_view(values@),
                        leaf@ == LeafView::List(views),
                        hashes_of_values(views.take(i as int)) == Ok::<Seq<u256>, DecodeFailure>(
                            entries@,
                        ),
                    decreases n - i,
                {
                    assert(views.take(i + 1).drop_last() =~= views.take(i as int));
                    assert(views.take(i + 1).last() == values@[i as int]@);
                    match optional_hash_from_value(&values[i]) {
                        Ok(Some(entry)) => {
                            entries.push(entry);
                        },
                        Ok(None) => {
                            proof {
                                lemma_hashes_fail_on(views, i as int);
                            }
                            return Err(DecodeFailure::SubjectCoercion);
                        },
                        Err(failure) => {
                            proof {
                                lemma_hashes_fail_on(views, i as int);
                            }
                            return Err(failure);
                        },
                    }
                    i += 1;
                }
                assert(views.take(n as int) =~= views);
                Ok(entries)
            },
            _ => Err(DecodeFailure::SubjectCoercion),
        }
    }

    proof fn lemma_leaf_round_trip(&self) {
        lemma_hashes_round_trip(self@);
    }
}

/// Reading the values written for a list of entries gives the entries.
pub proof fn lemma_hashes_round_trip(entries: Seq<u256>)
    ensures
        hashes_of_values(entries.map_values(|entry: u256| ValueView::Bytes(entry@))) == Ok::<
            Seq<u256>,
            DecodeFailure,
        >(entries),
    decreases entries.len(),
{
    let values = entries.map_values(|entry: u256| ValueView::Bytes(entry@));
    if entries.len() == 0 {
        assert(entries =~= Seq::empty());
    } else {
        lemma_hashes_round_trip(entries.drop_last());
        assert(values.drop_last() =~= entries.drop_last().map_values(
            |entry: u256| ValueView::Bytes(entry@),
        ));
        entries.last().lemma_len();
        entries.last().lemma_is_of_bytes();
        assert(entries.drop_last().push(entries.last()) =~= entries);
    }
}

} // verus!
