//! The position of a note commitment in its tree.

use crate::codec::LeafCodec;
use crate::document::{DecodeFailure, Leaf, LeafView, Value, ValueView};
use vstd::prelude::*;

verus! {

/// The index of a note commitment among the leaves of a commitment tree.
#[derive(Debug, Clone, Copy, PartialEq, Eq, Hash)]
pub struct Position(pub u32);

impl View for Position {
    type V = Position;

    open spec fn view(&self) -> Position {
        *self
    }
}

impl Position {
    /// The position with the number `value`.
    pub fn from_u32(value: u32) -> (position: Self)
        ensures
            position == Position(value),
    {
        Position(value)
    }

    /// The number of the position.
    pub fn to_u32(self) -> (value: u32)
        ensures
            value == self.0,
    {
        self.0
    }

    /// The position that the low 32 bits of `value` number.
    pub fn from_usize(value: usize) -> (position: Self)
        ensures
            position.0 == (value as int) % 0x1_0000_0000,
    {
        Position(((value as u64) % 0x1_0000_0000) as u32)
    }
}

impl From<u32> for Position {
    fn from(value: u32) -> (position: Self) {
        Position(value)
    }
}

impl vstd::std_specs::convert::FromSpecImpl<u32> for Position {
    open spec fn obeys_from_spec() -> bool {
        true
    }

    open spec fn from_spec(value: u32) -> Self {
        Position(value)
    }
}

impl From<Position> for u32 {
    fn from(position: Position) -> (value: Self) {
        position.0
    }
}

impl vstd::std_specs::convert::FromSpecImpl<Position> for u32 {
    open spec fn obeys_from_spec() -> bool {
        true
    }

    open spec fn from_spec(position: Position) -> Self {
        position.0
    }
}

impl Default for Position {
    /// The first position.
    fn default() -> (position: Self)
        ensures
            position == Position(0),
    {
        Position(0)
    }
}

impl LeafCodec for Position {
    open spec fn sound(&self) -> bool {
        true
    }

    fn is_sound(&self) -> (ok: bool) {
        true
    }

    /// A position is written as its number.
    open spec fn leaf_of(value: Position) -> LeafView {
        LeafView::One(ValueView::Unsigned(value.0 as u64))
    }

    open spec fn of_leaf(leaf: LeafView) -> Result<Position, DecodeFailure> {
        match leaf {
            LeafView::One(ValueView::Unsigned(n)) => if n <= u32::MAX {
                Ok(Position(n as u32))
            } else {
                Err(DecodeFailure::OutOfRange)
            },
            _ => Err(DecodeFailure::SubjectCoercion),
        }
    }

    fn to_leaf(&self) -> (leaf: Leaf) {
        Leaf::One(Value::Unsigned(self.0 as u64))
    }

    fn from_leaf(leaf: &Leaf) -> (outcome: Result<Self, DecodeFailure>) {
        match u32::from_leaf(leaf) {
            Ok(n) => Ok(Position(n)),
            Err(failure) => Err(failure),
        }
    }

    proof fn lemma_leaf_round_trip(&self) {
    }
}

} // verus!
