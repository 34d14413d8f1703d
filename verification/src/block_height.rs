//! The height of a block in the chain.

use crate::codec::LeafCodec;
use crate::document::{DecodeFailure, Leaf, LeafView, Value, ValueView};
use vstd::prelude::*;

verus! {

/// The number of blocks between a block and the first one.
#[derive(Debug, Clone, Copy, PartialEq, Eq, Hash)]
pub struct BlockHeight(pub u32);

impl View for BlockHeight {
    type V = BlockHeight;

    open spec fn view(&self) -> BlockHeight {
        *self
    }
}

impl BlockHeight {
    /// The height `value`.
    pub fn from_u32(value: u32) -> (height: Self)
        ensures
            height == BlockHeight(value),
    {
        BlockHeight(value)
    }

    /// The height as a number.
    pub fn to_u32(self) -> (value: u32)
        ensures
            value == self.0,
    {
        self.0
    }
}

impl LeafCodec for BlockHeight {
    open spec fn sound(&self) -> bool {
        true
    }

    fn is_sound(&self) -> (ok: bool) {
        true
    }

    /// A height is written as its number.
    open spec fn leaf_of(value: BlockHeight) -> LeafView {
        LeafView::One(ValueView::Unsigned(value.0 as u64))
    }

    open spec fn of_leaf(leaf: LeafView) -> Result<BlockHeight, DecodeFailure> {
        match leaf {
            LeafView::One(ValueView::Unsigned(n)) => if n <= u32::MAX {
                Ok(BlockHeight(n as u32))
            } else {
                Err(DecodeFailure::OutOfRange)
            },
            _ => Err(DecodeFailure::SubjectCoercion),
        }
    }

    fn to_leaf(&self) -> (leaf: Leaf) {
        Leaf::One(Value::Unsigned(self.0 as u64))
    }

    fn from_leaf(leaf: &Leaf) -> (outcome: Result<Self, DecodeFailure>) {
        match u32::from_leaf(leaf) {
            Ok(n) => Ok(BlockHeight(n)),
            Err(failure) => Err(failure),
        }
    }

    proof fn lemma_leaf_round_trip(&self) {
    }
}

} // verus!
