//! Amounts of money in the smallest unit.

use crate::codec::LeafCodec;
use crate::document::{DecodeFailure, Leaf, LeafView, Value, ValueView};
use vstd::prelude::*;

verus! {

/// The greatest amount there can be: 21 million coins of 100 million units.
pub const MAX_MONEY: i64 = 2_100_000_000_000_000;

/// An amount in the smallest unit, between `-MAX_MONEY` and `MAX_MONEY`.
#[derive(Debug, Clone, Copy, PartialEq, Eq, Hash)]
pub struct Amount(i64);

impl View for Amount {
    type V = int;

    closed spec fn view(&self) -> int {
        self.0 as int
    }
}

/// `units` is an amount that can exist.
pub open spec fn in_money_range(units: int) -> bool {
    -MAX_MONEY <= units <= MAX_MONEY
}

impl Amount {
    /// The amount lies in the range of money.
    pub closed spec fn wf(&self) -> bool {
        in_money_range(self.0 as int)
    }

    /// What `wf` says of the number of units.
    pub broadcast proof fn lemma_wf(&self)
        ensures
            #[trigger] self.wf() == in_money_range(self@),
    {
    }

    /// Two amounts of the same number of units are the same amount.
    pub proof fn lemma_equal_by_units(self, other: Self)
        requires
            self@ == other@,
        ensures
            self == other,
    {
    }

    /// No money at all.
    pub fn zero() -> (amount: Self)
        ensures
            amount@ == 0,
            amount.wf(),
    {
        Amount(0)
    }

    /// The amount of `units`, unless that is more than there can be.
    pub fn from_u64(units: u64) -> (outcome: Result<Self, DecodeFailure>)
        ensures
            match outcome {
                Ok(amount) => amount@ == units && amount.wf() && units <= MAX_MONEY,
                Err(failure) => failure == DecodeFailure::OutOfRange && units > MAX_MONEY,
            },
    {
        if units > MAX_MONEY as u64 {
            Err(DecodeFailure::OutOfRange)
        } else {
            Ok(Amount(units as i64))
        }
    }

    /// The amount of `units`, unless that lies outside the range of money.
    pub fn from_i64(units: i64) -> (outcome: Result<Self, DecodeFailure>)
        ensures
            match outcome {
                Ok(amount) => amount@ == units && amount.wf() && in_money_range(units as int),
                Err(failure) => failure == DecodeFailure::OutOfRange && !in_money_range(
                    units as int,
                ),
            },
    {
        if units < -MAX_MONEY || units > MAX_MONEY {
            Err(DecodeFailure::OutOfRange)
        } else {
            Ok(Amount(units))
        }
    }

    /// The number of units.
    pub fn to_i64(self) -> (units: i64)
        ensures
            units == self@,
    {
        self.0
    }
}

/// The amount that a number leaf writes.
pub open spec fn amount_of_leaf(leaf: LeafView) -> Result<int, DecodeFailure> {
    match leaf {
        LeafView::One(ValueView::Unsigned(n)) => if n <= MAX_MONEY {
            Ok(n as int)
        } else {
            Err(DecodeFailure::OutOfRange)
        },
        LeafView::One(ValueView::Negative(n)) => if n < MAX_MONEY {
            Ok(-1 - n)
        } else {
            Err(DecodeFailure::OutOfRange)
        },
        _ => Err(DecodeFailure::SubjectCoercion),
    }
}

impl LeafCodec for Amount {
    open spec fn sound(&self) -> bool {
        self.wf()
    }

    fn is_sound(&self) -> (ok: bool) {
        -MAX_MONEY <= self.0 && self.0 <= MAX_MONEY
    }

    /// An amount is written as an integer: from 0 up as the number itself,
    /// below 0 as the distance to -1.
    open spec fn leaf_of(value: int) -> LeafView {
        if value >= 0 {
            LeafView::One(ValueView::Unsigned(value as u64))
        } else {
            LeafView::One(ValueView::Negative((-1 - value) as u64))
        }
    }

    open spec fn of_leaf(leaf: LeafView) -> Result<int, DecodeFailure> {
        amount_of_leaf(leaf)
    }

    fn to_leaf(&self) -> (leaf: Leaf) {
        if self.0 >= 0 {
            Leaf::One(Value::Unsigned(self.0 as u64))
        } else {
            Leaf::One(Value::Negative((-1 - self.0) as u64))
        }
    }

    fn from_leaf(leaf: &Leaf) -> (outcome: Result<Self, DecodeFailure>) {
        match leaf {
            Leaf::One(Value::Unsigned(n)) => {
                if *n <= MAX_MONEY as u64 {
                    Ok(Amount(*n as i64))
                } else {
                    Err(DecodeFailure::OutOfRange)
                }
            },
            Leaf::One(Value::Negative(n)) => {
                if *n < MAX_MONEY as u64 {
                    Ok(Amount(-1 - (*n as i64)))
                } else {
                    Err(DecodeFailure::OutOfRange)
                }
            },
            _ => Err(DecodeFailure::SubjectCoercion),
        }
    }

    proof fn lemma_leaf_round_trip(&self) {
    }
}

} // verus!
