//! The kinds of receiver that an address can hold.

use crate::codec::LeafCodec;
use crate::document::{same_text, DecodeFailure, Leaf, LeafView, Value, ValueView};
use crate::parser::{compact_size_read, ParseError, ParseErrorView, ParseFailure, Parser};
use vstd::prelude::*;

verus! {

/// The kind of a receiver inside an address, as the binary form of a
/// unified address numbers them.
#[derive(Debug, Clone, Copy, PartialEq, Eq, Hash)]
pub enum ReceiverType {
    /// A transparent pay-to-public-key-hash receiver, number 0.
    P2PKH,
    /// A transparent pay-to-script-hash receiver, number 1.
    P2SH,
    /// A Sapling shielded receiver, number 2.
    Sapling,
    /// An Orchard shielded receiver, number 3.
    Orchard,
}

impl View for ReceiverType {
    type V = ReceiverType;

    open spec fn view(&self) -> ReceiverType {
        *self
    }
}

/// The kind that the number `value` stands for, for a number below 4.
pub open spec fn receiver_of_number(value: u64) -> ReceiverType {
    if value == 0 {
        ReceiverType::P2PKH
    } else if value == 1 {
        ReceiverType::P2SH
    } else if value == 2 {
        ReceiverType::Sapling
    } else {
        ReceiverType::Orchard
    }
}

/// The number that stands for a kind.
pub open spec fn receiver_number(kind: ReceiverType) -> u64 {
    match kind {
        ReceiverType::P2PKH => 0,
        ReceiverType::P2SH => 1,
        ReceiverType::Sapling => 2,
        ReceiverType::Orchard => 3,
    }
}

/// A kind is read back from the compact size that writes its number,
/// whatever follows it.
pub proof fn lemma_receiver_round_trip(kind: ReceiverType, after: Seq<u8>)
    ensures
        receiver_read(crate::parser::compact_size_bytes(receiver_number(kind)) + after) == Ok::<
            (ReceiverType, nat),
            ParseFailure,
        >((kind, 1)),
{
    crate::parser::lemma_compact_size_round_trip(receiver_number(kind), after);
}

/// The name of a kind.
pub open spec fn receiver_name(kind: ReceiverType) -> Seq<char> {
    match kind {
        ReceiverType::P2PKH => "P2PKH"@,
        ReceiverType::P2SH => "P2SH"@,
        ReceiverType::Sapling => "Sapling"@,
        ReceiverType::Orchard => "Orchard"@,
    }
}

/// The kind that `name` names, exactly as written, or `UnknownName`.
pub open spec fn receiver_of_name(name: Seq<char>) -> Result<ReceiverType, DecodeFailure> {
    if name == "P2PKH"@ {
        Ok(ReceiverType::P2PKH)
    } else if name == "P2SH"@ {
        Ok(ReceiverType::P2SH)
    } else if name == "Sapling"@ {
        Ok(ReceiverType::Sapling)
    } else if name == "Orchard"@ {
        Ok(ReceiverType::Orchard)
    } else {
        Err(DecodeFailure::UnknownName)
    }
}

/// What parsing a kind from the start of `input` gives: the kind and the
/// number of bytes taken, or the failure.
pub open spec fn receiver_read(input: Seq<u8>) -> Result<(ReceiverType, nat), ParseFailure> {
    match compact_size_read(input) {
        Ok((value, consumed)) => if value < 4 {
            Ok((receiver_of_number(value), consumed))
        } else {
            Err(ParseFailure::InvalidDiscriminant { value })
        },
        Err(failure) => Err(failure),
    }
}

/// The four names are four different texts.
pub proof fn lemma_receiver_names_differ()
    ensures
        "P2PKH"@ != "P2SH"@,
        "P2PKH"@ != "Sapling"@,
        "P2PKH"@ != "Orchard"@,
        "P2SH"@ != "Sapling"@,
        "P2SH"@ != "Orchard"@,
        "Sapling"@ != "Orchard"@,
{
    reveal_strlit("P2PKH");
    reveal_strlit("P2SH");
    reveal_strlit("Sapling");
    reveal_strlit("Orchard");
    assert("P2PKH"@.len() == 5);
    assert("P2SH"@.len() == 4);
    assert("Sapling"@.len() == 7);
    assert("Orchard"@.len() == 7);
    assert("Sapling"@[0] != "Orchard"@[0]);
}

impl ReceiverType {
    /// The number of the kind.
    pub fn number(self) -> (value: u8)
        ensures
            value == receiver_number(self),
    {
        match self {
            ReceiverType::P2PKH => 0,
            ReceiverType::P2SH => 1,
            ReceiverType::Sapling => 2,
            ReceiverType::Orchard => 3,
        }
    }

    /// Reads a kind: a compact size that must be one of the four numbers.
    /// A failure names the field `ReceiverType`, and leaves the cursor
    /// where it was.
    pub fn parse(p: &mut Parser<'_>) -> (outcome: Result<Self, ParseError>)
        requires
            old(p).wf(),
        ensures
            final(p).wf(),
            match receiver_read(old(p)@.rest()) {
                Ok((kind, consumed)) => {
                    &&& outcome == Ok::<Self, ParseError>(kind)
                    &&& final(p)@ == old(p)@.advance(consumed)
                },
                Err(failure) => {
                    &&& outcome is Err
                    &&& outcome->Err_0@ == (ParseErrorView {
                        failure,
                        fields: seq!["ReceiverType"@],
                    })
                    &&& final(p)@ == old(p)@
                },
            },
    {
        match p.read_discriminant(4) {
            Ok(value) => Ok(
                if value == 0 {
                    ReceiverType::P2PKH
                } else if value == 1 {
                    ReceiverType::P2SH
                } else if value == 2 {
                    ReceiverType::Sapling
                } else {
                    ReceiverType::Orchard
                },
            ),
            Err(failure) => Err(ParseError::new(failure, "ReceiverType")),
        }
    }

    /// The name of the kind.
    pub fn name(self) -> (name: String)
        ensures
            name@ == receiver_name(self),
    {
        match self {
            ReceiverType::P2PKH => "P2PKH".to_owned(),
            ReceiverType::P2SH => "P2SH".to_owned(),
            ReceiverType::Sapling => "Sapling".to_owned(),
            ReceiverType::Orchard => "Orchard".to_owned(),
        }
    }

    /// The kind that `name` names, exactly as written.
    pub fn from_name(name: &str) -> (outcome: Result<Self, DecodeFailure>)
        ensures
            outcome == receiver_of_name(name@),
    {
        if same_text(name, "P2PKH") {
            Ok(ReceiverType::P2PKH)
        } else if same_text(name, "P2SH") {
            Ok(ReceiverType::P2SH)
        } else if same_text(name, "Sapling") {
            Ok(ReceiverType::Sapling)
        } else if same_text(name, "Orchard") {
            Ok(ReceiverType::Orchard)
        } else {
            Err(DecodeFailure::UnknownName)
        }
    }
}

impl LeafCodec for ReceiverType {
    open spec fn sound(&self) -> bool {
        true
    }

    fn is_sound(&self) -> (ok: bool) {
        true
    }

    /// A kind is written as its name.
    open spec fn leaf_of(value: ReceiverType) -> LeafView {
        LeafView::One(ValueView::Text(receiver_name(value)))
    }

    open spec fn of_leaf(leaf: LeafView) -> Result<ReceiverType, DecodeFailure> {
        match leaf {
            LeafView::One(ValueView::Text(name)) => receiver_of_name(name),
            _ => Err(DecodeFailure::SubjectCoercion),
        }
    }

    fn to_leaf(&self) -> (leaf: Leaf) {
        Leaf::One(Value::Text(self.name()))
    }

    fn from_leaf(leaf: &Leaf) -> (outcome: Result<Self, DecodeFailure>) {
        match leaf {
            Leaf::One(Value::Text(name)) => ReceiverType::from_name(name.as_str()),
            _ => Err(DecodeFailure::SubjectCoercion),
        }
    }

    proof fn lemma_leaf_round_trip(&self) {
        lemma_receiver_names_differ();
    }
}

} // verus!
