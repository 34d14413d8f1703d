//! The witness of a note commitment in the tree of the first shielded
//! protocol.

use crate::blob::u256;
use crate::codec::{
    extract_object_for_predicate, leaf_document, leaf_object,
    optional_entity_object, try_optional_object_for_predicate, DocumentCodec, LeafCodec,
};
use crate::document::{
    failed_at, in_context, lemma_objects_push, DecodeError, DecodeErrorView, DecodeFailure,
    Document, DocumentView,
};
use crate::merkle_tree::{Frontier, IncrementalMerkleTree};
use crate::sha256_compress::SHA256Compress;
use crate::tree_codec::{
    decode_tree_parts, lemma_tree_encoding_objects, lemma_tree_names_differ,
    lemma_tree_parts_round_trip, tree_encoding, tree_parts_decoding,
};
use crate::witness::{checked_witness, IncrementalWitness, WitnessView};
use vstd::prelude::*;

verus! {

/// The height of the note commitment tree of the first shielded protocol,
/// which has room for `2^29` commitments.
pub const INCREMENTAL_MERKLE_TREE_DEPTH: usize = 29;

/// The tree of the first shielded protocol.
pub type SproutTree = IncrementalMerkleTree<INCREMENTAL_MERKLE_TREE_DEPTH, SHA256Compress>;

/// The witness that a note commitment is in the tree of the first
/// shielded protocol.
pub type SproutWitness = IncrementalWitness<INCREMENTAL_MERKLE_TREE_DEPTH, SHA256Compress>;

/// The document that writes the cursor of a witness, where there is one.
pub open spec fn cursor_document(cursor: Option<Frontier<u256>>) -> Option<DocumentView> {
    match cursor {
        Some(cursor) => Some(tree_encoding(cursor)),
        None => None,
    }
}

/// The document that writes a witness: the document of its tree, under
/// the type tag of the witness, with the filled nodes and, where there
/// is one, the cursor.
pub open spec fn sprout_witness_encoding(witness: WitnessView<u256>) -> DocumentView {
    tree_encoding(witness.tree).with_type("SproutWitness"@).with_assertion(
        "filled"@,
        DocumentView::leaf(Vec::<u256>::leaf_of(witness.filled)),
    ).with_optional_assertion("cursor"@, cursor_document(witness.cursor))
}

/// The witness that a document writes: the type tag is checked, the tree
/// is read from the document itself, then the filled nodes and the
/// cursor, and parts that do not fit together are refused.
pub open spec fn sprout_witness_decoding(document: DocumentView) -> Result<
    WitnessView<u256>,
    DecodeErrorView,
> {
    match document.check_type("SproutWitness"@) {
        Err(failure) => Err(failed_at(failure, "SproutWitness"@)),
        Ok(_) => match in_context(
            tree_parts_decoding(document, INCREMENTAL_MERKLE_TREE_DEPTH as nat),
            "tree"@,
        ) {
            Err(e) => Err(e),
            Ok(tree) => match leaf_object::<Vec<u256>>(document, "filled"@) {
                Err(e) => Err(e),
                Ok(filled) => match optional_entity_object::<SproutTree>(document, "cursor"@) {
                    Err(e) => Err(e),
                    Ok(cursor) => match checked_witness(
                        WitnessView { tree, filled, cursor },
                        INCREMENTAL_MERKLE_TREE_DEPTH as nat,
                    ) {
                        Ok(witness) => Ok(witness),
                        Err(e) => Err(failed_at(DecodeFailure::Malformed(e), "SproutWitness"@)),
                    },
                },
            },
        },
    }
}

/// The predicate names of a witness differ from each other and from
/// those of a tree.
pub proof fn lemma_witness_names_differ()
    ensures
        "filled"@ != "cursor"@,
        "filled"@ != "left"@,
        "filled"@ != "right"@,
        "filled"@ != "parents"@,
        "cursor"@ != "left"@,
        "cursor"@ != "right"@,
        "cursor"@ != "parents"@,
{
    reveal_strlit("filled");
    reveal_strlit("cursor");
    reveal_strlit("left");
    reveal_strlit("right");
    reveal_strlit("parents");
    assert("filled"@.len() == 6);
    assert("cursor"@.len() == 6);
    assert("left"@.len() == 4);
    assert("right"@.len() == 5);
    assert("parents"@.len() == 7);
    assert("filled"@[0] != "cursor"@[0]);
}

impl DocumentCodec for IncrementalWitness<INCREMENTAL_MERKLE_TREE_DEPTH, SHA256Compress> {
    /// The witness keeps the shape that appends give it.
    open spec fn sound(&self) -> bool {
        self.wf()
    }

    fn is_sound(&self) -> (ok: bool) {
        self.is_wf()
    }

    open spec fn encoding(value: WitnessView<u256>) -> DocumentView {
        sprout_witness_encoding(value)
    }

    open spec fn decoding(document: DocumentView) -> Result<WitnessView<u256>, DecodeErrorView> {
        sprout_witness_decoding(document)
    }

    fn encode(&self) -> (document: Document) {
        let cursor = match self.cursor() {
            Some(cursor) => Some(cursor.encode()),
            None => None,
        };
        self.tree().encode().add_type("SproutWitness").add_assertion(
            "filled",
            leaf_document(self.filled()),
        ).add_optional_assertion("cursor", cursor)
    }

    fn decode(document: &Document) -> (outcome: Result<Self, DecodeError>) {
        match document.check_type("SproutWitness") {
            Err(failure) => {
                return Err(DecodeError::new(failure, "SproutWitness"));
            },
            Ok(_) => {},
        }
        let tree = match decode_tree_parts::<INCREMENTAL_MERKLE_TREE_DEPTH>(document) {
            Err(e) => {
                return Err(e.context("tree"));
            },
            Ok(tree) => tree,
        };
        let filled = match extract_object_for_predicate::<Vec<u256>>(document, "filled") {
            Err(e) => {
                return Err(e);
            },
            Ok(filled) => filled,
        };
        let cursor = match try_optional_object_for_predicate::<SproutTree>(document, "cursor") {
            Err(e) => {
                return Err(e);
            },
            Ok(cursor) => cursor,
        };
        match IncrementalWitness::with_fields(tree, filled, cursor) {
            Ok(witness) => Ok(witness),
            Err(e) => Err(DecodeError::new(DecodeFailure::Malformed(e), "SproutWitness")),
        }
    }

    proof fn lemma_round_trip(&self) {
        broadcast use lemma_objects_push;

        lemma_witness_names_differ();
        lemma_tree_names_differ();
        let witness = self@;
        let document = sprout_witness_encoding(witness);
        lemma_tree_encoding_objects(witness.tree);
        let typed = tree_encoding(witness.tree).with_type("SproutWitness"@);
        let filled = DocumentView::leaf(Vec::<u256>::leaf_of(witness.filled));
        assert(typed.objects("filled"@) == Seq::<DocumentView>::empty());
        assert(typed.objects("cursor"@) == Seq::<DocumentView>::empty());
        assert(document.objects("filled"@) =~= seq![filled]);
        assert(document.objects("left"@) =~= tree_encoding(witness.tree).objects("left"@));
        assert(document.objects("right"@) =~= tree_encoding(witness.tree).objects("right"@));
        assert(document.objects("parents"@) =~= tree_encoding(witness.tree).objects("parents"@));
        lemma_tree_parts_round_trip(witness.tree, INCREMENTAL_MERKLE_TREE_DEPTH as nat, document);
        crate::hash_list::lemma_hashes_round_trip(witness.filled);
        match witness.cursor {
            Some(cursor) => {
                assert(document.objects("cursor"@) =~= seq![tree_encoding(cursor)]);
                crate::witness::lemma_cursor_in_shape(
                    witness,
                    INCREMENTAL_MERKLE_TREE_DEPTH as nat,
                );
                lemma_tree_parts_round_trip(
                    cursor,
                    INCREMENTAL_MERKLE_TREE_DEPTH as nat,
                    tree_encoding(cursor),
                );
            },
            None => {
                assert(document.objects("cursor"@) =~= Seq::empty());
            },
        }
    }
}

} // verus!
