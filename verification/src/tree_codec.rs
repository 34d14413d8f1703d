//! Trees of 256-bit nodes as documents.

use crate::blob::{u256, Blob};
use crate::codec::{
    decode_outcome, extract_object_for_predicate, extract_optional_object_for_predicate,
    leaf_document, leaf_object, optional_leaf_object, DocumentCodec, LeafCodec,
};
use crate::document::{
    failed_at, lemma_objects_push, DecodeError, DecodeErrorView, DecodeFailure, Document,
    DocumentView, Leaf, LeafView, Value, ValueView,
};
use crate::merkle_tree::{checked_frontier, Frontier, IncrementalMerkleTree};
use vstd::prelude::*;

verus! {

/// The node that holds `bytes`, where there are any.
pub open spec fn optional_node(bytes: Option<Seq<u8>>) -> Option<u256> {
    match bytes {
        Some(bytes) => Some(u256::of_bytes(bytes)),
        None => None,
    }
}

/// The document that writes a node, where there is one.
pub open spec fn optional_node_document(node: Option<u256>) -> Option<DocumentView> {
    match node {
        Some(node) => Some(DocumentView::leaf(Blob::<32>::leaf_of(node@))),
        None => None,
    }
}

/// The document that writes a tree: no subject of its own, the type tag,
/// the two leaves of the pair that is being filled where they are
/// present, and the list of parents.
pub open spec fn tree_encoding(frontier: Frontier<u256>) -> DocumentView {
    DocumentView::leaf(LeafView::One(ValueView::Null)).with_type(
        "IncrementalMerkleTree"@,
    ).with_optional_assertion("left"@, optional_node_document(frontier.left)).with_optional_assertion(
        "right"@,
        optional_node_document(frontier.right),
    ).with_assertion(
        "parents"@,
        DocumentView::leaf(Vec::<Option<u256>>::leaf_of(frontier.parents)),
    )
}

/// The tree of height `depth` whose parts a document writes, whatever its
/// type tag: the parts are read, and parts that do not fit together are
/// refused.
pub open spec fn tree_parts_decoding(document: DocumentView, depth: nat) -> Result<
    Frontier<u256>,
    DecodeErrorView,
> {
    match optional_leaf_object::<Blob<32>>(document, "left"@) {
        Err(e) => Err(e),
        Ok(left) => match optional_leaf_object::<Blob<32>>(document, "right"@) {
            Err(e) => Err(e),
            Ok(right) => match leaf_object::<Vec<Option<u256>>>(document, "parents"@) {
                Err(e) => Err(e),
                Ok(parents) => match checked_frontier(
                    Frontier { left: optional_node(left), right: optional_node(right), parents },
                    depth,
                ) {
                    Ok(frontier) => Ok(frontier),
                    Err(e) => Err(
                        failed_at(DecodeFailure::Malformed(e), "IncrementalMerkleTree"@),
                    ),
                },
            },
        },
    }
}

/// The tree of height `depth` that a document writes.
pub open spec fn tree_decoding(document: DocumentView, depth: nat) -> Result<
    Frontier<u256>,
    DecodeErrorView,
> {
    match document.check_type("IncrementalMerkleTree"@) {
        Err(failure) => Err(failed_at(failure, "IncrementalMerkleTree"@)),
        Ok(_) => tree_parts_decoding(document, depth),
    }
}

/// The three predicate names of a tree are three different texts.
pub proof fn lemma_tree_names_differ()
    ensures
        "left"@ != "right"@,
        "left"@ != "parents"@,
        "right"@ != "parents"@,
{
    reveal_strlit("left");
    reveal_strlit("right");
    reveal_strlit("parents");
    assert("left"@.len() == 4);
    assert("right"@.len() == 5);
    assert("parents"@.len() == 7);
}

/// What the document of a tree holds under each of its predicates.
pub proof fn lemma_tree_encoding_objects(frontier: Frontier<u256>)
    ensures
        tree_encoding(frontier).objects("left"@) == match frontier.left {
            Some(node) => seq![DocumentView::leaf(Blob::<32>::leaf_of(node@))],
            None => Seq::empty(),
        },
        tree_encoding(frontier).objects("right"@) == match frontier.right {
            Some(node) => seq![DocumentView::leaf(Blob::<32>::leaf_of(node@))],
            None => Seq::empty(),
        },
        tree_encoding(frontier).objects("parents"@) == seq![
            DocumentView::leaf(Vec::<Option<u256>>::leaf_of(frontier.parents)),
        ],
        forall|other: Seq<char>|
            other != "left"@ && other != "right"@ && other != "parents"@
                ==> #[trigger] tree_encoding(frontier).objects(other) == Seq::<DocumentView>::empty(),
{
    broadcast use lemma_objects_push;

    lemma_tree_names_differ();
    let document = tree_encoding(frontier);
    assert(document.objects("left"@) =~= match frontier.left {
        Some(node) => seq![DocumentView::leaf(Blob::<32>::leaf_of(node@))],
        None => Seq::empty(),
    });
    assert(document.objects("right"@) =~= match frontier.right {
        Some(node) => seq![DocumentView::leaf(Blob::<32>::leaf_of(node@))],
        None => Seq::empty(),
    });
    assert(document.objects("parents"@) =~= seq![
        DocumentView::leaf(Vec::<Option<u256>>::leaf_of(frontier.parents)),
    ]);
    assert forall|other: Seq<char>|
        other != "left"@ && other != "right"@ && other != "parents"@ implies #[trigger] document.objects(
        other,
    ) == Seq::<DocumentView>::empty() by {
        assert(document.objects(other) =~= Seq::<DocumentView>::empty());
    }
}

/// Reading the parts of the document written for a tree in shape gives
/// the tree, whatever happens to the type tag and whatever is asserted
/// under other predicates.
pub proof fn lemma_tree_parts_round_trip(frontier: Frontier<u256>, depth: nat, document: DocumentView)
    requires
        frontier.well_formed(depth),
        document.objects("left"@) == tree_encoding(frontier).objects("left"@),
        document.objects("right"@) == tree_encoding(frontier).objects("right"@),
        document.objects("parents"@) == tree_encoding(frontier).objects("parents"@),
    ensures
        tree_parts_decoding(document, depth) == Ok::<Frontier<u256>, DecodeErrorView>(frontier),
{
    lemma_tree_encoding_objects(frontier);
    match frontier.left {
        Some(node) => {
            node.lemma_len();
            node.lemma_is_of_bytes();
        },
        None => {},
    }
    match frontier.right {
        Some(node) => {
            node.lemma_len();
            node.lemma_is_of_bytes();
        },
        None => {},
    }
    crate::hash_list::lemma_optional_hashes_round_trip(frontier.parents);
}

/// Builds the optional node of a document.
fn optional_node_of(node: Option<u256>) -> (document: Option<Document>)
    ensures
        match document {
            Some(document) => optional_node_document(node) == Some(document@),
            None => optional_node_document(node) is None,
        },
{
    match node {
        Some(node) => Some(leaf_document(&node)),
        None => None,
    }
}

/// Reads the parts of a tree from a document, whatever its type tag.
pub fn decode_tree_parts<const DEPTH: usize>(document: &Document) -> (outcome: Result<
    IncrementalMerkleTree<DEPTH, u256>,
    DecodeError,
>)
    ensures
        decode_outcome(outcome) == tree_parts_decoding(document@, DEPTH as nat),
        outcome is Ok ==> outcome->Ok_0.wf(),
{
    let left = match extract_optional_object_for_predicate::<Blob<32>>(document, "left") {
        Err(e) => {
            return Err(e);
        },
        Ok(left) => left,
    };
    let right = match extract_optional_object_for_predicate::<Blob<32>>(document, "right") {
        Err(e) => {
            return Err(e);
        },
        Ok(right) => right,
    };
    let parents = match extract_object_for_predicate::<Vec<Option<u256>>>(document, "parents") {
        Err(e) => {
            return Err(e);
        },
        Ok(parents) => parents,
    };
    proof {
        match left {
            Some(node) => {
                node.lemma_is_of_bytes();
            },
            None => {},
        }
        match right {
            Some(node) => {
                node.lemma_is_of_bytes();
            },
            None => {},
        }
    }
    match IncrementalMerkleTree::with_fields(left, right, parents) {
        Ok(tree) => Ok(tree),
        Err(e) => Err(DecodeError::new(DecodeFailure::Malformed(e), "IncrementalMerkleTree")),
    }
}

impl<const DEPTH: usize> DocumentCodec for IncrementalMerkleTree<DEPTH, u256> {
    /// The tree keeps the shape that appends give it.
    open spec fn sound(&self) -> bool {
        self.wf()
    }

    fn is_sound(&self) -> (ok: bool) {
        self.is_wf()
    }

    open spec fn encoding(value: Frontier<u256>) -> DocumentView {
        tree_encoding(value)
    }

    open spec fn decoding(document: DocumentView) -> Result<Frontier<u256>, DecodeErrorView> {
        tree_decoding(document, DEPTH as nat)
    }

    fn encode(&self) -> (document: Document) {
        Document::new(Leaf::One(Value::Null)).add_type(
            "IncrementalMerkleTree",
        ).add_optional_assertion("left", optional_node_of(self.left())).add_optional_assertion(
            "right",
            optional_node_of(self.right()),
        ).add_assertion("parents", leaf_document(self.parents()))
    }

    fn decode(document: &Document) -> (outcome: Result<Self, DecodeError>) {
        match document.check_type("IncrementalMerkleTree") {
            Err(failure) => Err(DecodeError::new(failure, "IncrementalMerkleTree")),
            Ok(_) => decode_tree_parts::<DEPTH>(document),
        }
    }

    proof fn lemma_round_trip(&self) {
        lemma_tree_parts_round_trip(self@, DEPTH as nat, tree_encoding(self@));
    }
}

} // verus!
