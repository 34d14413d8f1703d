//! Documents do not keep their assertions in any order: what is read from
//! a document does not depend on the order in which its assertions stand.

use crate::address::address_decoding;
use crate::amount::Amount;
use crate::blob::{u256, Blob};
use crate::codec::{
    decode_all, entity_object, entity_objects, leaf_object, optional_entity_object,
    optional_leaf_object, subject_as, DocumentCodec, LeafCodec,
};
use crate::document::{objects_in, DecodeErrorView, DocumentView};
use crate::indexed::{
    indexed_in_place, indexed_objects, lemma_order_recovered_from_any, lemma_reindexed_in_place,
    Indexed,
};
use crate::protocol_address::ProtocolAddress;
use crate::sapling::sapling_sent_output::sent_output_decoding;
use crate::sprout_witness::{sprout_witness_decoding, SproutTree};
use crate::transaction::transaction_decoding;
use crate::tree_codec::{tree_decoding, tree_parts_decoding};
use crate::zewif_wallet::{wallet_decoding, Network};
use vstd::prelude::*;

verus! {

/// Two documents hold the same: the same subject, the same type tag, and
/// the same assertions, each as often, in whatever order.
pub open spec fn same_content(first: DocumentView, second: DocumentView) -> bool {
    &&& first.subject == second.subject
    &&& first.type_tag == second.type_tag
    &&& first.assertions.to_multiset() == second.assertions.to_multiset()
}

/// An object stands under a predicate as often as the assertion of the
/// two stands in the document.
pub proof fn lemma_objects_count(
    assertions: Seq<(Seq<char>, DocumentView)>,
    predicate: Seq<char>,
    object: DocumentView,
)
    ensures
        objects_in(assertions, predicate).to_multiset().count(object) == assertions.to_multiset().count(
            (predicate, object),
        ),
    decreases assertions.len(),
{
    broadcast use vstd::seq_lib::group_to_multiset_ensures;

    if assertions.len() > 0 {
        let before = assertions.drop_last();
        let last = assertions.last();
        lemma_objects_count(before, predicate, object);
        assert(assertions =~= before.push(last));
        assert(assertions.to_multiset() =~= before.to_multiset().insert(last));
        if last.0 == predicate {
            assert(objects_in(assertions, predicate) == objects_in(before, predicate).push(last.1));
            assert(objects_in(assertions, predicate).to_multiset() =~= objects_in(
                before,
                predicate,
            ).to_multiset().insert(last.1));
        }
    }
}

/// The objects of a predicate are the same, each as often, in whatever
/// order the assertions stand.
pub proof fn lemma_objects_any_order(
    first: Seq<(Seq<char>, DocumentView)>,
    second: Seq<(Seq<char>, DocumentView)>,
    predicate: Seq<char>,
)
    requires
        first.to_multiset() == second.to_multiset(),
    ensures
        objects_in(first, predicate).to_multiset() == objects_in(second, predicate).to_multiset(),
        objects_in(first, predicate).len() == objects_in(second, predicate).len(),
        objects_in(first, predicate).len() == 1 ==> objects_in(first, predicate)[0] == objects_in(
            second,
            predicate,
        )[0],
{
    broadcast use vstd::seq_lib::group_to_multiset_ensures;

    let a = objects_in(first, predicate);
    let b = objects_in(second, predicate);
    assert forall|object: DocumentView| a.to_multiset().count(object) == b.to_multiset().count(
        object,
    ) by {
        lemma_objects_count(first, predicate, object);
        lemma_objects_count(second, predicate, object);
    }
    assert(a.to_multiset() =~= b.to_multiset());
    a.to_multiset_ensures();
    b.to_multiset_ensures();
    if a.len() == 1 {
        assert(a.contains(a[0]));
        assert(b.to_multiset().count(a[0]) > 0);
        assert(b.contains(a[0]));
    }
}

/// What is asked of a document gets the same answer from every document
/// that holds the same.
pub proof fn lemma_queries_any_order(
    first: DocumentView,
    second: DocumentView,
    predicate: Seq<char>,
)
    requires
        same_content(first, second),
    ensures
        first.check_type(predicate) == second.check_type(predicate),
        first.object(predicate) == second.object(predicate),
        first.optional_object(predicate) == second.optional_object(predicate),
        first.objects(predicate).to_multiset() == second.objects(predicate).to_multiset(),
{
    lemma_objects_any_order(first.assertions, second.assertions, predicate);
}

/// A field that is read as a leaf is read the same from every document
/// that holds the same.
pub proof fn lemma_leaf_fields_any_order<T: LeafCodec>(
    first: DocumentView,
    second: DocumentView,
    name: Seq<char>,
)
    requires
        same_content(first, second),
    ensures
        subject_as::<T>(first, name) == subject_as::<T>(second, name),
        leaf_object::<T>(first, name) == leaf_object::<T>(second, name),
        optional_leaf_object::<T>(first, name) == optional_leaf_object::<T>(second, name),
{
    lemma_queries_any_order(first, second, name);
}

/// A field that is decoded as an entity is decoded the same from every
/// document that holds the same.
pub proof fn lemma_entity_fields_any_order<T: DocumentCodec>(
    first: DocumentView,
    second: DocumentView,
    name: Seq<char>,
)
    requires
        same_content(first, second),
    ensures
        entity_object::<T>(first, name) == entity_object::<T>(second, name),
        optional_entity_object::<T>(first, name) == optional_entity_object::<T>(second, name),
{
    lemma_queries_any_order(first, second, name);
}

/// What each entry of a sequence is turned into is the same, each as
/// often, in whatever order the entries stand.
pub proof fn lemma_map_any_order<A, B>(first: Seq<A>, second: Seq<A>, f: spec_fn(A) -> B)
    requires
        first.to_multiset() == second.to_multiset(),
    ensures
        first.map_values(f).to_multiset() == second.map_values(f).to_multiset(),
    decreases first.len(),
{
    broadcast use vstd::seq_lib::group_to_multiset_ensures;

    first.to_multiset_ensures();
    second.to_multiset_ensures();
    if first.len() == 0 {
        assert(second.len() == 0);
        assert(first.map_values(f) =~= second.map_values(f));
    } else {
        let last = first.last();
        let before = first.drop_last();
        assert(first =~= before.push(last));
        assert(first.contains(last)) by {
            assert(first[first.len() - 1] == last);
        }
        assert(second.to_multiset().count(last) > 0);
        assert(second.contains(last));
        let i = choose|i: int| 0 <= i < second.len() && second[i] == last;
        let others = second.remove(i);
        assert(before.to_multiset() =~= first.to_multiset().remove(last)) by {
            assert(first.remove(first.len() - 1) =~= before);
        }
        assert(others.to_multiset() =~= second.to_multiset().remove(last));
        lemma_map_any_order(before, others, f);
        let mapped = second.map_values(f);
        mapped.to_multiset_ensures();
        assert(mapped.remove(i) =~= others.map_values(f));
        assert(others.map_values(f).to_multiset() =~= mapped.to_multiset().remove(f(last)));
        assert(mapped.contains(f(last))) by {
            assert(mapped[i] == f(last));
        }
        assert(first.map_values(f) =~= before.map_values(f).push(f(last)));
        assert(first.map_values(f).to_multiset() =~= before.map_values(f).to_multiset().insert(
            f(last),
        ));
        assert(mapped.to_multiset() =~= mapped.to_multiset().remove(f(last)).insert(f(last)));
    }
}

/// What the document `document` decodes to, if it decodes.
pub open spec fn decoded<T: DocumentCodec>(document: DocumentView) -> T::V {
    T::decoding(document)->Ok_0
}

/// Documents decode all together when, and only when, each of them
/// decodes, and then to what each of them decodes to, in order.
pub proof fn lemma_decode_all<T: DocumentCodec>(documents: Seq<DocumentView>)
    ensures
        decode_all::<T>(documents) is Ok <==> forall|i: int|
            0 <= i < documents.len() ==> T::decoding(#[trigger] documents[i]) is Ok,
        decode_all::<T>(documents) is Ok ==> decode_all::<T>(documents)->Ok_0
            == documents.map_values(|document: DocumentView| decoded::<T>(document)),
    decreases documents.len(),
{
    let each = |document: DocumentView| decoded::<T>(document);
    if documents.len() == 0 {
        assert(documents.map_values(each) =~= Seq::<T::V>::empty());
    } else {
        let before = documents.drop_last();
        lemma_decode_all::<T>(before);
        if decode_all::<T>(documents) is Ok {
            assert forall|i: int| 0 <= i < documents.len() implies T::decoding(
                #[trigger] documents[i],
            ) is Ok by {
                if i < before.len() {
                    assert(before[i] == documents[i]);
                }
            }
            assert(documents.map_values(each) =~= before.map_values(each).push(
                each(documents.last()),
            ));
        }
        if forall|i: int| 0 <= i < documents.len() ==> T::decoding(#[trigger] documents[i]) is Ok {
            assert forall|i: int| 0 <= i < before.len() implies T::decoding(
                #[trigger] before[i],
            ) is Ok by {
                assert(before[i] == documents[i]);
            }
            assert(T::decoding(documents[documents.len() - 1]) is Ok);
        }
    }
}

/// Documents that decode all together decode all together in any order,
/// and to the same values, each as often.
pub proof fn lemma_decode_all_any_order<T: DocumentCodec>(
    first: Seq<DocumentView>,
    second: Seq<DocumentView>,
)
    requires
        first.to_multiset() == second.to_multiset(),
        decode_all::<T>(first) is Ok,
    ensures
        decode_all::<T>(second) is Ok,
        decode_all::<T>(first)->Ok_0.to_multiset() == decode_all::<T>(second)->Ok_0.to_multiset(),
{
    broadcast use vstd::seq_lib::group_to_multiset_ensures;

    lemma_decode_all::<T>(first);
    lemma_decode_all::<T>(second);
    first.to_multiset_ensures();
    second.to_multiset_ensures();
    assert forall|i: int| 0 <= i < second.len() implies T::decoding(#[trigger] second[i]) is Ok by {
        assert(second.contains(second[i]));
        assert(first.to_multiset().count(second[i]) > 0);
        assert(first.contains(second[i]));
        let k = choose|k: int| 0 <= k < first.len() && first[k] == second[i];
        assert(T::decoding(first[k]) is Ok);
    }
    lemma_map_any_order(first, second, |document: DocumentView| decoded::<T>(document));
}

/// Children that carry the positions 0, 1, 2, ... are read back in the
/// order of those positions from every document that holds the same as
/// one from which they are read at all.
pub proof fn lemma_indexed_objects_any_order<T: DocumentCodec + Indexed>(
    first: DocumentView,
    second: DocumentView,
    predicate: Seq<char>,
    children: Seq<T::V>,
)
    requires
        same_content(first, second),
        indexed_in_place::<T>(children),
        entity_objects::<T>(first, predicate) is Ok,
        entity_objects::<T>(first, predicate)->Ok_0.to_multiset() == children.to_multiset(),
    ensures
        indexed_objects::<T>(second, predicate) == Ok::<Seq<T::V>, DecodeErrorView>(children),
{
    lemma_queries_any_order(first, second, predicate);
    lemma_decode_all_any_order::<T>(first.objects(predicate), second.objects(predicate));
    let found = decode_all::<T>(second.objects(predicate))->Ok_0;
    lemma_order_recovered_from_any::<T>(children, found);
    lemma_reindexed_in_place::<T>(children);
}

/// An address is decoded the same from every document that holds the
/// same, whatever the order of its assertions.
pub proof fn lemma_address_any_order(first: DocumentView, second: DocumentView)
    requires
        same_content(first, second),
    ensures
        address_decoding(first) == address_decoding(second),
{
    lemma_queries_any_order(first, second, "Address"@);
    lemma_leaf_fields_any_order::<usize>(first, second, "index"@);
    lemma_entity_fields_any_order::<ProtocolAddress>(first, second, "address"@);
    lemma_leaf_fields_any_order::<String>(first, second, "name"@);
    lemma_leaf_fields_any_order::<String>(first, second, "purpose"@);
}

/// A sent output is decoded the same from every document that holds the
/// same, whatever the order of its assertions.
pub proof fn lemma_sent_output_any_order(first: DocumentView, second: DocumentView)
    requires
        same_content(first, second),
    ensures
        sent_output_decoding(first) == sent_output_decoding(second),
{
    lemma_queries_any_order(first, second, "SaplingSentOutput"@);
    lemma_leaf_fields_any_order::<usize>(first, second, "index"@);
    lemma_leaf_fields_any_order::<Blob<11>>(first, second, "diversifier"@);
    lemma_leaf_fields_any_order::<Blob<32>>(first, second, "receipient_public_key"@);
    lemma_leaf_fields_any_order::<Amount>(first, second, "value"@);
    lemma_leaf_fields_any_order::<Blob<32>>(first, second, "rcm"@);
}

/// A transaction is decoded the same from every document that holds the
/// same, whatever the order of its assertions.
pub proof fn lemma_transaction_any_order(first: DocumentView, second: DocumentView)
    requires
        same_content(first, second),
    ensures
        transaction_decoding(first) == transaction_decoding(second),
{
    lemma_queries_any_order(first, second, "Transaction"@);
    lemma_leaf_fields_any_order::<Blob<32>>(first, second, "txid"@);
    lemma_leaf_fields_any_order::<Vec<u8>>(first, second, "raw"@);
}

/// A wallet is decoded the same from every document that holds the same,
/// whatever the order of its assertions.
pub proof fn lemma_wallet_any_order(first: DocumentView, second: DocumentView)
    requires
        same_content(first, second),
    ensures
        wallet_decoding(first) == wallet_decoding(second),
{
    lemma_queries_any_order(first, second, "ZewifWallet"@);
    lemma_leaf_fields_any_order::<usize>(first, second, "index"@);
    lemma_leaf_fields_any_order::<Network>(first, second, "network"@);
}

/// A tree is decoded the same from every document that holds the same,
/// whatever the order of its assertions.
pub proof fn lemma_tree_any_order(first: DocumentView, second: DocumentView, depth: nat)
    requires
        same_content(first, second),
    ensures
        tree_parts_decoding(first, depth) == tree_parts_decoding(second, depth),
        tree_decoding(first, depth) == tree_decoding(second, depth),
{
    lemma_queries_any_order(first, second, "IncrementalMerkleTree"@);
    lemma_leaf_fields_any_order::<Blob<32>>(first, second, "left"@);
    lemma_leaf_fields_any_order::<Blob<32>>(first, second, "right"@);
    lemma_leaf_fields_any_order::<Vec<Option<u256>>>(first, second, "parents"@);
}

/// A witness is decoded the same from every document that holds the
/// same, whatever the order of its assertions.
pub proof fn lemma_sprout_witness_any_order(first: DocumentView, second: DocumentView)
    requires
        same_content(first, second),
    ensures
        sprout_witness_decoding(first) == sprout_witness_decoding(second),
{
    lemma_queries_any_order(first, second, "SproutWitness"@);
    lemma_tree_any_order(
        first,
        second,
        crate::sprout_witness::INCREMENTAL_MERKLE_TREE_DEPTH as nat,
    );
    lemma_leaf_fields_any_order::<Vec<u256>>(first, second, "filled"@);
    lemma_entity_fields_any_order::<SproutTree>(first, second, "cursor"@);
}

} // verus!
