//! The ordering discipline: a child knows its place among its siblings,
//! and the place is given by the container that holds it.

use crate::codec::{entity_objects, items_view, try_objects_for_predicate, DocumentCodec};
use crate::document::{DecodeError, DecodeErrorView, Document, DocumentView};
use vstd::prelude::*;

verus! {

/// An entity that carries its position among the children of its
/// container. The position is set by the container when the entity is
/// added, and by nothing else.
pub trait Indexed: View + Sized {
    /// The position that `value` carries.
    spec fn index_of(value: Self::V) -> usize;

    /// `value` with the position `index` and otherwise unchanged.
    spec fn with_index(value: Self::V, index: usize) -> Self::V;

    /// The position that the entity carries.
    fn index(&self) -> (index: usize)
        ensures
            index == Self::index_of(self@),
    ;

    /// Gives the entity its position. Nothing else of it changes.
    fn set_index(&mut self, index: usize)
        ensures
            final(self)@ == Self::with_index(old(self)@, index),
    ;

    /// Setting a position sets that position, and setting the position
    /// that a value carries changes nothing.
    proof fn lemma_with_index(value: Self::V, index: usize)
        ensures
            Self::index_of(Self::with_index(value, index)) == index,
            Self::with_index(value, Self::index_of(value)) == value,
    ;
}

/// `sorted` with `added` put in after the last entry whose position is not
/// greater than its own.
pub open spec fn insert_by_index<T: Indexed>(sorted: Seq<T::V>, added: T::V) -> Seq<T::V>
    decreases sorted.len(),
{
    if sorted.len() == 0 {
        seq![added]
    } else if T::index_of(sorted.last()) <= T::index_of(added) {
        sorted.push(added)
    } else {
        insert_by_index::<T>(sorted.drop_last(), added).push(sorted.last())
    }
}

/// The entries of `items` in the order of their positions; entries with
/// the same position keep the order in which they stood.
pub open spec fn sorted_by_index<T: Indexed>(items: Seq<T::V>) -> Seq<T::V>
    decreases items.len(),
{
    if items.len() == 0 {
        Seq::empty()
    } else {
        insert_by_index::<T>(sorted_by_index::<T>(items.drop_last()), items.last())
    }
}

/// Each entry stands at the position that it carries.
pub open spec fn indexed_in_place<T: Indexed>(items: Seq<T::V>) -> bool {
    forall|i: int| 0 <= i < items.len() ==> T::index_of(#[trigger] items[i]) == i
}

/// The positions never go down along `items`.
pub open spec fn ordered_by_index<T: Indexed>(items: Seq<T::V>) -> bool {
    forall|i: int, j: int|
        0 <= i <= j < items.len() ==> T::index_of(#[trigger] items[i]) <= T::index_of(
            #[trigger] items[j],
        )
}

/// `items` with each entry given the position at which it stands.
pub open spec fn reindexed<T: Indexed>(items: Seq<T::V>) -> Seq<T::V> {
    Seq::new(items.len(), |i: int| T::with_index(items[i], i as usize))
}

/// Putting an entry in at the place `p`, where every entry from `p` on
/// has a greater position than it and the entry before `p` has not, is
/// what `insert_by_index` does.
pub proof fn lemma_insert_at<T: Indexed>(sorted: Seq<T::V>, added: T::V, p: int)
    requires
        0 <= p <= sorted.len(),
        forall|i: int| p <= i < sorted.len() ==> T::index_of(#[trigger] sorted[i]) > T::index_of(added),
        p > 0 ==> T::index_of(sorted[p - 1]) <= T::index_of(added),
    ensures
        insert_by_index::<T>(sorted, added) == sorted.insert(p, added),
    decreases sorted.len() - p,
{
    if p == sorted.len() {
        assert(sorted.insert(p, added) =~= sorted.push(added));
    } else {
        lemma_insert_at::<T>(sorted.drop_last(), added, p);
        assert(sorted.insert(p, added) =~= sorted.drop_last().insert(p, added).push(sorted.last()));
    }
}

/// Putting an entry into entries whose positions never go down leaves
/// entries whose positions never go down, and adds nothing but the entry.
pub proof fn lemma_insert_keeps_order<T: Indexed>(sorted: Seq<T::V>, added: T::V)
    requires
        ordered_by_index::<T>(sorted),
    ensures
        ordered_by_index::<T>(insert_by_index::<T>(sorted, added)),
        insert_by_index::<T>(sorted, added).to_multiset() == sorted.to_multiset().insert(added),
    decreases sorted.len(),
{
    broadcast use vstd::seq_lib::group_to_multiset_ensures;

    let out = insert_by_index::<T>(sorted, added);
    if sorted.len() == 0 {
        assert(out =~= Seq::<T::V>::empty().push(added));
    } else if T::index_of(sorted.last()) <= T::index_of(added) {
        assert forall|i: int, j: int| 0 <= i <= j < out.len() implies T::index_of(
            #[trigger] out[i],
        ) <= T::index_of(#[trigger] out[j]) by {
            if j == sorted.len() && i < sorted.len() {
                assert(T::index_of(sorted[i]) <= T::index_of(sorted[sorted.len() - 1]));
            }
        }
    } else {
        let before = sorted.drop_last();
        assert forall|i: int, j: int| 0 <= i <= j < before.len() implies T::index_of(
            #[trigger] before[i],
        ) <= T::index_of(#[trigger] before[j]) by {
            assert(T::index_of(sorted[i]) <= T::index_of(sorted[j]));
        }
        lemma_insert_keeps_order::<T>(before, added);
        let inner = insert_by_index::<T>(before, added);
        assert(out == inner.push(sorted.last()));
        assert forall|i: int| 0 <= i < inner.len() implies T::index_of(#[trigger] inner[i])
            <= T::index_of(sorted.last()) by {
            assert(inner.to_multiset().count(inner[i]) > 0);
            if inner[i] != added {
                assert(before.to_multiset().count(inner[i]) > 0);
                let k = choose|k: int| 0 <= k < before.len() && before[k] == inner[i];
                assert(T::index_of(sorted[k]) <= T::index_of(sorted[sorted.len() - 1]));
            }
        }
        assert forall|i: int, j: int| 0 <= i <= j < out.len() implies T::index_of(
            #[trigger] out[i],
        ) <= T::index_of(#[trigger] out[j]) by {
            if j < inner.len() {
                assert(T::index_of(inner[i]) <= T::index_of(inner[j]));
            } else if i < inner.len() {
                assert(T::index_of(inner[i]) <= T::index_of(sorted.last()));
            }
        }
        assert(sorted =~= before.push(sorted.last()));
        assert(out.to_multiset() =~= sorted.to_multiset().insert(added));
    }
}

/// Sorting gives the same entries, in an order in which the positions
/// never go down.
pub proof fn lemma_sorted_by_index<T: Indexed>(items: Seq<T::V>)
    ensures
        ordered_by_index::<T>(sorted_by_index::<T>(items)),
        sorted_by_index::<T>(items).to_multiset() == items.to_multiset(),
        sorted_by_index::<T>(items).len() == items.len(),
    decreases items.len(),
{
    broadcast use vstd::seq_lib::group_to_multiset_ensures;

    if items.len() > 0 {
        lemma_sorted_by_index::<T>(items.drop_last());
        lemma_insert_keeps_order::<T>(sorted_by_index::<T>(items.drop_last()), items.last());
        assert(items =~= items.drop_last().push(items.last()));
    }
    sorted_by_index::<T>(items).to_multiset_ensures();
    items.to_multiset_ensures();
}

/// Entries that stand at the positions they carry are left as they are
/// by sorting: the order in which a container wrote its children is the
/// order in which they are read back.
pub proof fn lemma_order_recovered<T: Indexed>(items: Seq<T::V>)
    requires
        indexed_in_place::<T>(items),
    ensures
        sorted_by_index::<T>(items) == items,
    decreases items.len(),
{
    if items.len() > 0 {
        let before = items.drop_last();
        assert forall|i: int| 0 <= i < before.len() implies T::index_of(#[trigger] before[i])
            == i by {
            assert(T::index_of(items[i]) == i);
        }
        lemma_order_recovered::<T>(before);
        if before.len() > 0 {
            assert(T::index_of(items[before.len() - 1]) == before.len() - 1);
            assert(T::index_of(items[items.len() - 1]) == items.len() - 1);
        }
        assert(items =~= before.push(items.last()));
    }
}

/// In entries whose positions go strictly up, entry `i` carries at
/// least the position `i`.
proof fn lemma_positions_from_below<T: Indexed>(out: Seq<T::V>, i: int)
    requires
        0 <= i < out.len(),
        forall|a: int, b: int|
            0 <= a < b < out.len() ==> T::index_of(#[trigger] out[a]) < T::index_of(
                #[trigger] out[b],
            ),
    ensures
        T::index_of(out[i]) >= i,
    decreases i,
{
    if i > 0 {
        lemma_positions_from_below::<T>(out, i - 1);
        assert(T::index_of(out[i - 1]) < T::index_of(out[i]));
    }
}

/// In entries whose positions go strictly up and stay below the number
/// of entries, entry `i` carries at most the position `i`.
proof fn lemma_positions_from_above<T: Indexed>(out: Seq<T::V>, i: int)
    requires
        0 <= i < out.len(),
        forall|a: int| 0 <= a < out.len() ==> T::index_of(#[trigger] out[a]) < out.len(),
        forall|a: int, b: int|
            0 <= a < b < out.len() ==> T::index_of(#[trigger] out[a]) < T::index_of(
                #[trigger] out[b],
            ),
    ensures
        T::index_of(out[i]) <= i,
    decreases out.len() - i,
{
    if i + 1 < out.len() {
        lemma_positions_from_above::<T>(out, i + 1);
        assert(T::index_of(out[i]) < T::index_of(out[i + 1]));
    }
}

/// The order in which a container wrote its children is recovered from
/// any order in which they are found: sorting any rearrangement of
/// entries that carry the positions 0, 1, 2, ... gives them back in the
/// order of those positions.
pub proof fn lemma_order_recovered_from_any<T: Indexed>(items: Seq<T::V>, found: Seq<T::V>)
    requires
        indexed_in_place::<T>(items),
        found.to_multiset() == items.to_multiset(),
    ensures
        sorted_by_index::<T>(found) == items,
{
    broadcast use vstd::seq_lib::group_to_multiset_ensures;

    let out = sorted_by_index::<T>(found);
    lemma_sorted_by_index::<T>(found);
    items.to_multiset_ensures();
    out.to_multiset_ensures();
    found.to_multiset_ensures();
    assert(out.len() == items.len());
    // Each entry of `out` is the entry of `items` that carries its position.
    assert forall|i: int| 0 <= i < out.len() implies T::index_of(#[trigger] out[i]) < out.len()
        && items[T::index_of(out[i]) as int] == out[i] by {
        assert(out.contains(out[i]));
        assert(items.to_multiset().count(out[i]) > 0);
        assert(items.contains(out[i]));
        let k = choose|k: int| 0 <= k < items.len() && items[k] == out[i];
        assert(T::index_of(items[k]) == k);
    }
    // No entry of `items` stands twice, so none of `out` does.
    assert(items.no_duplicates()) by {
        assert forall|a: int, b: int| 0 <= a < items.len() && 0 <= b < items.len() && a
            != b implies items[a] != items[b] by {
            assert(T::index_of(items[a]) == a);
            assert(T::index_of(items[b]) == b);
        }
    }
    items.lemma_multiset_has_no_duplicates();
    out.lemma_multiset_has_no_duplicates_conv();
    assert forall|a: int, b: int| 0 <= a < b < out.len() implies T::index_of(#[trigger] out[a])
        < T::index_of(#[trigger] out[b]) by {
        assert(out[a] != out[b]);
        assert(T::index_of(out[a]) <= T::index_of(out[b]));
        assert(items[T::index_of(out[a]) as int] == out[a]);
        assert(items[T::index_of(out[b]) as int] == out[b]);
    }
    assert forall|i: int| 0 <= i < out.len() implies out[i] == items[i] by {
        lemma_positions_from_below::<T>(out, i);
        lemma_positions_from_above::<T>(out, i);
        assert(items[T::index_of(out[i]) as int] == out[i]);
    }
    assert(out =~= items);
}

/// Sorts the entries by the positions they carry; entries with the same
/// position keep the order in which they stood.
pub fn sort_by_index<T: Indexed>(items: Vec<T>) -> (sorted: Vec<T>)
    ensures
        items_view(sorted@) == sorted_by_index::<T>(items_view(items@)),
        forall|i: int| 0 <= i < sorted@.len() ==> items@.contains(#[trigger] sorted@[i]),
{
    let ghost all = items@;
    let mut rest = items;
    let mut sorted: Vec<T> = Vec::new();
    assert(items_view(all.take(0)) =~= Seq::empty());
    assert(items_view(sorted@) =~= Seq::empty());
    while rest.len() > 0
        invariant
            rest@.len() <= all.len(),
            rest@ == all.skip(all.len() - rest@.len()),
            items_view(sorted@) == sorted_by_index::<T>(
                items_view(all.take(all.len() - rest@.len())),
            ),
            forall|i: int| 0 <= i < sorted@.len() ==> all.contains(#[trigger] sorted@[i]),
        decreases rest@.len(),
    {
        let ghost done = all.len() - rest@.len();
        let ghost before = sorted@;
        let item = rest.remove(0);
        assert(item == all[done]);
        assert(rest@ =~= all.skip(done + 1));
        let key = item.index();
        let mut p: usize = sorted.len();
        while p > 0 && sorted[p - 1].index() > key
            invariant
                p <= sorted@.len(),
                key == T::index_of(item@),
                forall|i: int|
                    p <= i < sorted@.len() ==> T::index_of(#[trigger] sorted@[i]@) > key,
            decreases p,
        {
            p -= 1;
        }
        proof {
            let views = items_view(before);
            assert forall|i: int| p <= i < views.len() implies T::index_of(#[trigger] views[i])
                > T::index_of(item@) by {
                assert(T::index_of(before[i]@) > key);
            }
            lemma_insert_at::<T>(views, item@, p as int);
            assert(items_view(all.take(done + 1)).drop_last() =~= items_view(all.take(done)));
            assert(items_view(all.take(done + 1)).last() == item@);
        }
        sorted.insert(p, item);
        assert(items_view(sorted@) =~= items_view(before).insert(p as int, item@));
        assert forall|i: int| 0 <= i < sorted@.len() implies all.contains(#[trigger] sorted@[i]) by {
            if i < p {
                assert(sorted@[i] == before[i]);
            } else if i > p {
                assert(sorted@[i] == before[i - 1]);
            }
        }
    }
    assert(all.take(all.len() as int) =~= all);
    sorted
}

/// Gives each entry the position at which it stands.
pub fn set_indexes<T: Indexed>(items: Vec<T>) -> (placed: Vec<T>)
    ensures
        items_view(placed@) == reindexed::<T>(items_view(items@)),
{
    let ghost all = items@;
    let mut rest = items;
    let mut placed: Vec<T> = Vec::new();
    while rest.len() > 0
        invariant
            placed@.len() + rest@.len() == all.len(),
            rest@ == all.skip(placed@.len() as int),
            forall|i: int|
                0 <= i < placed@.len() ==> (#[trigger] placed@[i])@ == T::with_index(
                    all[i]@,
                    i as usize,
                ),
        decreases rest@.len(),
    {
        let ghost done = placed@.len() as int;
        let mut item = rest.remove(0);
        assert(item == all[done]);
        assert(rest@ =~= all.skip(done + 1));
        item.set_index(placed.len());
        placed.push(item);
    }
    assert(items_view(placed@) =~= reindexed::<T>(items_view(all)));
    placed
}

/// Entries that stand at the positions they carry are left as they are
/// when each is given the position at which it stands.
pub proof fn lemma_reindexed_in_place<T: Indexed>(items: Seq<T::V>)
    requires
        indexed_in_place::<T>(items),
    ensures
        reindexed::<T>(items) == items,
{
    assert forall|i: int| 0 <= i < items.len() implies reindexed::<T>(items)[i] == items[i] by {
        T::lemma_with_index(items[i], i as usize);
        assert(T::index_of(items[i]) == i);
    }
    assert(reindexed::<T>(items) =~= items);
}

/// Entries that were each given the position at which they stand carry
/// those positions.
pub proof fn lemma_reindexed<T: Indexed>(items: Seq<T::V>)
    requires
        items.len() <= usize::MAX,
    ensures
        indexed_in_place::<T>(reindexed::<T>(items)),
{
    assert forall|i: int| 0 <= i < items.len() implies T::index_of(
        #[trigger] reindexed::<T>(items)[i],
    ) == i by {
        T::lemma_with_index(items[i], i as usize);
    }
}

/// The children under a predicate that may repeat, in the order in which
/// their container held them: all objects of the predicate are decoded,
/// put into the order of the positions they carry, and then given the
/// positions at which they stand.
pub open spec fn indexed_objects<T: DocumentCodec + Indexed>(
    document: DocumentView,
    predicate: Seq<char>,
) -> Result<Seq<T::V>, DecodeErrorView> {
    match entity_objects::<T>(document, predicate) {
        Ok(items) => Ok(reindexed::<T>(sorted_by_index::<T>(items))),
        Err(e) => Err(e),
    }
}

/// Decodes the children under a predicate that may repeat, and puts them
/// back into the order in which their container held them.
pub fn indexed_objects_for_predicate<T: DocumentCodec + Indexed>(
    document: &Document,
    predicate: &str,
) -> (outcome: Result<Vec<T>, DecodeError>)
    ensures
        match outcome {
            Ok(items) => {
                &&& indexed_objects::<T>(document@, predicate@) == Ok::<Seq<T::V>, DecodeErrorView>(
                    items_view(items@),
                )
                &&& indexed_in_place::<T>(items_view(items@))
            },
            Err(e) => indexed_objects::<T>(document@, predicate@) == Err::<
                Seq<T::V>,
                DecodeErrorView,
            >(e@),
        },
{
    match try_objects_for_predicate::<T>(document, predicate) {
        Ok(found) => {
            let count = found.len();
            proof {
                lemma_sorted_by_index::<T>(items_view(found@));
                lemma_reindexed::<T>(sorted_by_index::<T>(items_view(found@)));
            }
            Ok(set_indexes(sort_by_index(found)))
        },
        Err(e) => Err(e),
    }
}

} // verus!
