//! What the frontier stands for: the leaves that were appended, and the
//! root of the whole tree over them.

use crate::merkle_tree::{
    carry, empty_root, fill, fold_up, lemma_append_all, parents_size, Frontier, MerkleHash,
};
use vstd::arithmetic::power2::{lemma2_to64, lemma_pow2_pos, lemma_pow2_unfold, pow2};
use vstd::prelude::*;

verus! {

/// The root of the tree of height `level` whose `2^level` leaves are
/// `leaves`.
pub open spec fn perfect_root<H: MerkleHash>(leaves: Seq<H>, level: nat) -> H
    decreases level,
{
    if level == 0 {
        leaves[0]
    } else {
        let half = pow2((level - 1) as nat) as int;
        H::combine_spec(
            perfect_root(leaves.take(half), (level - 1) as nat),
            perfect_root(leaves.skip(half), (level - 1) as nat),
            (level - 1) as nat,
        )
    }
}

/// The root of the tree of height `level` whose first leaves are
/// `leaves`, at most `2^level` of them, and whose other leaves are empty.
pub open spec fn padded_root<H: MerkleHash>(leaves: Seq<H>, level: nat) -> H
    decreases level,
{
    if leaves.len() == 0 {
        empty_root::<H>(level)
    } else if level == 0 {
        leaves[0]
    } else {
        let half = pow2((level - 1) as nat) as int;
        if leaves.len() <= half {
            H::combine_spec(
                padded_root(leaves, (level - 1) as nat),
                empty_root::<H>((level - 1) as nat),
                (level - 1) as nat,
            )
        } else {
            H::combine_spec(
                perfect_root(leaves.take(half), (level - 1) as nat),
                padded_root(leaves.skip(half), (level - 1) as nat),
                (level - 1) as nat,
            )
        }
    }
}

/// The parents are the roots of the completed subtrees over `leaves`:
/// read from the highest level down, each parent that is there is the
/// root over the next `2^(i+1)` leaves, and no leaf is left over.
pub open spec fn parents_cover<H: MerkleHash>(parents: Seq<Option<H>>, leaves: Seq<H>) -> bool
    decreases parents.len(),
{
    if parents.len() == 0 {
        leaves.len() == 0
    } else {
        let block = pow2(parents.len()) as int;
        match parents.last() {
            Some(node) => {
                &&& leaves.len() >= block
                &&& node == perfect_root(leaves.take(block), parents.len())
                &&& parents_cover(parents.drop_last(), leaves.skip(block))
            },
            None => parents_cover(parents.drop_last(), leaves),
        }
    }
}

/// The frontier is the one of the tree to which exactly `leaves` were
/// appended, in order.
pub open spec fn represents<H: MerkleHash>(frontier: Frontier<H>, leaves: Seq<H>) -> bool {
    match (frontier.left, frontier.right) {
        (None, None) => frontier.parents.len() == 0 && leaves.len() == 0,
        (Some(left), None) => {
            &&& leaves.len() >= 1
            &&& leaves[leaves.len() - 1] == left
            &&& parents_cover(frontier.parents, leaves.take(leaves.len() - 1))
        },
        (Some(left), Some(right)) => {
            &&& leaves.len() >= 2
            &&& leaves[leaves.len() - 2] == left
            &&& leaves[leaves.len() - 1] == right
            &&& parents_cover(frontier.parents, leaves.take(leaves.len() - 2))
        },
        (None, Some(_)) => false,
    }
}

/// The parents cover as many leaves as they are counted to hold.
pub proof fn lemma_cover_size<H: MerkleHash>(parents: Seq<Option<H>>, leaves: Seq<H>)
    requires
        parents_cover(parents, leaves),
    ensures
        leaves.len() == parents_size(parents),
    decreases parents.len(),
{
    if parents.len() > 0 {
        let block = pow2(parents.len()) as int;
        match parents.last() {
            Some(_) => {
                lemma_cover_size(parents.drop_last(), leaves.skip(block));
            },
            None => {
                lemma_cover_size(parents.drop_last(), leaves);
            },
        }
    }
}

/// Parents none of which is there hold no leaf.
pub proof fn lemma_no_parents_no_leaves<H>(parents: Seq<Option<H>>)
    requires
        forall|j: int| 0 <= j < parents.len() ==> (#[trigger] parents[j]) is None,
    ensures
        parents_size(parents) == 0,
    decreases parents.len(),
{
    if parents.len() > 0 {
        assert(parents[parents.len() - 1] is None);
        assert forall|j: int| 0 <= j < parents.drop_last().len() implies (
        #[trigger] parents.drop_last()[j]) is None by {
            assert(parents[j] is None);
        }
        lemma_no_parents_no_leaves(parents.drop_last());
    }
}

/// Parents none of which is there cover no leaves, and nothing else.
pub proof fn lemma_no_parents_cover_nothing<H: MerkleHash>(
    parents: Seq<Option<H>>,
    leaves: Seq<H>,
)
    requires
        forall|j: int| 0 <= j < parents.len() ==> (#[trigger] parents[j]) is None,
    ensures
        parents_cover(parents, leaves) <==> leaves.len() == 0,
    decreases parents.len(),
{
    if parents.len() > 0 {
        assert(parents[parents.len() - 1] is None);
        assert forall|j: int| 0 <= j < parents.drop_last().len() implies (
        #[trigger] parents.drop_last()[j]) is None by {
            assert(parents[j] is None);
        }
        lemma_no_parents_cover_nothing(parents.drop_last(), leaves);
    }
}

/// Where no parent stands at level `i` or below, the root of a subtree
/// over `2^(i+1)` further leaves can be put at level `i`.
pub proof fn lemma_cover_set<H: MerkleHash>(
    parents: Seq<Option<H>>,
    leaves: Seq<H>,
    i: int,
    node: H,
    block: Seq<H>,
)
    requires
        0 <= i < parents.len(),
        forall|j: int| 0 <= j <= i ==> (#[trigger] parents[j]) is None,
        parents_cover(parents, leaves),
        block.len() == pow2((i + 1) as nat),
        node == perfect_root(block, (i + 1) as nat),
    ensures
        parents_cover(parents.update(i, Some(node)), leaves + block),
    decreases parents.len(),
{
    let n = parents.len();
    let updated = parents.update(i, Some(node));
    let top = pow2(n) as int;
    let before = parents.drop_last();
    if i == n - 1 {
        assert forall|j: int| 0 <= j < before.len() implies (#[trigger] before[j]) is None by {
            assert(parents[j] is None);
        }
        lemma_no_parents_cover_nothing(before, leaves);
        lemma_no_parents_cover_nothing(before, (leaves + block).skip(top));
        assert(updated.drop_last() =~= before);
        assert((leaves + block).take(top) =~= block);
    } else {
        assert(updated.drop_last() =~= before.update(i, Some(node)));
        assert forall|j: int| 0 <= j <= i implies (#[trigger] before[j]) is None by {
            assert(parents[j] is None);
        }
        match parents.last() {
            Some(_) => {
                lemma_cover_set(before, leaves.skip(top), i, node, block);
                assert((leaves + block).take(top) =~= leaves.take(top));
                assert((leaves + block).skip(top) =~= leaves.skip(top) + block);
            },
            None => {
                lemma_cover_set(before, leaves, i, node, block);
            },
        }
    }
}

/// Where no parent stands below level `i`, the parent at level `i` is the
/// root over the last `2^(i+1)` leaves, and without it the parents cover
/// the leaves before those.
pub proof fn lemma_cover_clear<H: MerkleHash>(parents: Seq<Option<H>>, leaves: Seq<H>, i: int)
    requires
        0 <= i < parents.len(),
        parents[i] is Some,
        forall|j: int| 0 <= j < i ==> (#[trigger] parents[j]) is None,
        parents_cover(parents, leaves),
    ensures
        leaves.len() >= pow2((i + 1) as nat),
        parents[i]->Some_0 == perfect_root(
            leaves.skip(leaves.len() - pow2((i + 1) as nat)),
            (i + 1) as nat,
        ),
        parents_cover(parents.update(i, None), leaves.take(leaves.len() - pow2((i + 1) as nat))),
    decreases parents.len(),
{
    let n = parents.len();
    let updated = parents.update(i, None);
    let top = pow2(n) as int;
    let width = pow2((i + 1) as nat) as int;
    let before = parents.drop_last();
    if i == n - 1 {
        assert forall|j: int| 0 <= j < before.len() implies (#[trigger] before[j]) is None by {
            assert(parents[j] is None);
        }
        lemma_no_parents_cover_nothing(before, leaves.skip(top));
        lemma_no_parents_cover_nothing(before, leaves.take(0));
        assert(updated.drop_last() =~= before);
        assert(leaves.skip(0) =~= leaves.take(top));
    } else {
        assert(updated.drop_last() =~= before.update(i, None));
        assert(before[i] == parents[i]);
        assert forall|j: int| 0 <= j < i implies (#[trigger] before[j]) is None by {
            assert(parents[j] is None);
        }
        match parents.last() {
            Some(_) => {
                let rest = leaves.skip(top);
                lemma_cover_clear(before, rest, i);
                assert(rest.skip(rest.len() - width) =~= leaves.skip(leaves.len() - width));
                assert(leaves.take(leaves.len() - width).take(top) =~= leaves.take(top));
                assert(leaves.take(leaves.len() - width).skip(top) =~= rest.take(
                    rest.len() - width,
                ));
            },
            None => {
                lemma_cover_clear(before, leaves, i);
            },
        }
    }
}

/// Carrying the root of a completed subtree over `block` into parents
/// that cover `leaves` leaves parents that cover `leaves` and `block`.
pub proof fn lemma_carry_cover<H: MerkleHash>(
    parents: Seq<Option<H>>,
    node: H,
    i: nat,
    leaves: Seq<H>,
    block: Seq<H>,
)
    requires
        i <= parents.len(),
        forall|j: int| 0 <= j < i ==> (#[trigger] parents[j]) is None,
        parents_cover(parents, leaves),
        block.len() == pow2(i + 1),
        node == perfect_root(block, i + 1),
    ensures
        parents_cover(carry(parents, node, i), leaves + block),
    decreases parents.len() - i,
{
    let width = pow2(i + 1) as int;
    if i == parents.len() {
        lemma_no_parents_cover_nothing(parents, leaves);
        lemma_no_parents_cover_nothing(parents, (leaves + block).skip(width));
        let pushed = parents.push(Some(node));
        assert(pushed.drop_last() =~= parents);
        assert((leaves + block).take(width) =~= block);
    } else {
        match parents[i as int] {
            None => {
                lemma_cover_set(parents, leaves, i as int, node, block);
            },
            Some(p) => {
                lemma_cover_clear(parents, leaves, i as int);
                let cleared = parents.update(i as int, None);
                let kept = leaves.take(leaves.len() - width);
                let merged = leaves.skip(leaves.len() - width) + block;
                let combined = H::combine_spec(p, node, i + 1);
                lemma_pow2_unfold(i + 2);
                assert(merged.take(width) =~= leaves.skip(leaves.len() - width));
                assert(merged.skip(width) =~= block);
                assert(combined == perfect_root(merged, i + 2));
                lemma_carry_cover(cleared, combined, i + 1, kept, merged);
                assert(kept + merged =~= leaves + block);
            },
        }
    }
}

/// The frontier after one more leaf is the frontier of the tree with one
/// more leaf.
pub proof fn lemma_append_represents<H: MerkleHash>(frontier: Frontier<H>, leaves: Seq<H>, leaf: H)
    requires
        represents(frontier, leaves),
    ensures
        represents(frontier.append(leaf), leaves.push(leaf)),
{
    let grown = leaves.push(leaf);
    lemma2_to64();
    match (frontier.left, frontier.right) {
        (None, _) => {
            assert(grown.take(0) =~= leaves);
        },
        (Some(left), None) => {
            assert(grown.take(grown.len() - 2) =~= leaves.take(leaves.len() - 1));
        },
        (Some(left), Some(right)) => {
            let covered = leaves.take(leaves.len() - 2);
            let pair = leaves.skip(leaves.len() - 2);
            let node = H::combine_spec(left, right, 0);
            assert(pair.take(1)[0] == left);
            assert(pair.skip(1)[0] == right);
            assert(node == perfect_root(pair, 1)) by {
                reveal_with_fuel(perfect_root, 2);
            }
            lemma_carry_cover(frontier.parents, node, 0, covered, pair);
            assert(covered + pair =~= leaves);
            assert(grown.take(grown.len() - 1) =~= leaves);
        },
    }
}

/// The frontier after more leaves is the frontier of the tree with those
/// leaves more.
pub proof fn lemma_append_all_represents<H: MerkleHash>(
    frontier: Frontier<H>,
    leaves: Seq<H>,
    more: Seq<H>,
)
    requires
        represents(frontier, leaves),
    ensures
        represents(frontier.append_all(more), leaves + more),
    decreases more.len(),
{
    if more.len() == 0 {
        assert(leaves + more =~= leaves);
    } else {
        lemma_append_represents(frontier, leaves, more[0]);
        lemma_append_all_represents(
            frontier.append(more[0]),
            leaves.push(more[0]),
            more.drop_first(),
        );
        assert(leaves.push(more[0]) + more.drop_first() =~= leaves + more);
    }
}

/// The parents from level `from` on, with those below taken away.
pub open spec fn parents_above<H>(parents: Seq<Option<H>>, from: int) -> Seq<Option<H>> {
    Seq::new(
        parents.len(),
        |i: int|
            if i < from {
                None
            } else {
                parents[i]
            },
    )
}

/// Folding up from a subtree that holds the last `under` leaves, along
/// parents that cover the leaves before those, gives the root over all
/// the leaves.
pub proof fn lemma_fold_up_root<H: MerkleHash>(
    parents: Seq<Option<H>>,
    depth: nat,
    leaves: Seq<H>,
    node: H,
    d: nat,
    under: nat,
    k: nat,
)
    requires
        1 <= d <= depth,
        parents.len() < depth,
        1 <= under <= pow2(d),
        under <= leaves.len(),
        node == padded_root(leaves.skip(leaves.len() - under), d),
        parents_cover(parents_above(parents, d - 1), leaves.take(leaves.len() - under)),
    ensures
        fold_up(parents, depth, Seq::empty(), node, d, k) == padded_root(leaves, depth),
    decreases depth - d,
{
    let here = parents_above(parents, d - 1);
    let before = leaves.take(leaves.len() - under);
    let below = leaves.skip(leaves.len() - under);
    let width = pow2(d) as int;
    lemma_pow2_unfold(d + 1);
    lemma_pow2_pos(d);
    if d <= parents.len() {
        match parents[d - 1] {
            Some(p) => {
                assert(here[d - 1] == parents[d - 1]);
                lemma_cover_clear(here, before, d - 1);
                assert(here.update(d - 1, None) =~= parents_above(parents, d as int));
                let block = before.skip(before.len() - width);
                let joined = leaves.skip(leaves.len() - under - width);
                assert(joined.take(width) =~= block);
                assert(joined.skip(width) =~= below);
                let above = H::combine_spec(p, node, d);
                assert(above == padded_root(joined, d + 1));
                assert(leaves.take(leaves.len() - under - width) =~= before.take(
                    before.len() - width,
                ));
                lemma_fold_up_root(
                    parents,
                    depth,
                    leaves,
                    above,
                    d + 1,
                    (under + width) as nat,
                    k,
                );
            },
            None => {
                assert(here =~= parents_above(parents, d as int));
                let above = H::combine_spec(node, fill(Seq::<H>::empty(), k, d), d);
                assert(above == padded_root(below, d + 1));
                lemma_fold_up_root(parents, depth, leaves, above, d + 1, under, k + 1);
            },
        }
    } else {
        assert forall|j: int| 0 <= j < here.len() implies (#[trigger] here[j]) is None by {}
        lemma_no_parents_cover_nothing(here, before);
        assert(below =~= leaves);
        if d < depth {
            let above = H::combine_spec(node, fill(Seq::<H>::empty(), k, d), d);
            assert(above == padded_root(leaves, d + 1));
            assert(parents_above(parents, d as int) =~= here);
            lemma_fold_up_root(parents, depth, leaves, above, d + 1, under, k + 1);
        }
    }
}

/// Folding up from an empty subtree without parents gives an empty tree.
pub proof fn lemma_fold_up_empty<H: MerkleHash>(depth: nat, d: nat, k: nat)
    requires
        1 <= d <= depth,
    ensures
        fold_up(Seq::<Option<H>>::empty(), depth, Seq::<H>::empty(), empty_root::<H>(d), d, k)
            == empty_root::<H>(depth),
    decreases depth - d,
{
    if d < depth {
        lemma_fold_up_empty::<H>(depth, d + 1, k + 1);
    }
}

/// The root of a tree is the root over its leaves: the root of the full
/// tree of height `depth` whose first leaves are those that were
/// appended, in order, and whose other leaves are empty.
pub proof fn lemma_root_is_padded_root<H: MerkleHash>(
    frontier: Frontier<H>,
    leaves: Seq<H>,
    depth: nat,
)
    requires
        frontier.well_formed(depth),
        represents(frontier, leaves),
    ensures
        frontier.root(depth, Seq::empty()) == padded_root(leaves, depth),
{
    lemma2_to64();
    let filler = Seq::<H>::empty();
    match (frontier.left, frontier.right) {
        (None, _) => {
            assert(frontier.parents =~= Seq::<Option<H>>::empty());
            assert(empty_root::<H>(1) == H::combine_spec(
                empty_root::<H>(0),
                empty_root::<H>(0),
                0,
            ));
            lemma_fold_up_empty::<H>(depth, 1, 2);
        },
        (Some(left), None) => {
            let below = leaves.skip(leaves.len() - 1);
            let node = H::combine_spec(left, fill(filler, 0, 0), 0);
            assert(below[0] == left);
            assert(node == padded_root(below, 1)) by {
                reveal_with_fuel(padded_root, 2);
            }
            assert(parents_above(frontier.parents, 0) =~= frontier.parents);
            lemma_fold_up_root(frontier.parents, depth, leaves, node, 1, 1, 1);
        },
        (Some(left), Some(right)) => {
            let below = leaves.skip(leaves.len() - 2);
            let node = H::combine_spec(left, right, 0);
            assert(below.take(1)[0] == left);
            assert(below.skip(1)[0] == right);
            assert(node == padded_root(below, 1)) by {
                reveal_with_fuel(padded_root, 2);
                reveal_with_fuel(perfect_root, 2);
            }
            assert(parents_above(frontier.parents, 0) =~= frontier.parents);
            lemma_fold_up_root(frontier.parents, depth, leaves, node, 1, 2, 0);
        },
    }
}

/// Appending leaves to the empty tree, at most as many as it has room
/// for, gives the tree whose root is the root over those leaves.
pub proof fn lemma_root_of_appended<H: MerkleHash>(leaves: Seq<H>, depth: nat)
    requires
        1 <= depth <= crate::merkle_tree::MAX_DEPTH,
        leaves.len() <= pow2(depth),
    ensures
        Frontier::<H>::empty().append_all(leaves).well_formed(depth),
        Frontier::<H>::empty().append_all(leaves).root(depth, Seq::empty()) == padded_root(
            leaves,
            depth,
        ),
{
    let start = Frontier::<H>::empty();
    assert(parents_size(start.parents) == 0);
    lemma_append_all(start, leaves, depth);
    lemma_append_all_represents(start, Seq::<H>::empty(), leaves);
    assert(Seq::<H>::empty() + leaves =~= leaves);
    lemma_root_is_padded_root(start.append_all(leaves), leaves, depth);
}

/// Over exactly `2^level` leaves nothing is padded.
pub proof fn lemma_padded_full<H: MerkleHash>(leaves: Seq<H>, level: nat)
    requires
        leaves.len() == pow2(level),
    ensures
        padded_root(leaves, level) == perfect_root(leaves, level),
    decreases level,
{
    lemma_pow2_pos(level);
    if level > 0 {
        lemma_pow2_unfold(level);
        let half = pow2((level - 1) as nat) as int;
        lemma_pow2_pos((level - 1) as nat);
        lemma_padded_full(leaves.skip(half), (level - 1) as nat);
    }
}

/// The frontier of a tree holds as many leaves as were appended.
pub proof fn lemma_represents_size<H: MerkleHash>(frontier: Frontier<H>, leaves: Seq<H>)
    requires
        represents(frontier, leaves),
    ensures
        frontier.size() == leaves.len(),
{
    match (frontier.left, frontier.right) {
        (None, _) => {
            assert(parents_size(frontier.parents) == 0);
        },
        (Some(_), None) => {
            lemma_cover_size(frontier.parents, leaves.take(leaves.len() - 1));
        },
        (Some(_), Some(_)) => {
            lemma_cover_size(frontier.parents, leaves.take(leaves.len() - 2));
        },
    }
}

/// `count` empty leaves.
pub open spec fn empty_leaves<H: MerkleHash>(count: nat) -> Seq<H> {
    Seq::new(count, |i: int| H::uncommitted_spec())
}

/// The root over empty leaves only is the root of the empty subtree.
pub proof fn lemma_perfect_root_of_empty<H: MerkleHash>(level: nat)
    ensures
        perfect_root(empty_leaves::<H>(pow2(level)), level) == empty_root::<H>(level),
    decreases level,
{
    lemma2_to64();
    lemma_pow2_pos(level);
    let leaves = empty_leaves::<H>(pow2(level));
    if level > 0 {
        lemma_pow2_unfold(level);
        let half = pow2((level - 1) as nat);
        lemma_perfect_root_of_empty::<H>((level - 1) as nat);
        assert(leaves.take(half as int) =~= empty_leaves::<H>(half));
        assert(leaves.skip(half as int) =~= empty_leaves::<H>(half));
    }
}

/// The root over leaves padded with empty subtrees is the root of the
/// full tree over the leaves followed by empty leaves.
pub proof fn lemma_padded_root_is_perfect<H: MerkleHash>(leaves: Seq<H>, level: nat)
    requires
        leaves.len() <= pow2(level),
    ensures
        padded_root(leaves, level) == perfect_root(
            leaves + empty_leaves::<H>((pow2(level) - leaves.len()) as nat),
            level,
        ),
    decreases level,
{
    lemma2_to64();
    lemma_pow2_pos(level);
    let missing = (pow2(level) - leaves.len()) as nat;
    let all = leaves + empty_leaves::<H>(missing);
    if leaves.len() == 0 {
        assert(all =~= empty_leaves::<H>(pow2(level)));
        lemma_perfect_root_of_empty::<H>(level);
    } else if level > 0 {
        lemma_pow2_unfold(level);
        let half = pow2((level - 1) as nat);
        if leaves.len() <= half {
            lemma_padded_root_is_perfect(leaves, (level - 1) as nat);
            lemma_perfect_root_of_empty::<H>((level - 1) as nat);
            assert(all.take(half as int) =~= leaves + empty_leaves::<H>(
                (half - leaves.len()) as nat,
            ));
            assert(all.skip(half as int) =~= empty_leaves::<H>(half));
        } else {
            lemma_padded_root_is_perfect(leaves.skip(half as int), (level - 1) as nat);
            assert(all.take(half as int) =~= leaves.take(half as int));
            assert(all.skip(half as int) =~= leaves.skip(half as int) + empty_leaves::<H>(
                missing,
            ));
        }
    } else {
        assert(all =~= leaves);
    }
}

} // verus!
