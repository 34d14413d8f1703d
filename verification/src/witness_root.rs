//! What a witness stands for: the leaves of its tree, the leaves that
//! came later, and the root of the whole tree over both.

use crate::merkle_root::{
    lemma_append_all_represents, lemma_append_represents, lemma_cover_clear,
    lemma_no_parents_cover_nothing, lemma_padded_full, lemma_represents_size,
    lemma_root_is_padded_root, padded_root, parents_above, parents_cover, perfect_root,
    represents,
};
use crate::merkle_tree::{
    climb, fill, fold_up, lemma_append_all, lemma_append_keeps_shape, lemma_capacity,
    lemma_parents_size_split, next_level, parents_size_from, Frontier, MerkleHash,
};
use crate::witness::{
    lemma_append_keeps_witness_shape, lemma_witness_path_authenticates, lemma_witness_path_length,
    WitnessView,
};
use vstd::arithmetic::power2::{lemma2_to64, lemma_pow2_pos, lemma_pow2_unfold, pow2};
use vstd::prelude::*;

verus! {

/// How many of `available` leaves the next subtree of height `level`
/// takes: all that it has room for.
pub open spec fn block_len(level: nat, available: nat) -> nat {
    if available < pow2(level) {
        available
    } else {
        pow2(level)
    }
}

/// The fillers from index `j` on are the roots over `rest`, block by
/// block: filler `j` stands at level `levels[j]` and is the root over the
/// next leaves, as many as a subtree of that height takes, and no leaf is
/// left over.
pub open spec fn fillers_cover<H: MerkleHash>(
    levels: Seq<nat>,
    filler: Seq<H>,
    j: nat,
    rest: Seq<H>,
) -> bool
    decreases filler.len() - j,
{
    if j >= filler.len() {
        rest.len() == 0
    } else {
        let taken = block_len(levels[j as int], rest.len()) as int;
        &&& taken >= 1
        &&& filler[j as int] == padded_root(rest.take(taken), levels[j as int])
        &&& fillers_cover(levels, filler, j + 1, rest.skip(taken))
    }
}

/// Folding up from a subtree over the leaves from `at` on, `under` many,
/// along parents that cover the leaves before them and fillers that cover
/// the leaves after them, gives the root over all the leaves.
pub proof fn lemma_fold_up_filled<H: MerkleHash>(
    parents: Seq<Option<H>>,
    depth: nat,
    levels: Seq<nat>,
    filler: Seq<H>,
    leaves: Seq<H>,
    node: H,
    d: nat,
    k: nat,
    at: int,
    under: int,
)
    requires
        0 <= at,
        1 <= d <= depth,
        parents.len() < depth,
        leaves.len() <= pow2(depth),
        levels.len() == filler.len(),
        forall|j: int|
            k <= j < filler.len() ==> #[trigger] levels[j] == next_level(
                parents,
                d,
                (j - k) as nat,
            ),
        1 <= under <= pow2(d),
        at + under <= leaves.len(),
        node == padded_root(leaves.subrange(at, at + under), d),
        parents_cover(parents_above(parents, d - 1), leaves.take(at)),
        fillers_cover(levels, filler, k, leaves.skip(at + under)),
        leaves.len() > at + under ==> under == pow2(d),
    ensures
        fold_up(parents, depth, filler, node, d, k) == padded_root(leaves, depth),
    decreases depth - d,
{
    let here = parents_above(parents, d - 1);
    let before = leaves.take(at);
    let window = leaves.subrange(at, at + under);
    let rest = leaves.skip(at + under);
    let width = pow2(d) as int;
    lemma_pow2_unfold(d + 1);
    lemma_pow2_pos(d);
    if d <= parents.len() && parents[d - 1] is Some {
        let p = parents[d - 1]->Some_0;
        assert(here[d - 1] == parents[d - 1]);
        lemma_cover_clear(here, before, d - 1);
        assert(here.update(d - 1, None) =~= parents_above(parents, d as int));
        let joined = leaves.subrange(at - width, at + under);
        assert(joined.take(width) =~= before.skip(before.len() - width));
        assert(joined.skip(width) =~= window);
        let above = H::combine_spec(p, node, d);
        assert(above == padded_root(joined, d + 1));
        assert(leaves.take(at - width) =~= before.take(before.len() - width));
        assert forall|j: int| k <= j < filler.len() implies #[trigger] levels[j] == next_level(
            parents,
            d + 1,
            (j - k) as nat,
        ) by {
            assert(levels[j] == next_level(parents, d, (j - k) as nat));
        }
        lemma_fold_up_filled(
            parents,
            depth,
            levels,
            filler,
            leaves,
            above,
            d + 1,
            k,
            at - width,
            under + width,
        );
    } else if d < depth {
        assert(here =~= parents_above(parents, d as int));
        if k < filler.len() {
            assert(levels[k as int] == next_level(parents, d, 0));
            assert(levels[k as int] == d);
            let taken = block_len(d, rest.len()) as int;
            lemma_padded_full(window, d);
            let joined = leaves.subrange(at, at + under + taken);
            assert(joined.take(width) =~= window);
            assert(joined.skip(width) =~= rest.take(taken));
            let above = H::combine_spec(node, fill(filler, k, d), d);
            assert(above == padded_root(joined, d + 1));
            assert(rest.skip(taken) =~= leaves.skip(at + under + taken));
            assert forall|j: int| k + 1 <= j < filler.len() implies #[trigger] levels[j]
                == next_level(parents, d + 1, (j - (k + 1)) as nat) by {
                assert(levels[j] == next_level(parents, d, (j - k) as nat));
            }
            lemma_fold_up_filled(
                parents,
                depth,
                levels,
                filler,
                leaves,
                above,
                d + 1,
                k + 1,
                at,
                under + taken,
            );
        } else {
            let above = H::combine_spec(node, fill(filler, k, d), d);
            assert(above == padded_root(window, d + 1));
            lemma_fold_up_filled(
                parents,
                depth,
                levels,
                filler,
                leaves,
                above,
                d + 1,
                k + 1,
                at,
                under,
            );
        }
    } else {
        assert forall|j: int| 0 <= j < here.len() implies (#[trigger] here[j]) is None by {}
        lemma_no_parents_cover_nothing(here, before);
        assert(window =~= leaves);
    }
}

/// The filled nodes from index `j` on are the roots over `covered`, block
/// by block: filled node `j` is the root of a full subtree, of the height
/// of the place it takes, over the next leaves, and no leaf is left over.
pub open spec fn filled_cover<H: MerkleHash>(
    tree: Frontier<H>,
    filled: Seq<H>,
    j: nat,
    covered: Seq<H>,
) -> bool
    decreases filled.len() - j,
{
    if j >= filled.len() {
        covered.len() == 0
    } else {
        let width = pow2(tree.next_depth(j)) as int;
        &&& covered.len() >= width
        &&& filled[j as int] == perfect_root(covered.take(width), tree.next_depth(j))
        &&& filled_cover(tree, filled, j + 1, covered.skip(width))
    }
}

/// How many leaves stand under the first `count` filled nodes.
pub open spec fn filled_size<H: MerkleHash>(tree: Frontier<H>, count: nat) -> nat
    decreases count,
{
    if count == 0 {
        0
    } else {
        filled_size(tree, (count - 1) as nat) + pow2(tree.next_depth((count - 1) as nat))
    }
}

/// The levels of the first `count` places to the right of the frontier.
pub open spec fn filler_levels<H: MerkleHash>(tree: Frontier<H>, count: nat) -> Seq<nat> {
    Seq::new(count, |j: int| tree.next_depth(j as nat))
}

/// The witness is the one of the newest leaf of the tree over `base`,
/// after the leaves `later` were appended to that tree: its filled nodes
/// are the roots over the first of the later leaves, and its cursor is
/// the tree over the others.
pub open spec fn witness_represents<H: MerkleHash>(
    witness: WitnessView<H>,
    base: Seq<H>,
    later: Seq<H>,
) -> bool {
    let split = filled_size(witness.tree, witness.filled.len()) as int;
    &&& represents(witness.tree, base)
    &&& split <= later.len()
    &&& filled_cover(witness.tree, witness.filled, 0, later.take(split))
    &&& match witness.cursor {
        Some(cursor) => represents(cursor, later.skip(split)),
        None => later.len() == split,
    }
}

/// The filled nodes from `j` on cover as many leaves as stand under them.
pub proof fn lemma_filled_cover_size<H: MerkleHash>(
    tree: Frontier<H>,
    filled: Seq<H>,
    j: nat,
    covered: Seq<H>,
)
    requires
        j <= filled.len(),
        filled_cover(tree, filled, j, covered),
    ensures
        covered.len() + filled_size(tree, j) == filled_size(tree, filled.len()),
    decreases filled.len() - j,
{
    if j < filled.len() {
        let width = pow2(tree.next_depth(j)) as int;
        lemma_filled_cover_size(tree, filled, j + 1, covered.skip(width));
    }
}

/// One more filled node, the root of a full subtree over `block` at the
/// next place, covers `block` after what was covered.
pub proof fn lemma_filled_cover_push<H: MerkleHash>(
    tree: Frontier<H>,
    filled: Seq<H>,
    j: nat,
    covered: Seq<H>,
    node: H,
    block: Seq<H>,
)
    requires
        j <= filled.len(),
        filled_cover(tree, filled, j, covered),
        block.len() == pow2(tree.next_depth(filled.len())),
        node == perfect_root(block, tree.next_depth(filled.len())),
    ensures
        filled_cover(tree, filled.push(node), j, covered + block),
    decreases filled.len() - j,
{
    let grown = filled.push(node);
    let all = covered + block;
    if j < filled.len() {
        let width = pow2(tree.next_depth(j)) as int;
        lemma_filled_cover_push(tree, filled, j + 1, covered.skip(width), node, block);
        assert(all.take(width) =~= covered.take(width));
        assert(all.skip(width) =~= covered.skip(width) + block);
        assert(grown[j as int] == filled[j as int]);
        assert(filled_cover(tree, grown, j + 1, all.skip(width)));
    } else {
        let width = pow2(tree.next_depth(j)) as int;
        assert(covered.len() == 0);
        assert(all =~= block);
        assert(all.take(width) =~= block);
        assert(all.skip(width).len() == 0);
        assert(grown[j as int] == node);
        assert(filled_cover(tree, grown, j + 1, all.skip(width)));
    }
}

/// The filled nodes, and after them the root over what the cursor holds,
/// are fillers that cover all the later leaves.
pub proof fn lemma_fillers_cover<H: MerkleHash>(
    tree: Frontier<H>,
    filled: Seq<H>,
    j: nat,
    covered: Seq<H>,
    pending: Seq<H>,
)
    requires
        j <= filled.len(),
        filled_cover(tree, filled, j, covered),
        pending.len() <= pow2(tree.next_depth(filled.len())),
    ensures
        pending.len() == 0 ==> fillers_cover(
            filler_levels(tree, filled.len()),
            filled,
            j,
            covered,
        ),
        pending.len() > 0 ==> fillers_cover(
            filler_levels(tree, filled.len() + 1),
            filled.push(padded_root(pending, tree.next_depth(filled.len()))),
            j,
            covered + pending,
        ),
    decreases filled.len() - j,
{
    let last = padded_root(pending, tree.next_depth(filled.len()));
    let grown = filled.push(last);
    let all = covered + pending;
    let levels = filler_levels(tree, filled.len());
    let more_levels = filler_levels(tree, filled.len() + 1);
    if j < filled.len() {
        let level = tree.next_depth(j);
        let width = pow2(level) as int;
        lemma_pow2_pos(level);
        lemma_fillers_cover(tree, filled, j + 1, covered.skip(width), pending);
        lemma_padded_full(covered.take(width), level);
        assert(levels[j as int] == level);
        assert(more_levels[j as int] == level);
        assert(block_len(level, covered.len() as nat) == width);
        assert(block_len(level, all.len() as nat) == width);
        assert(all.take(width) =~= covered.take(width));
        assert(all.skip(width) =~= covered.skip(width) + pending);
        assert(grown[j as int] == filled[j as int]);
        if pending.len() == 0 {
            assert(fillers_cover(levels, filled, j + 1, covered.skip(width)));
        } else {
            assert(fillers_cover(more_levels, grown, j + 1, all.skip(width)));
        }
    } else if pending.len() > 0 {
        let level = tree.next_depth(filled.len());
        let taken = pending.len() as int;
        assert(covered.len() == 0);
        assert(all =~= pending);
        assert(more_levels[j as int] == level);
        assert(block_len(level, all.len() as nat) == taken);
        assert(all.take(taken) =~= pending);
        assert(all.skip(taken).len() == 0);
        assert(grown[j as int] == last);
        assert(fillers_cover(more_levels, grown, j + 1, all.skip(taken)));
    }
}

/// The root that a witness knows is the root over all the leaves: those
/// of its tree and those that came later.
pub proof fn lemma_witness_root<H: MerkleHash>(
    witness: WitnessView<H>,
    base: Seq<H>,
    later: Seq<H>,
    depth: nat,
)
    requires
        witness.well_formed(depth),
        witness_represents(witness, base, later),
        base.len() + later.len() <= pow2(depth),
    ensures
        witness.root(depth) == padded_root(base + later, depth),
{
    lemma2_to64();
    let tree = witness.tree;
    let count = witness.filled.len();
    let split = filled_size(tree, count) as int;
    let covered = later.take(split);
    let pending = later.skip(split);
    let filler = witness.partial_path();
    let leaves = base + later;
    assert(covered + pending =~= later);
    match witness.cursor {
        Some(cursor) => {
            lemma_root_is_padded_root(cursor, pending, witness.cursor_depth());
            lemma_represents_size(cursor, pending);
            lemma_capacity(cursor, witness.cursor_depth());
        },
        None => {
            assert(pending.len() == 0);
        },
    }
    lemma_fillers_cover(tree, witness.filled, 0, covered, pending);
    let levels = filler_levels(tree, filler.len());
    assert(fillers_cover(levels, filler, 0, later));
    let left = tree.left->Some_0;
    match tree.right {
        Some(right) => {
            let at = base.len() - 2;
            let node = H::combine_spec(left, right, 0);
            let window = leaves.subrange(at, at + 2);
            assert(window.take(1)[0] == left);
            assert(window.skip(1)[0] == right);
            assert(node == padded_root(window, 1)) by {
                reveal_with_fuel(padded_root, 2);
                reveal_with_fuel(perfect_root, 2);
            }
            assert(parents_above(tree.parents, 0) =~= tree.parents);
            assert(leaves.take(at) =~= base.take(at));
            assert(leaves.skip(at + 2) =~= later);
            lemma_fold_up_filled(tree.parents, depth, levels, filler, leaves, node, 1, 0, at, 2);
        },
        None => {
            let at = base.len() - 1;
            assert(parents_above(tree.parents, 0) =~= tree.parents);
            assert(leaves.take(at) =~= base.take(at));
            if filler.len() > 0 {
                assert(levels[0] == 0);
                assert(block_len(0, later.len()) == 1);
                let first = later.take(1);
                assert(filler[0] == first[0]) by {
                    reveal_with_fuel(padded_root, 2);
                }
                let node = H::combine_spec(left, filler[0], 0);
                let window = leaves.subrange(at, at + 2);
                assert(window.take(1)[0] == left);
                assert(window.skip(1)[0] == later[0]);
                assert(node == padded_root(window, 1)) by {
                    reveal_with_fuel(padded_root, 2);
                    reveal_with_fuel(perfect_root, 2);
                }
                assert(leaves.skip(at + 2) =~= later.skip(1));
                assert forall|j: int| 1 <= j < filler.len() implies #[trigger] levels[j]
                    == next_level(tree.parents, 1, (j - 1) as nat) by {}
                lemma_fold_up_filled(
                    tree.parents,
                    depth,
                    levels,
                    filler,
                    leaves,
                    node,
                    1,
                    1,
                    at,
                    2,
                );
            } else {
                let node = H::combine_spec(left, fill(filler, 0, 0), 0);
                let window = leaves.subrange(at, at + 1);
                assert(window[0] == left);
                assert(node == padded_root(window, 1)) by {
                    reveal_with_fuel(padded_root, 2);
                }
                assert(leaves.skip(at + 1) =~= later);
                lemma_fold_up_filled(
                    tree.parents,
                    depth,
                    levels,
                    filler,
                    leaves,
                    node,
                    1,
                    1,
                    at,
                    1,
                );
            }
        },
    }
}

/// Taking in a leaf keeps a witness the witness of the same leaf, after
/// one later leaf more.
pub proof fn lemma_witness_append_represents<H: MerkleHash>(
    witness: WitnessView<H>,
    base: Seq<H>,
    later: Seq<H>,
    leaf: H,
    depth: nat,
)
    requires
        witness.well_formed(depth),
        witness_represents(witness, base, later),
        !witness.is_full(depth),
    ensures
        witness_represents(witness.append(leaf), base, later.push(leaf)),
{
    lemma2_to64();
    let tree = witness.tree;
    let count = witness.filled.len();
    let split = filled_size(tree, count) as int;
    let covered = later.take(split);
    let pending = later.skip(split);
    let grown = later.push(leaf);
    let level = witness.cursor_depth();
    let after = witness.append(leaf);
    assert(covered + pending =~= later);
    match witness.cursor {
        Some(cursor) => {
            let more = pending.push(leaf);
            let next = cursor.append(leaf);
            lemma_append_represents(cursor, pending, leaf);
            lemma_append_keeps_shape(cursor, leaf, level);
            if next.is_complete(level) {
                lemma_represents_size(next, more);
                lemma_capacity(next, level);
                lemma_root_is_padded_root(next, more, level);
                lemma_padded_full(more, level);
                let node = next.root(level, Seq::empty());
                lemma_filled_cover_push(tree, witness.filled, 0, covered, node, more);
                assert(covered + more =~= grown);
                assert(grown.take(grown.len() as int) =~= grown);
            } else {
                assert(grown.take(split) =~= covered);
                assert(grown.skip(split) =~= more);
            }
        },
        None => {
            assert(covered =~= later);
            if level == 0 {
                let block = seq![leaf];
                lemma_filled_cover_push(tree, witness.filled, 0, covered, leaf, block);
                assert(covered + block =~= grown);
                assert(grown.take(grown.len() as int) =~= grown);
            } else {
                let start = Frontier::<H>::empty();
                assert(represents(start, Seq::<H>::empty()));
                lemma_append_represents(start, Seq::<H>::empty(), leaf);
                assert(grown.take(split) =~= covered);
                assert(grown.skip(split) =~= Seq::<H>::empty().push(leaf));
            }
        },
    }
}

/// The leaves that the free places from level `d` up to `depth` have
/// room for.
pub open spec fn places_size<H>(parents: Seq<Option<H>>, d: nat, depth: nat) -> nat
    decreases depth - d,
{
    if d >= depth {
        0
    } else if 1 <= d <= parents.len() && parents[d - 1] is Some {
        places_size(parents, d + 1, depth)
    } else {
        pow2(d) + places_size(parents, d + 1, depth)
    }
}

/// The leaves under the first `count` fillers at the free places from
/// level `d` on.
pub open spec fn levels_size<H>(parents: Seq<Option<H>>, d: nat, count: nat) -> nat
    decreases count,
{
    if count == 0 {
        0
    } else {
        levels_size(parents, d, (count - 1) as nat) + pow2(
            next_level(parents, d, (count - 1) as nat),
        )
    }
}

/// From level `d` up, a subtree of height `d`, the parents and the free
/// places together make up the whole tree.
pub proof fn lemma_places_complement<H>(parents: Seq<Option<H>>, d: nat, depth: nat)
    requires
        1 <= d <= depth,
        parents.len() < depth,
    ensures
        pow2(d) + parents_size_from(parents, d) + places_size(parents, d, depth) == pow2(depth),
    decreases depth - d,
{
    if d < depth {
        lemma_places_complement(parents, d + 1, depth);
        lemma_pow2_unfold(d + 1);
    }
}

/// Where a parent stands at level `d`, the fillers from level `d` on are
/// those from the level above on.
pub proof fn lemma_levels_size_parent<H>(parents: Seq<Option<H>>, d: nat, count: nat)
    requires
        1 <= d <= parents.len(),
        parents[d - 1] is Some,
    ensures
        levels_size(parents, d, count) == levels_size(parents, d + 1, count),
    decreases count,
{
    if count > 0 {
        lemma_levels_size_parent(parents, d, (count - 1) as nat);
    }
}

/// Where level `d` is free, the first filler stands there and the others
/// are those from the level above on.
pub proof fn lemma_levels_size_free<H>(parents: Seq<Option<H>>, d: nat, count: nat)
    requires
        1 <= d,
        d > parents.len() || parents[d - 1] is None,
    ensures
        levels_size(parents, d, count + 1) == pow2(d) + levels_size(parents, d + 1, count),
    decreases count,
{
    if count > 0 {
        lemma_levels_size_free(parents, d, (count - 1) as nat);
    } else {
        assert(levels_size(parents, d, 0) == 0);
        assert(next_level(parents, d, 0) == d);
    }
}

/// Fillers so many that the next one would stand at `depth` or above
/// take all the free places below `depth`.
pub proof fn lemma_levels_fill_places<H>(
    parents: Seq<Option<H>>,
    d: nat,
    count: nat,
    depth: nat,
)
    requires
        1 <= d,
        next_level(parents, d, count) >= depth,
    ensures
        levels_size(parents, d, count) >= places_size(parents, d, depth),
    decreases depth - d,
{
    if d < depth {
        if d <= parents.len() && parents[d - 1] is Some {
            lemma_levels_size_parent(parents, d, count);
            lemma_levels_fill_places(parents, d + 1, count, depth);
        } else {
            assert(count > 0);
            lemma_levels_size_free(parents, d, (count - 1) as nat);
            lemma_levels_fill_places(parents, d + 1, (count - 1) as nat, depth);
        }
    }
}

/// The leaves under the filled nodes of a tree whose pair is full.
pub proof fn lemma_filled_size_full_pair<H: MerkleHash>(tree: Frontier<H>, count: nat)
    requires
        tree.left is Some,
        tree.right is Some,
    ensures
        filled_size(tree, count) == levels_size(tree.parents, 1, count),
    decreases count,
{
    if count > 0 {
        lemma_filled_size_full_pair(tree, (count - 1) as nat);
    }
}

/// The leaves under the filled nodes of a tree whose pair lacks its
/// right leaf: the first filled node is that leaf.
pub proof fn lemma_filled_size_half_pair<H: MerkleHash>(tree: Frontier<H>, count: nat)
    requires
        tree.left is Some,
        tree.right is None,
    ensures
        filled_size(tree, count + 1) == 1 + levels_size(tree.parents, 1, count),
    decreases count,
{
    lemma2_to64();
    if count > 0 {
        lemma_filled_size_half_pair(tree, (count - 1) as nat);
    } else {
        assert(filled_size(tree, 0) == 0);
        assert(tree.next_depth(0) == 0);
    }
}

/// A witness that can take no more leaves has seen the whole tree: its
/// tree and the later leaves together are `2^depth` leaves or more.
pub proof fn lemma_full_witness<H: MerkleHash>(
    witness: WitnessView<H>,
    base: Seq<H>,
    later: Seq<H>,
    depth: nat,
)
    requires
        witness.well_formed(depth),
        witness_represents(witness, base, later),
        witness.is_full(depth),
    ensures
        base.len() + later.len() >= pow2(depth),
{
    lemma2_to64();
    let tree = witness.tree;
    let count = witness.filled.len();
    lemma_represents_size(tree, base);
    lemma_parents_size_split(tree.parents, 1);
    assert(tree.parents.take(0) =~= Seq::<Option<H>>::empty());
    lemma_places_complement(tree.parents, 1, depth);
    if tree.right is Some {
        lemma_filled_size_full_pair(tree, count);
        lemma_levels_fill_places(tree.parents, 1, count, depth);
    } else {
        assert(count > 0);
        lemma_filled_size_half_pair(tree, (count - 1) as nat);
        lemma_levels_fill_places(tree.parents, 1, (count - 1) as nat, depth);
    }
}

/// A witness follows its tree: after the same later leaves, as many as
/// the tree has room for, the witness is in shape, it is the witness of
/// the same leaf, and the root it knows is the root over all the leaves.
pub proof fn lemma_witness_append_all<H: MerkleHash>(
    witness: WitnessView<H>,
    base: Seq<H>,
    later: Seq<H>,
    more: Seq<H>,
    depth: nat,
)
    requires
        witness.well_formed(depth),
        witness_represents(witness, base, later),
        base.len() + later.len() + more.len() <= pow2(depth),
    ensures
        witness.append_all(more).well_formed(depth),
        witness_represents(witness.append_all(more), base, later + more),
        witness.append_all(more).root(depth) == padded_root(base + (later + more), depth),
    decreases more.len(),
{
    if more.len() == 0 {
        assert(later + more =~= later);
        lemma_witness_root(witness, base, later, depth);
    } else {
        if witness.is_full(depth) {
            lemma_full_witness(witness, base, later, depth);
        }
        lemma_append_keeps_witness_shape(witness, more[0], depth);
        lemma_witness_append_represents(witness, base, later, more[0], depth);
        lemma_witness_append_all(
            witness.append(more[0]),
            base,
            later.push(more[0]),
            more.drop_first(),
            depth,
        );
        assert(later.push(more[0]) + more.drop_first() =~= later + more);
    }
}

/// The root that a witness knows is the root of the tree: a witness made
/// of a tree, and the tree itself, given the same later leaves, as many
/// as the tree has room for, have the same root.
pub proof fn lemma_witness_root_is_tree_root<H: MerkleHash>(
    tree: Frontier<H>,
    base: Seq<H>,
    more: Seq<H>,
    depth: nat,
)
    requires
        tree.well_formed(depth),
        tree.left is Some,
        represents(tree, base),
        base.len() + more.len() <= pow2(depth),
    ensures
        (WitnessView { tree, filled: Seq::empty(), cursor: None }).append_all(more).root(depth)
            == tree.append_all(more).root(depth, Seq::empty()),
        tree.append_all(more).root(depth, Seq::empty()) == padded_root(base + more, depth),
{
    let witness = WitnessView { tree, filled: Seq::<H>::empty(), cursor: None };
    let none = Seq::<H>::empty();
    assert(filled_size(tree, 0) == 0);
    assert(none.take(0) =~= none);
    lemma_witness_append_all(witness, base, none, more, depth);
    assert(none + more =~= more);
    lemma_represents_size(tree, base);
    lemma_append_all(tree, more, depth);
    lemma_append_all_represents(tree, base, more);
    lemma_root_is_padded_root(tree.append_all(more), base + more, depth);
}

/// The witness made of a tree at any leaf, after any number of later
/// leaves that the tree has room for, has a path of exactly `depth`
/// siblings, and the path proves the witnessed leaf against the root of
/// the tree with all those leaves.
pub proof fn lemma_witness_path_after_appends<H: MerkleHash>(
    tree: Frontier<H>,
    base: Seq<H>,
    more: Seq<H>,
    depth: nat,
)
    requires
        tree.well_formed(depth),
        tree.left is Some,
        represents(tree, base),
        base.len() + more.len() <= pow2(depth),
    ensures
        (WitnessView { tree, filled: Seq::empty(), cursor: None }).append_all(more).siblings(
            depth,
        ).len() == depth,
        climb(
            tree.newest(),
            (WitnessView { tree, filled: Seq::empty(), cursor: None }).append_all(more).siblings(
                depth,
            ),
            tree.index_bits(depth),
            0,
        ) == tree.append_all(more).root(depth, Seq::empty()),
{
    let start = WitnessView { tree, filled: Seq::<H>::empty(), cursor: None };
    let none = Seq::<H>::empty();
    assert(filled_size(tree, 0) == 0);
    assert(none.take(0) =~= none);
    lemma_witness_append_all(start, base, none, more, depth);
    lemma_witness_root_is_tree_root(tree, base, more, depth);
    let witness = start.append_all(more);
    lemma_witness_keeps_tree(start, more);
    lemma_witness_path_length(witness, depth);
    lemma_witness_path_authenticates(witness, depth);
}

/// Taking in later leaves never changes the tree of a witness.
pub proof fn lemma_witness_keeps_tree<H: MerkleHash>(witness: WitnessView<H>, more: Seq<H>)
    ensures
        witness.append_all(more).tree == witness.tree,
    decreases more.len(),
{
    if more.len() > 0 {
        lemma_witness_keeps_tree(witness.append(more[0]), more.drop_first());
    }
}

} // verus!
