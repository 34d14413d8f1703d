//! The incremental Merkle tree: the right-most frontier of an append-only
//! binary tree of fixed depth.

use vstd::arithmetic::power2::{
    lemma2_to64, lemma2_to64_rest, lemma_pow2_pos, lemma_pow2_strictly_increases,
    lemma_pow2_unfold, pow2,
};
use vstd::prelude::*;

verus! {

/// The greatest depth a tree may have: the position of a leaf must fit in
/// 64 bits.
pub const MAX_DEPTH: usize = 64;

/// A node hash: the value of an empty leaf, and the function that combines
/// two children into their parent.
///
/// `level` is the height of the two children above the leaves: 0 when
/// leaves are combined.
pub trait MerkleHash: Sized + Copy {
    /// The value that stands for a leaf that holds nothing.
    spec fn uncommitted_spec() -> Self;

    /// The parent of `left` and `right`, which stand at `level`.
    spec fn combine_spec(left: Self, right: Self, level: nat) -> Self;

    /// The value that stands for a leaf that holds nothing.
    fn uncommitted() -> (node: Self)
        ensures
            node == Self::uncommitted_spec(),
    ;

    /// The parent of `left` and `right`, which stand at `level`.
    fn combine(left: &Self, right: &Self, level: usize) -> (node: Self)
        ensures
            node == Self::combine_spec(*left, *right, level as nat),
    ;
}

/// The root of a subtree of height `level` all of whose leaves are empty.
pub open spec fn empty_root<H: MerkleHash>(level: nat) -> H
    decreases level,
{
    if level == 0 {
        H::uncommitted_spec()
    } else {
        let below = empty_root::<H>((level - 1) as nat);
        H::combine_spec(below, below, (level - 1) as nat)
    }
}

/// Entry `k` of `filler` if there is one, else the root of an empty subtree
/// of height `level`.
pub open spec fn fill<H: MerkleHash>(filler: Seq<H>, k: nat, level: nat) -> H {
    if k < filler.len() {
        filler[k as int]
    } else {
        empty_root::<H>(level)
    }
}

/// Why a tree or a witness was refused, or could not take another leaf.
#[derive(Debug, Clone, Copy, PartialEq, Eq)]
pub enum TreeError {
    /// The depth is 0 or above `MAX_DEPTH`.
    DepthOutOfRange,
    /// The tree holds as many leaves as its depth allows.
    Full,
    /// There are parents for levels that the depth does not have.
    TooManyParents,
    /// The highest parent is absent; it would not have been recorded.
    TrailingEmptyParent,
    /// There is a right leaf without a left one.
    RightWithoutLeft,
    /// There are parents without a left leaf.
    ParentsWithoutLeft,
    /// A witness was asked for a tree that holds no leaf.
    NoLeaf,
    /// More later leaves have been recorded than the path has places for.
    TooManyFilled,
    /// The cursor of a witness does not fit the place it is meant to fill.
    CursorMismatch,
}

/// The mathematical content of a tree: the two leaves of the pair that is
/// being filled, and for each level above, the root of the completed
/// subtree to the left of the frontier, where there is one.
pub ghost struct Frontier<H> {
    pub left: Option<H>,
    pub right: Option<H>,
    pub parents: Seq<Option<H>>,
}

/// How many leaves the completed subtrees in `parents` hold: the one at
/// index `i` holds `2^(i+1)`.
pub open spec fn parents_size<H>(parents: Seq<Option<H>>) -> nat
    decreases parents.len(),
{
    if parents.len() == 0 {
        0
    } else {
        parents_size(parents.drop_last()) + if parents.last() is Some {
            pow2(parents.len())
        } else {
            0
        }
    }
}

/// Carries `node`, the root of a subtree that has just been completed
/// below level `i + 1`, into `parents`: as in a binary counter, it is
/// combined with each parent it meets and moves one level up, until it
/// finds a level without a parent, where it stays.
pub open spec fn carry<H: MerkleHash>(parents: Seq<Option<H>>, node: H, i: nat) -> Seq<Option<H>>
    decreases parents.len() - i,
{
    if i >= parents.len() {
        parents.push(Some(node))
    } else {
        match parents[i as int] {
            Some(p) => carry(
                parents.update(i as int, None),
                H::combine_spec(p, node, i + 1),
                i + 1,
            ),
            None => parents.update(i as int, Some(node)),
        }
    }
}

/// Folds `node`, the root of the subtree of height `d` that holds the
/// frontier, with what lies above it, up to height `depth`. A recorded
/// parent is a left sibling; where there is none, the right sibling is
/// the next entry of `filler`, or an empty subtree.
pub open spec fn fold_up<H: MerkleHash>(
    parents: Seq<Option<H>>,
    depth: nat,
    filler: Seq<H>,
    node: H,
    d: nat,
    k: nat,
) -> H
    decreases
        (if parents.len() + 1 > depth {
            parents.len() + 1
        } else {
            depth
        }) - d,
{
    if 1 <= d <= parents.len() {
        match parents[d - 1] {
            Some(p) => fold_up(parents, depth, filler, H::combine_spec(p, node, d), d + 1, k),
            None => fold_up(
                parents,
                depth,
                filler,
                H::combine_spec(node, fill(filler, k, d), d),
                d + 1,
                k + 1,
            ),
        }
    } else if 1 <= d < depth {
        fold_up(
            parents,
            depth,
            filler,
            H::combine_spec(node, fill(filler, k, d), d),
            d + 1,
            k + 1,
        )
    } else {
        node
    }
}

/// The siblings, from height `d` up to `depth`, on the way from the
/// frontier to the root, chosen as in `fold_up`.
pub open spec fn siblings_from<H: MerkleHash>(
    parents: Seq<Option<H>>,
    depth: nat,
    filler: Seq<H>,
    d: nat,
    k: nat,
) -> Seq<H>
    decreases
        (if parents.len() + 1 > depth {
            parents.len() + 1
        } else {
            depth
        }) - d,
{
    if 1 <= d <= parents.len() {
        match parents[d - 1] {
            Some(p) => seq![p] + siblings_from(parents, depth, filler, d + 1, k),
            None => seq![fill(filler, k, d)] + siblings_from(parents, depth, filler, d + 1, k + 1),
        }
    } else if 1 <= d < depth {
        seq![fill(filler, k, d)] + siblings_from(parents, depth, filler, d + 1, k + 1)
    } else {
        Seq::empty()
    }
}

/// The level that the entry after `skip` fillers will stand at, looking
/// only at the levels from `d` up: the levels without a parent are filled
/// first, lowest first, then those above the highest parent.
pub open spec fn next_level<H>(parents: Seq<Option<H>>, d: nat, skip: nat) -> nat
    decreases parents.len() + 1 - d,
{
    if 1 <= d <= parents.len() {
        if parents[d - 1] is None {
            if skip == 0 {
                d
            } else {
                next_level(parents, d + 1, (skip - 1) as nat)
            }
        } else {
            next_level(parents, d + 1, skip)
        }
    } else {
        d + skip
    }
}

impl<H: MerkleHash> Frontier<H> {
    /// The frontier of the tree without leaves.
    pub open spec fn empty() -> Self {
        Frontier { left: None, right: None, parents: Seq::empty() }
    }

    /// The frontier is one that appending leaves to an empty tree of height
    /// `depth` can reach, as far as its shape shows: parents only below the
    /// root, the highest of them present, and nothing recorded without a
    /// left leaf.
    pub open spec fn well_formed(self, depth: nat) -> bool {
        &&& 1 <= depth <= MAX_DEPTH
        &&& self.parents.len() < depth
        &&& self.parents.len() > 0 ==> self.parents.last() is Some
        &&& self.left is None ==> self.right is None && self.parents.len() == 0
    }

    /// Every place up to height `depth` is taken: the tree holds `2^depth`
    /// leaves.
    pub open spec fn is_complete(self, depth: nat) -> bool {
        &&& self.left is Some
        &&& self.right is Some
        &&& self.parents.len() + 1 == depth
        &&& forall|i: int| 0 <= i < self.parents.len() ==> (#[trigger] self.parents[i]) is Some
    }

    /// The number of leaves.
    pub open spec fn size(self) -> nat {
        (if self.left is Some {
            1nat
        } else {
            0nat
        }) + (if self.right is Some {
            1nat
        } else {
            0nat
        }) + parents_size(self.parents)
    }

    /// The frontier after one more leaf.
    pub open spec fn append(self, leaf: H) -> Self {
        if self.left is None {
            Frontier { left: Some(leaf), ..self }
        } else if self.right is None {
            Frontier { right: Some(leaf), ..self }
        } else {
            Frontier {
                left: Some(leaf),
                right: None,
                parents: carry(
                    self.parents,
                    H::combine_spec(self.left->Some_0, self.right->Some_0, 0),
                    0,
                ),
            }
        }
    }

    /// The frontier after the leaves of `leaves`, in order.
    pub open spec fn append_all(self, leaves: Seq<H>) -> Self
        decreases leaves.len(),
    {
        if leaves.len() == 0 {
            self
        } else {
            self.append(leaves[0]).append_all(leaves.drop_first())
        }
    }

    /// How many entries of a filler the two leaves take: one for each that
    /// is absent.
    pub open spec fn leaf_fills(self) -> nat {
        (if self.left is Some {
            0nat
        } else {
            1nat
        }) + (if self.right is Some {
            0nat
        } else {
            1nat
        })
    }

    /// The root of the tree of height `depth`, with the places to the right
    /// of the frontier taken by the entries of `filler`, lowest first, and
    /// by empty subtrees once `filler` is used up.
    pub open spec fn root(self, depth: nat, filler: Seq<H>) -> H {
        let l = match self.left {
            Some(l) => l,
            None => fill(filler, 0, 0),
        };
        let r = match self.right {
            Some(r) => r,
            None => fill(filler, if self.left is Some { 0 } else { 1 }, 0),
        };
        fold_up(self.parents, depth, filler, H::combine_spec(l, r, 0), 1, self.leaf_fills())
    }

    /// The siblings of the newest leaf, from the leaf's own up to the one
    /// just below the root, with the places to the right of the frontier
    /// taken as in `root`.
    pub open spec fn siblings(self, depth: nat, filler: Seq<H>) -> Seq<H> {
        match self.right {
            Some(_) => seq![self.left->Some_0] + siblings_from(self.parents, depth, filler, 1, 0),
            None => seq![fill(filler, 0, 0)] + siblings_from(self.parents, depth, filler, 1, 1),
        }
    }

    /// The position of the newest leaf, counted from 0.
    pub open spec fn position(self) -> nat {
        (self.size() - 1) as nat
    }

    /// The level that the next entry of a filler that already holds `skip`
    /// entries will stand at.
    pub open spec fn next_depth(self, skip: nat) -> nat {
        if self.left is None && skip == 0 {
            0
        } else {
            let after_left = if self.left is None {
                (skip - 1) as nat
            } else {
                skip
            };
            if self.right is None && after_left == 0 {
                0
            } else {
                let after_right = if self.right is None {
                    (after_left - 1) as nat
                } else {
                    after_left
                };
                next_level(self.parents, 1, after_right)
            }
        }
    }
}

/// The authentication path of a leaf: what a verifier needs, besides the
/// leaf, to compute the root.
#[derive(Debug, Clone, PartialEq, Eq)]
pub struct MerklePath<H> {
    /// The sibling at each level on the way up, the leaf's own first.
    pub auth_path: Vec<H>,
    /// The position of the leaf among the leaves, counted from 0.
    pub position: u64,
}

/// An append-only Merkle tree of height `DEPTH`, kept as its frontier.
///
/// It holds up to `2^DEPTH` leaves and remembers of them only what the
/// next append and the root need.
#[derive(Debug, Clone, PartialEq, Eq)]
pub struct IncrementalMerkleTree<const DEPTH: usize, H> {
    pub(crate) left: Option<H>,
    pub(crate) right: Option<H>,
    pub(crate) parents: Vec<Option<H>>,
}

impl<const DEPTH: usize, H: MerkleHash> View for IncrementalMerkleTree<DEPTH, H> {
    type V = Frontier<H>;

    closed spec fn view(&self) -> Frontier<H> {
        Frontier { left: self.left, right: self.right, parents: self.parents@ }
    }
}

/// What `with_fields` answers for the three parts of a frontier.
pub open spec fn checked_frontier<H: MerkleHash>(frontier: Frontier<H>, depth: nat) -> Result<
    Frontier<H>,
    TreeError,
> {
    if !(1 <= depth <= MAX_DEPTH) {
        Err(TreeError::DepthOutOfRange)
    } else if frontier.parents.len() >= depth {
        Err(TreeError::TooManyParents)
    } else if frontier.parents.len() > 0 && frontier.parents.last() is None {
        Err(TreeError::TrailingEmptyParent)
    } else if frontier.left is None && frontier.right is Some {
        Err(TreeError::RightWithoutLeft)
    } else if frontier.left is None && frontier.parents.len() > 0 {
        Err(TreeError::ParentsWithoutLeft)
    } else {
        Ok(frontier)
    }
}

impl<const DEPTH: usize, H: MerkleHash> IncrementalMerkleTree<DEPTH, H> {
    /// The tree keeps the shape that appends give it.
    pub open spec fn wf(&self) -> bool {
        self@.well_formed(DEPTH as nat)
    }

    /// Whether the tree keeps the shape that appends give it.
    pub fn is_wf(&self) -> (ok: bool)
        ensures
            ok == self.wf(),
    {
        let n = self.parents.len();
        1 <= DEPTH && DEPTH <= MAX_DEPTH && n < DEPTH && (n == 0 || self.parents[n - 1].is_some())
            && (self.left.is_some() || (self.right.is_none() && n == 0))
    }

    /// The tree without leaves.
    pub fn new() -> (tree: Self)
        ensures
            tree@ == Frontier::<H>::empty(),
            1 <= DEPTH <= MAX_DEPTH ==> tree.wf(),
    {
        IncrementalMerkleTree { left: None, right: None, parents: Vec::new() }
    }

    /// Builds a tree from the parts of a frontier, and refuses parts that
    /// no sequence of appends to a tree of this depth leaves behind.
    pub fn with_fields(left: Option<H>, right: Option<H>, parents: Vec<Option<H>>) -> (outcome:
        Result<Self, TreeError>)
        ensures
            match outcome {
                Ok(tree) => tree.wf() && checked_frontier(
                    Frontier { left, right, parents: parents@ },
                    DEPTH as nat,
                ) == Ok::<Frontier<H>, TreeError>(tree@),
                Err(e) => checked_frontier(Frontier { left, right, parents: parents@ }, DEPTH as nat)
                    == Err::<Frontier<H>, TreeError>(e),
            },
    {
        if DEPTH < 1 || DEPTH > MAX_DEPTH {
            return Err(TreeError::DepthOutOfRange);
        }
        let n = parents.len();
        if n >= DEPTH {
            return Err(TreeError::TooManyParents);
        }
        if n > 0 && parents[n - 1].is_none() {
            return Err(TreeError::TrailingEmptyParent);
        }
        if left.is_none() && right.is_some() {
            return Err(TreeError::RightWithoutLeft);
        }
        if left.is_none() && n > 0 {
            return Err(TreeError::ParentsWithoutLeft);
        }
        Ok(IncrementalMerkleTree { left, right, parents })
    }

    /// The left leaf of the pair that is being filled.
    pub fn left(&self) -> (node: Option<H>)
        ensures
            node == self@.left,
    {
        self.left
    }

    /// The right leaf of the pair that is being filled.
    pub fn right(&self) -> (node: Option<H>)
        ensures
            node == self@.right,
    {
        self.right
    }

    /// The newest leaf, if the tree holds any.
    pub fn newest(&self) -> (leaf: Option<H>)
        requires
            self.wf(),
        ensures
            match leaf {
                Some(leaf) => self@.left is Some && leaf == self@.newest(),
                None => self@.left is None && self@.right is None,
            },
    {
        match self.right {
            Some(leaf) => Some(leaf),
            None => self.left,
        }
    }

    /// The roots of the completed subtrees, lowest first.
    pub fn parents(&self) -> (nodes: &Vec<Option<H>>)
        ensures
            nodes@ == self@.parents,
    {
        &self.parents
    }

    /// Whether the tree holds no leaf.
    pub fn is_empty(&self) -> (empty: bool)
        ensures
            empty == (self@.left is None && self@.right is None && self@.parents.len() == 0),
    {
        self.left.is_none() && self.right.is_none() && self.parents.len() == 0
    }

    /// Whether the tree, taken as one of height `depth`, has every place
    /// taken.
    pub fn is_complete_at(&self, depth: usize) -> (complete: bool)
        ensures
            complete == self@.is_complete(depth as nat),
    {
        if self.left.is_none() || self.right.is_none() {
            return false;
        }
        let n = self.parents.len();
        if depth == 0 || n != depth - 1 {
            return false;
        }
        let mut i: usize = 0;
        while i < n
            invariant
                i <= n,
                n == self.parents@.len(),
                forall|j: int| 0 <= j < i ==> (#[trigger] self.parents@[j]) is Some,
            decreases n - i,
        {
            if self.parents[i].is_none() {
                return false;
            }
            i += 1;
        }
        true
    }

    /// Whether the tree holds `2^DEPTH` leaves.
    pub fn is_complete(&self) -> (complete: bool)
        ensures
            complete == self@.is_complete(DEPTH as nat),
    {
        self.is_complete_at(DEPTH)
    }

    /// Appends a leaf.
    ///
    /// The leaf takes the free place of the pair that is being filled. If
    /// the pair was already full, the pair is combined into its parent,
    /// the parent is carried upwards, and the leaf starts a new pair. A
    /// tree that already holds `2^DEPTH` leaves is left as it is.
    pub fn append(&mut self, leaf: H) -> (outcome: Result<(), TreeError>)
        requires
            old(self).wf(),
        ensures
            final(self).wf(),
            match outcome {
                Ok(_) => {
                    &&& !old(self)@.is_complete(DEPTH as nat)
                    &&& final(self)@ == old(self)@.append(leaf)
                },
                Err(e) => {
                    &&& e == TreeError::Full
                    &&& old(self)@.is_complete(DEPTH as nat)
                    &&& final(self)@ == old(self)@
                },
            },
    {
        if self.is_complete() {
            return Err(TreeError::Full);
        }
        match (self.left, self.right) {
            (None, _) => {
                self.left = Some(leaf);
            },
            (Some(_), None) => {
                self.right = Some(leaf);
            },
            (Some(l), Some(r)) => {
                let ghost before = self.parents@;
                let ghost first = H::combine_spec(l, r, 0);
                let mut node = H::combine(&l, &r, 0);
                self.left = Some(leaf);
                self.right = None;
                let n = self.parents.len();
                let mut i: usize = 0;
                let mut placed = false;
                while i < n && !placed
                    invariant
                        i <= n,
                        n == self.parents@.len(),
                        n < DEPTH <= MAX_DEPTH,
                        self.left == Some(leaf),
                        self.right is None,
                        !placed ==> carry(before, first, 0) == carry(self.parents@, node, i as nat),
                        placed ==> carry(before, first, 0) == self.parents@,
                    decreases n - i + if placed { 0int } else { 1int },
                {
                    match self.parents[i] {
                        Some(p) => {
                            node = H::combine(&p, &node, i + 1);
                            self.parents[i] = None;
                            i += 1;
                        },
                        None => {
                            self.parents[i] = Some(node);
                            placed = true;
                        },
                    }
                }
                if !placed {
                    self.parents.push(Some(node));
                }
                proof {
                    lemma_carry_keeps_shape(before, first, 0, DEPTH as nat);
                }
            },
        }
        Ok(())
    }

    /// The root of the tree, with every place that holds no leaf yet taken
    /// by an empty leaf.
    pub fn root(&self) -> (node: H)
        requires
            self.wf(),
        ensures
            node == self@.root(DEPTH as nat, Seq::empty()),
    {
        let filler: Vec<H> = Vec::new();
        self.root_at(DEPTH, &filler)
    }

    /// The root of the tree taken as one of height `depth`, with the free
    /// places taken by the entries of `filler`, lowest place first, and by
    /// empty subtrees once `filler` is used up.
    pub fn root_at(&self, depth: usize, filler: &Vec<H>) -> (node: H)
        requires
            self.wf(),
            depth <= DEPTH,
        ensures
            node == self@.root(depth as nat, filler@),
    {
        let mut k: usize = 0;
        let mut empty = H::uncommitted();
        let l = match self.left {
            Some(l) => l,
            None => {
                let v = if k < filler.len() {
                    filler[k]
                } else {
                    empty
                };
                k += 1;
                v
            },
        };
        let r = match self.right {
            Some(r) => r,
            None => {
                let v = if k < filler.len() {
                    filler[k]
                } else {
                    empty
                };
                k += 1;
                v
            },
        };
        let mut node = H::combine(&l, &r, 0);
        assert(empty == empty_root::<H>(0));
        empty = H::combine(&empty, &empty, 0);
        let n = self.parents.len();
        let mut d: usize = 1;
        while d <= n
            invariant
                1 <= d <= n + 1,
                n == self.parents@.len(),
                n < DEPTH <= MAX_DEPTH,
                k <= d + 1,
                empty == empty_root::<H>(d as nat),
                self@.root(depth as nat, filler@) == fold_up(
                    self.parents@,
                    depth as nat,
                    filler@,
                    node,
                    d as nat,
                    k as nat,
                ),
            decreases n + 1 - d,
        {
            match self.parents[d - 1] {
                Some(p) => {
                    node = H::combine(&p, &node, d);
                },
                None => {
                    let v = if k < filler.len() {
                        filler[k]
                    } else {
                        empty
                    };
                    k += 1;
                    node = H::combine(&node, &v, d);
                },
            }
            empty = H::combine(&empty, &empty, d);
            d += 1;
        }
        while d < depth
            invariant
                n + 1 <= d,
                d <= depth || d == n + 1,
                depth <= DEPTH <= MAX_DEPTH,
                n == self.parents@.len(),
                n < DEPTH,
                k <= d + 1,
                empty == empty_root::<H>(d as nat),
                self@.root(depth as nat, filler@) == fold_up(
                    self.parents@,
                    depth as nat,
                    filler@,
                    node,
                    d as nat,
                    k as nat,
                ),
            decreases depth - d,
        {
            let v = if k < filler.len() {
                filler[k]
            } else {
                empty
            };
            k += 1;
            node = H::combine(&node, &v, d);
            empty = H::combine(&empty, &empty, d);
            d += 1;
        }
        node
    }

    /// The position of the newest leaf, counted from 0, or `NoLeaf` for the
    /// tree that holds none.
    pub fn position(&self) -> (outcome: Result<u64, TreeError>)
        requires
            self.wf(),
        ensures
            match outcome {
                Ok(p) => self@.left is Some && p == self@.position(),
                Err(e) => self@.left is None && e == TreeError::NoLeaf,
            },
    {
        if self.left.is_none() {
            return Err(TreeError::NoLeaf);
        }
        let n = self.parents.len();
        let mut position: u64 = if self.right.is_some() {
            1
        } else {
            0
        };
        let ghost bit = position as nat;
        let mut weight: u64 = 2;
        let mut i: usize = 0;
        proof {
            lemma2_to64();
            lemma2_to64_rest();
            assert(self.parents@.take(0) =~= Seq::<Option<H>>::empty());
        }
        while i < n
            invariant
                i <= n,
                n == self.parents@.len(),
                n < DEPTH <= MAX_DEPTH,
                bit <= 1,
                position == bit + parents_size(self.parents@.take(i as int)),
                position + 2 <= bit + pow2((i + 1) as nat),
                i < n ==> weight == pow2((i + 1) as nat),
            decreases n - i,
        {
            proof {
                lemma2_to64_rest();
                lemma_pow2_unfold((i + 2) as nat);
                if i + 2 < 64 {
                    lemma_pow2_strictly_increases((i + 2) as nat, 64);
                }
                assert(self.parents@.take(i + 1).drop_last() =~= self.parents@.take(i as int));
            }
            if self.parents[i].is_some() {
                position = position + weight;
            }
            if i + 1 < n {
                weight = weight * 2;
            }
            i += 1;
        }
        assert(self.parents@.take(n as int) =~= self.parents@);
        Ok(position)
    }

    /// The level at which the next entry of a filler that already holds
    /// `skip` entries will stand.
    pub fn next_depth(&self, skip: usize) -> (level: usize)
        requires
            self.wf(),
            skip <= MAX_DEPTH,
        ensures
            level == self@.next_depth(skip as nat),
            level <= DEPTH + skip,
    {
        let mut remaining = skip;
        if self.left.is_none() {
            if remaining == 0 {
                return 0;
            }
            remaining -= 1;
        }
        if self.right.is_none() {
            if remaining == 0 {
                return 0;
            }
            remaining -= 1;
        }
        let n = self.parents.len();
        let mut d: usize = 1;
        while d <= n
            invariant
                1 <= d <= n + 1,
                n == self.parents@.len(),
                n < DEPTH <= MAX_DEPTH,
                remaining <= skip <= MAX_DEPTH,
                self@.next_depth(skip as nat) == next_level(
                    self.parents@,
                    d as nat,
                    remaining as nat,
                ),
            decreases n + 1 - d,
        {
            if self.parents[d - 1].is_none() {
                if remaining == 0 {
                    assert(next_level(self.parents@, d as nat, 0) == d);
                    return d;
                }
                remaining -= 1;
            }
            d += 1;
        }
        d + remaining
    }

    /// The authentication path of the newest leaf, with the places to the
    /// right of the frontier taken by the entries of `filler`, lowest place
    /// first, and by empty subtrees once `filler` is used up. It has one
    /// sibling for each of the `DEPTH` levels. The tree that holds no leaf
    /// has no such path.
    pub fn path(&self, filler: &Vec<H>) -> (outcome: Result<MerklePath<H>, TreeError>)
        requires
            self.wf(),
        ensures
            match outcome {
                Ok(path) => {
                    &&& self@.left is Some
                    &&& path.auth_path@ == self@.siblings(DEPTH as nat, filler@)
                    &&& path.auth_path@.len() == DEPTH
                    &&& path.position == self@.position()
                    &&& climb(
                        self@.newest(),
                        path.auth_path@,
                        bits_of(path.position as nat, DEPTH as nat),
                        0,
                    ) == self@.root(DEPTH as nat, filler@)
                },
                Err(e) => self@.left is None && e == TreeError::NoLeaf,
            },
    {
        let position = match self.position() {
            Ok(p) => p,
            Err(e) => {
                return Err(e);
            },
        };
        let left = match self.left {
            Some(l) => l,
            None => {
                return Err(TreeError::NoLeaf);
            },
        };
        let mut k: usize = 0;
        let mut empty = H::uncommitted();
        let mut auth_path: Vec<H> = Vec::new();
        if self.right.is_some() {
            auth_path.push(left);
        } else {
            let v = if k < filler.len() {
                filler[k]
            } else {
                empty
            };
            k += 1;
            auth_path.push(v);
        }
        assert(empty == empty_root::<H>(0));
        empty = H::combine(&empty, &empty, 0);
        let n = self.parents.len();
        let mut d: usize = 1;
        while d <= n
            invariant
                1 <= d <= n + 1,
                n == self.parents@.len(),
                n < DEPTH <= MAX_DEPTH,
                k <= d,
                empty == empty_root::<H>(d as nat),
                self@.siblings(DEPTH as nat, filler@) == auth_path@ + siblings_from(
                    self.parents@,
                    DEPTH as nat,
                    filler@,
                    d as nat,
                    k as nat,
                ),
            decreases n + 1 - d,
        {
            let ghost before = auth_path@;
            let ghost rest = siblings_from(
                self.parents@,
                DEPTH as nat,
                filler@,
                (d + 1) as nat,
                if self.parents@[d - 1] is Some {
                    k as nat
                } else {
                    (k + 1) as nat
                },
            );
            match self.parents[d - 1] {
                Some(p) => {
                    auth_path.push(p);
                    assert(auth_path@ + rest =~= before + (seq![p] + rest));
                },
                None => {
                    let v = if k < filler.len() {
                        filler[k]
                    } else {
                        empty
                    };
                    k += 1;
                    auth_path.push(v);
                    assert(auth_path@ + rest =~= before + (seq![v] + rest));
                },
            }
            empty = H::combine(&empty, &empty, d);
            d += 1;
        }
        while d < DEPTH
            invariant
                n + 1 <= d <= DEPTH <= MAX_DEPTH,
                n == self.parents@.len(),
                k <= d,
                empty == empty_root::<H>(d as nat),
                self@.siblings(DEPTH as nat, filler@) == auth_path@ + siblings_from(
                    self.parents@,
                    DEPTH as nat,
                    filler@,
                    d as nat,
                    k as nat,
                ),
            decreases DEPTH - d,
        {
            let ghost before = auth_path@;
            let ghost rest = siblings_from(
                self.parents@,
                DEPTH as nat,
                filler@,
                (d + 1) as nat,
                (k + 1) as nat,
            );
            let v = if k < filler.len() {
                filler[k]
            } else {
                empty
            };
            k += 1;
            auth_path.push(v);
            assert(auth_path@ + rest =~= before + (seq![v] + rest));
            empty = H::combine(&empty, &empty, d);
            d += 1;
        }
        proof {
            assert(siblings_from(self.parents@, DEPTH as nat, filler@, d as nat, k as nat)
                =~= Seq::<H>::empty());
            assert(auth_path@ + Seq::<H>::empty() =~= auth_path@);
            lemma_path_length(self@, DEPTH as nat, filler@);
            lemma_path_authenticates(self@, DEPTH as nat, filler@);
            lemma_index_bits_write_position(self@, DEPTH as nat);
            lemma_bits_from_length(self@.parents, DEPTH as nat, 1);
            lemma_bits_of_value(self@.index_bits(DEPTH as nat));
        }
        Ok(MerklePath { auth_path, position })
    }
}

/// From level `d` up to `depth` there is one sibling per level.
pub proof fn lemma_siblings_from_length<H: MerkleHash>(
    parents: Seq<Option<H>>,
    depth: nat,
    filler: Seq<H>,
    d: nat,
    k: nat,
)
    requires
        parents.len() < depth,
        1 <= d <= depth,
    ensures
        siblings_from(parents, depth, filler, d, k).len() == depth - d,
    decreases depth - d,
{
    if d < depth {
        if d <= parents.len() && parents[d - 1] is Some {
            lemma_siblings_from_length(parents, depth, filler, d + 1, k);
        } else {
            lemma_siblings_from_length(parents, depth, filler, d + 1, k + 1);
        }
    }
}

/// The authentication path of a tree of height `depth` has exactly
/// `depth` entries, whatever the tree holds and whatever was filled in.
pub proof fn lemma_path_length<H: MerkleHash>(frontier: Frontier<H>, depth: nat, filler: Seq<H>)
    requires
        frontier.well_formed(depth),
    ensures
        frontier.siblings(depth, filler).len() == depth,
{
    lemma_siblings_from_length(frontier.parents, depth, filler, 1, 0);
    lemma_siblings_from_length(frontier.parents, depth, filler, 1, 1);
}

/// Two trees that hold the same frontier, given the same leaves in the
/// same order, have the same root.
pub proof fn lemma_root_stability<H: MerkleHash>(
    first: Frontier<H>,
    second: Frontier<H>,
    leaves: Seq<H>,
    depth: nat,
)
    requires
        first == second,
    ensures
        first.append_all(leaves) == second.append_all(leaves),
        first.append_all(leaves).root(depth, Seq::empty()) == second.append_all(leaves).root(
            depth,
            Seq::empty(),
        ),
{
}

/// Carrying a node into parents that are in shape, and that still have a
/// free level below `depth`, leaves parents that are in shape.
pub proof fn lemma_carry_keeps_shape<H: MerkleHash>(
    parents: Seq<Option<H>>,
    node: H,
    i: nat,
    depth: nat,
)
    requires
        i <= parents.len() < depth,
        parents.len() > 0 ==> parents.last() is Some,
        parents.len() + 1 == depth ==> exists|j: int|
            i <= j < parents.len() && (#[trigger] parents[j]) is None,
    ensures
        carry(parents, node, i).len() < depth,
        carry(parents, node, i).len() > 0,
        carry(parents, node, i).last() is Some,
    decreases parents.len() - i,
{
    if i < parents.len() {
        match parents[i as int] {
            Some(p) => {
                let cleared = parents.update(i as int, None);
                if parents.len() + 1 == depth {
                    let j = choose|j: int| i <= j < parents.len() && (#[trigger] parents[j]) is None;
                    assert(cleared[j] is None);
                }
                if i + 1 == parents.len() {
                    // The highest parent is about to be cleared: the node goes on top.
                    assert(carry(cleared, H::combine_spec(p, node, i + 1), i + 1) == cleared.push(
                        Some(H::combine_spec(p, node, i + 1)),
                    ));
                } else {
                    lemma_carry_keeps_shape(cleared, H::combine_spec(p, node, i + 1), i + 1, depth);
                }
            },
            None => {},
        }
    }
}

/// Appending to a tree that is in shape and not yet complete leaves a
/// tree that is in shape, and that holds a left leaf.
pub proof fn lemma_append_keeps_shape<H: MerkleHash>(frontier: Frontier<H>, leaf: H, depth: nat)
    requires
        frontier.well_formed(depth),
        !frontier.is_complete(depth),
    ensures
        frontier.append(leaf).well_formed(depth),
        frontier.append(leaf).left is Some,
{
    if frontier.left is Some && frontier.right is Some {
        let node = H::combine_spec(frontier.left->Some_0, frontier.right->Some_0, 0);
        lemma_carry_keeps_shape(frontier.parents, node, 0, depth);
    }
}

/// A filler entry never stands below the number of entries before it.
pub proof fn lemma_next_level_bound<H>(parents: Seq<Option<H>>, d: nat, skip: nat)
    requires
        1 <= d,
    ensures
        next_level(parents, d, skip) >= d + skip,
    decreases parents.len() + 1 - d,
{
    if d <= parents.len() {
        if parents[d - 1] is None {
            if skip > 0 {
                lemma_next_level_bound(parents, d + 1, (skip - 1) as nat);
            }
        } else {
            lemma_next_level_bound(parents, d + 1, skip);
        }
    }
}

/// How many leaves the subtree of the parent at index `i` holds, if the
/// parent is there.
pub open spec fn parent_weight<H>(parent: Option<H>, i: int) -> nat {
    if parent is Some {
        pow2((i + 1) as nat)
    } else {
        0
    }
}

/// Replacing one parent changes the number of leaves by the difference
/// of the weights.
pub proof fn lemma_parents_size_update<H>(parents: Seq<Option<H>>, i: int, parent: Option<H>)
    requires
        0 <= i < parents.len(),
    ensures
        parents_size(parents.update(i, parent)) + parent_weight(parents[i], i) == parents_size(
            parents,
        ) + parent_weight(parent, i),
    decreases parents.len(),
{
    let updated = parents.update(i, parent);
    if i + 1 == parents.len() {
        assert(updated.drop_last() =~= parents.drop_last());
    } else {
        lemma_parents_size_update(parents.drop_last(), i, parent);
        assert(updated.drop_last() =~= parents.drop_last().update(i, parent));
    }
}

/// Parents on `n` levels hold at most `2^(n+1) - 2` leaves, and exactly
/// that many only if every one of them is there.
pub proof fn lemma_parents_size_bound<H>(parents: Seq<Option<H>>)
    ensures
        parents_size(parents) + 2 <= pow2(parents.len() + 1),
        parents_size(parents) + 2 == pow2(parents.len() + 1) <==> forall|i: int|
            0 <= i < parents.len() ==> (#[trigger] parents[i]) is Some,
    decreases parents.len(),
{
    lemma2_to64();
    if parents.len() > 0 {
        let before = parents.drop_last();
        lemma_parents_size_bound(before);
        lemma_pow2_unfold(parents.len() + 1);
        lemma_pow2_pos(parents.len());
        if parents_size(parents) + 2 == pow2(parents.len() + 1) {
            assert forall|i: int| 0 <= i < parents.len() implies (#[trigger] parents[i]) is Some by {
                if i + 1 < parents.len() {
                    assert(before[i] is Some);
                }
            }
        }
        if forall|i: int| 0 <= i < parents.len() ==> (#[trigger] parents[i]) is Some {
            assert(parents[parents.len() - 1] is Some);
            assert forall|i: int| 0 <= i < before.len() implies (#[trigger] before[i]) is Some by {
                assert(parents[i] is Some);
            }
        }
    }
}

/// Carrying the root of a completed subtree of `2^(i+1)` leaves into the
/// parents adds `2^(i+1)` leaves to what they hold.
pub proof fn lemma_carry_size<H: MerkleHash>(parents: Seq<Option<H>>, node: H, i: nat)
    requires
        i <= parents.len(),
    ensures
        parents_size(carry(parents, node, i)) == parents_size(parents) + pow2(i + 1),
    decreases parents.len() - i,
{
    if i == parents.len() {
        assert(parents.push(Some(node)).drop_last() =~= parents);
    } else {
        match parents[i as int] {
            Some(p) => {
                let cleared = parents.update(i as int, None);
                lemma_parents_size_update(parents, i as int, None);
                lemma_carry_size(cleared, H::combine_spec(p, node, i + 1), i + 1);
                lemma_pow2_unfold(i + 2);
            },
            None => {
                lemma_parents_size_update(parents, i as int, Some(node));
            },
        }
    }
}

/// Appending a leaf adds one leaf.
pub proof fn lemma_append_size<H: MerkleHash>(frontier: Frontier<H>, leaf: H)
    ensures
        frontier.append(leaf).size() == frontier.size() + 1,
{
    if frontier.left is Some && frontier.right is Some {
        lemma2_to64();
        lemma_carry_size(
            frontier.parents,
            H::combine_spec(frontier.left->Some_0, frontier.right->Some_0, 0),
            0,
        );
    }
}

/// A tree in shape of height `depth` holds at most `2^depth` leaves, and
/// exactly that many when, and only when, it is complete.
pub proof fn lemma_capacity<H: MerkleHash>(frontier: Frontier<H>, depth: nat)
    requires
        frontier.well_formed(depth),
    ensures
        frontier.size() <= pow2(depth),
        frontier.size() == pow2(depth) <==> frontier.is_complete(depth),
{
    lemma_parents_size_bound(frontier.parents);
    if frontier.parents.len() + 1 < depth {
        lemma_pow2_strictly_increases(frontier.parents.len() + 1, depth);
    }
}

/// Appending leaves to a tree in shape, as many as it still has room for,
/// leaves a tree in shape that holds that many leaves more.
pub proof fn lemma_append_all<H: MerkleHash>(frontier: Frontier<H>, leaves: Seq<H>, depth: nat)
    requires
        frontier.well_formed(depth),
        frontier.size() + leaves.len() <= pow2(depth),
    ensures
        frontier.append_all(leaves).well_formed(depth),
        frontier.append_all(leaves).size() == frontier.size() + leaves.len(),
    decreases leaves.len(),
{
    if leaves.len() > 0 {
        lemma_capacity(frontier, depth);
        lemma_append_size(frontier, leaves[0]);
        lemma_append_keeps_shape(frontier, leaves[0], depth);
        lemma_append_all(frontier.append(leaves[0]), leaves.drop_first(), depth);
    }
}

/// For each level from `d` up to `depth`, whether the frontier has a left
/// sibling there, that is whether the newest leaf lies in the right half.
pub open spec fn bits_from<H>(parents: Seq<Option<H>>, depth: nat, d: nat) -> Seq<bool>
    decreases
        (if parents.len() + 1 > depth {
            parents.len() + 1
        } else {
            depth
        }) - d,
{
    if 1 <= d <= parents.len() {
        seq![parents[d - 1] is Some] + bits_from(parents, depth, d + 1)
    } else if 1 <= d < depth {
        seq![false] + bits_from(parents, depth, d + 1)
    } else {
        Seq::empty()
    }
}

/// The number that `bits` write, least significant first.
pub open spec fn bits_value(bits: Seq<bool>) -> nat
    decreases bits.len(),
{
    if bits.len() == 0 {
        0
    } else {
        (if bits[0] {
            1nat
        } else {
            0nat
        }) + 2 * bits_value(bits.drop_first())
    }
}

/// The node that a verifier reaches who starts from `node` at `level` and
/// combines it, level by level, with `siblings`: to the right of the
/// sibling where the bit is set, to the left where it is not.
pub open spec fn climb<H: MerkleHash>(node: H, siblings: Seq<H>, bits: Seq<bool>, level: nat) -> H
    decreases siblings.len(),
{
    if siblings.len() == 0 {
        node
    } else {
        let above = if bits[0] {
            H::combine_spec(siblings[0], node, level)
        } else {
            H::combine_spec(node, siblings[0], level)
        };
        climb(above, siblings.drop_first(), bits.drop_first(), level + 1)
    }
}

impl<H: MerkleHash> Frontier<H> {
    /// The newest leaf.
    pub open spec fn newest(self) -> H {
        match self.right {
            Some(leaf) => leaf,
            None => self.left->Some_0,
        }
    }

    /// The position of the newest leaf, bit by bit, least significant
    /// first: at each level, whether the leaf lies in the right half.
    pub open spec fn index_bits(self, depth: nat) -> Seq<bool> {
        seq![self.right is Some] + bits_from(self.parents, depth, 1)
    }
}

/// Folding up from level `d` is climbing along the siblings from `d` on.
pub proof fn lemma_fold_up_is_climb<H: MerkleHash>(
    parents: Seq<Option<H>>,
    depth: nat,
    filler: Seq<H>,
    node: H,
    d: nat,
    k: nat,
)
    requires
        1 <= d,
    ensures
        fold_up(parents, depth, filler, node, d, k) == climb(
            node,
            siblings_from(parents, depth, filler, d, k),
            bits_from(parents, depth, d),
            d,
        ),
    decreases
        (if parents.len() + 1 > depth {
            parents.len() + 1
        } else {
            depth
        }) - d,
{
    let siblings = siblings_from(parents, depth, filler, d, k);
    let bits = bits_from(parents, depth, d);
    if d <= parents.len() {
        match parents[d - 1] {
            Some(p) => {
                let rest = siblings_from(parents, depth, filler, d + 1, k);
                lemma_fold_up_is_climb(parents, depth, filler, H::combine_spec(p, node, d), d + 1, k);
                assert(siblings.drop_first() =~= rest);
                assert(bits.drop_first() =~= bits_from(parents, depth, d + 1));
            },
            None => {
                let rest = siblings_from(parents, depth, filler, d + 1, k + 1);
                lemma_fold_up_is_climb(
                    parents,
                    depth,
                    filler,
                    H::combine_spec(node, fill(filler, k, d), d),
                    d + 1,
                    k + 1,
                );
                assert(siblings.drop_first() =~= rest);
                assert(bits.drop_first() =~= bits_from(parents, depth, d + 1));
            },
        }
    } else if d < depth {
        let rest = siblings_from(parents, depth, filler, d + 1, k + 1);
        lemma_fold_up_is_climb(
            parents,
            depth,
            filler,
            H::combine_spec(node, fill(filler, k, d), d),
            d + 1,
            k + 1,
        );
        assert(siblings.drop_first() =~= rest);
        assert(bits.drop_first() =~= bits_from(parents, depth, d + 1));
    }
}

/// The authentication path proves the newest leaf: a verifier who climbs
/// from that leaf along the siblings of the path, as the bits of the
/// leaf's position tell, reaches the root.
pub proof fn lemma_path_authenticates<H: MerkleHash>(
    frontier: Frontier<H>,
    depth: nat,
    filler: Seq<H>,
)
    requires
        frontier.left is Some,
    ensures
        climb(
            frontier.newest(),
            frontier.siblings(depth, filler),
            frontier.index_bits(depth),
            0,
        ) == frontier.root(depth, filler),
{
    let siblings = frontier.siblings(depth, filler);
    let bits = frontier.index_bits(depth);
    let k: nat = if frontier.right is Some {
        0
    } else {
        1
    };
    let pair = H::combine_spec(
        frontier.left->Some_0,
        match frontier.right {
            Some(r) => r,
            None => fill(filler, 0, 0),
        },
        0,
    );
    lemma_fold_up_is_climb(frontier.parents, depth, filler, pair, 1, k);
    assert(siblings.drop_first() =~= siblings_from(frontier.parents, depth, filler, 1, k));
    assert(bits.drop_first() =~= bits_from(frontier.parents, depth, 1));
}

/// The leaves under the parents from level `d` on.
pub open spec fn parents_size_from<H>(parents: Seq<Option<H>>, d: nat) -> nat
    decreases parents.len() + 1 - d,
{
    if 1 <= d <= parents.len() {
        parent_weight(parents[d - 1], d - 1) + parents_size_from(parents, d + 1)
    } else {
        0
    }
}

/// The leaves under the parents are those under the parents below level
/// `d` and those under the parents from level `d` on.
pub proof fn lemma_parents_size_split<H>(parents: Seq<Option<H>>, d: nat)
    requires
        1 <= d <= parents.len() + 1,
    ensures
        parents_size(parents) == parents_size(parents.take(d - 1)) + parents_size_from(parents, d),
    decreases parents.len() + 1 - d,
{
    if d <= parents.len() {
        lemma_parents_size_split(parents, d + 1);
        assert(parents.take(d as int).drop_last() =~= parents.take(d - 1));
    } else {
        assert(parents.take(d - 1) =~= parents);
    }
}

/// The bits from level `d` on write the number of leaves under the
/// parents from that level on, counted in subtrees of height `d`.
pub proof fn lemma_bits_count_leaves<H>(parents: Seq<Option<H>>, depth: nat, d: nat)
    requires
        1 <= d,
    ensures
        parents_size_from(parents, d) == pow2(d) * bits_value(bits_from(parents, depth, d)),
    decreases
        (if parents.len() + 1 > depth {
            parents.len() + 1
        } else {
            depth
        }) - d,
{
    let bits = bits_from(parents, depth, d);
    if d <= parents.len() || d < depth {
        lemma_bits_count_leaves(parents, depth, d + 1);
        assert(bits.drop_first() =~= bits_from(parents, depth, d + 1));
        lemma_pow2_unfold(d + 1);
        let above = bits_value(bits_from(parents, depth, d + 1));
        assert(pow2(d + 1) * above == pow2(d) * (2 * above)) by (nonlinear_arith)
            requires
                pow2(d + 1) == 2 * pow2(d),
        ;
        if d <= parents.len() && parents[d - 1] is Some {
            assert(pow2(d) * (1 + 2 * above) == pow2(d) + pow2(d) * (2 * above))
                by (nonlinear_arith);
        } else {
            assert(pow2(d) * (0 + 2 * above) == pow2(d) * (2 * above));
        }
        if d > parents.len() {
            assert(parents_size_from(parents, d + 1) == 0);
            assert(pow2(d + 1) * above == 0);
            lemma_pow2_pos(d + 1);
            assert(above == 0) by (nonlinear_arith)
                requires
                    pow2(d + 1) * above == 0,
                    pow2(d + 1) > 0,
            ;
        }
    } else {
        assert(pow2(d) * 0 == 0);
    }
}

/// The bits of the path write the position of the newest leaf.
pub proof fn lemma_index_bits_write_position<H: MerkleHash>(frontier: Frontier<H>, depth: nat)
    requires
        frontier.left is Some,
    ensures
        bits_value(frontier.index_bits(depth)) == frontier.position(),
{
    let bits = frontier.index_bits(depth);
    lemma2_to64();
    lemma_bits_count_leaves(frontier.parents, depth, 1);
    lemma_parents_size_split(frontier.parents, 1);
    assert(frontier.parents.take(0) =~= Seq::<Option<H>>::empty());
    assert(bits.drop_first() =~= bits_from(frontier.parents, depth, 1));
}

/// The `count` lowest bits of `value`, least significant first.
pub open spec fn bits_of(value: nat, count: nat) -> Seq<bool>
    decreases count,
{
    if count == 0 {
        Seq::empty()
    } else {
        seq![value % 2 == 1] + bits_of(value / 2, (count - 1) as nat)
    }
}

/// The bits of the number that bits write are those bits.
pub proof fn lemma_bits_of_value(bits: Seq<bool>)
    ensures
        bits_of(bits_value(bits), bits.len()) == bits,
    decreases bits.len(),
{
    if bits.len() > 0 {
        lemma_bits_of_value(bits.drop_first());
        let rest = bits_value(bits.drop_first());
        assert(bits_of(bits_value(bits), bits.len()) =~= seq![bits[0]] + bits.drop_first());
        assert(seq![bits[0]] + bits.drop_first() =~= bits);
    } else {
        assert(bits_of(bits_value(bits), 0) =~= bits);
    }
}

/// There is one bit of the position for each level below the root.
pub proof fn lemma_bits_from_length<H>(parents: Seq<Option<H>>, depth: nat, d: nat)
    requires
        parents.len() < depth,
        1 <= d <= depth,
    ensures
        bits_from(parents, depth, d).len() == depth - d,
    decreases depth - d,
{
    if d < depth {
        lemma_bits_from_length(parents, depth, d + 1);
    }
}

impl<H: MerkleHash> MerklePath<H> {
    /// The root that the path leads to from `leaf`: the verifier's
    /// computation. The leaf is combined, level by level, with the
    /// siblings of the path, to the right of the sibling where the bit of
    /// the position is set and to the left where it is not.
    pub fn root_from(&self, leaf: H) -> (node: H)
        ensures
            node == climb(
                leaf,
                self.auth_path@,
                bits_of(self.position as nat, self.auth_path@.len()),
                0,
            ),
    {
        let ghost siblings = self.auth_path@;
        let ghost bits = bits_of(self.position as nat, siblings.len());
        let n = self.auth_path.len();
        let mut node = leaf;
        let mut rest = self.position;
        let mut level: usize = 0;
        assert(siblings.skip(0) =~= siblings);
        while level < n
            invariant
                level <= n,
                n == siblings.len(),
                siblings == self.auth_path@,
                climb(leaf, siblings, bits, 0) == climb(
                    node,
                    siblings.skip(level as int),
                    bits_of(rest as nat, (n - level) as nat),
                    level as nat,
                ),
            decreases n - level,
        {
            let ghost here = siblings.skip(level as int);
            let ghost flags = bits_of(rest as nat, (n - level) as nat);
            assert(here.drop_first() =~= siblings.skip(level + 1));
            assert(flags.drop_first() =~= bits_of((rest / 2) as nat, (n - level - 1) as nat));
            assert(here[0] == siblings[level as int]);
            let sibling = self.auth_path[level];
            if rest % 2 == 1 {
                node = H::combine(&sibling, &node, level);
            } else {
                node = H::combine(&node, &sibling, level);
            }
            rest = rest / 2;
            level += 1;
        }
        node
    }
}

} // verus!
