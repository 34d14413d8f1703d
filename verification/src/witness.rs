//! The incremental witness: what a wallet keeps of the tree to prove, at
//! any later time, that one leaf is in it.

use crate::merkle_tree::{
    bits_of, bits_value, climb, lemma_append_keeps_shape, lemma_index_bits_write_position,
    lemma_next_level_bound, lemma_path_authenticates, lemma_path_length, Frontier,
    IncrementalMerkleTree, MerkleHash, MerklePath, TreeError, };
use vstd::prelude::*;

verus! {

/// The mathematical content of a witness.
pub ghost struct WitnessView<H> {
    /// The tree as it was right after the witnessed leaf was appended.
    pub tree: Frontier<H>,
    /// The roots of the subtrees to the right of the witnessed leaf that
    /// later leaves have completed, lowest first.
    pub filled: Seq<H>,
    /// The subtree that later leaves are completing now.
    pub cursor: Option<Frontier<H>>,
}

impl<H: MerkleHash> WitnessView<H> {
    /// The height of the subtree that the cursor is completing, or would
    /// have to complete next.
    pub open spec fn cursor_depth(self) -> nat {
        self.tree.next_depth(self.filled.len())
    }

    /// The witness is one that appends can reach from a tree with a leaf:
    /// the tree is in shape, and an active cursor is an unfinished subtree
    /// of the height that comes next.
    pub open spec fn well_formed(self, depth: nat) -> bool {
        &&& self.tree.well_formed(depth)
        &&& self.tree.left is Some
        &&& self.filled.len() <= depth
        &&& match self.cursor {
            Some(cursor) => {
                &&& self.cursor_depth() < depth
                &&& cursor.well_formed(self.cursor_depth())
                &&& cursor.left is Some
                &&& !cursor.is_complete(self.cursor_depth())
            },
            None => true,
        }
    }

    /// What stands to the right of the witnessed leaf so far: the filled
    /// roots, then the root of the cursor's subtree padded with empty
    /// leaves.
    pub open spec fn partial_path(self) -> Seq<H> {
        match self.cursor {
            Some(cursor) => self.filled.push(cursor.root(self.cursor_depth(), Seq::empty())),
            None => self.filled,
        }
    }

    /// The root of the whole tree as the witness knows it.
    pub open spec fn root(self, depth: nat) -> H {
        self.tree.root(depth, self.partial_path())
    }

    /// The siblings of the witnessed leaf, its own first.
    pub open spec fn siblings(self, depth: nat) -> Seq<H> {
        self.tree.siblings(depth, self.partial_path())
    }

    /// No later leaf can be taken in: every place to the right of the
    /// witnessed leaf is filled.
    pub open spec fn is_full(self, depth: nat) -> bool {
        self.cursor is None && self.cursor_depth() >= depth
    }

    /// The witness after the leaves of `leaves`, in order.
    pub open spec fn append_all(self, leaves: Seq<H>) -> Self
        decreases leaves.len(),
    {
        if leaves.len() == 0 {
            self
        } else {
            self.append(leaves[0]).append_all(leaves.drop_first())
        }
    }

    /// The witness after one more leaf of the tree.
    pub open spec fn append(self, leaf: H) -> Self {
        match self.cursor {
            Some(cursor) => {
                let grown = cursor.append(leaf);
                if grown.is_complete(self.cursor_depth()) {
                    WitnessView {
                        filled: self.filled.push(grown.root(self.cursor_depth(), Seq::empty())),
                        cursor: None,
                        ..self
                    }
                } else {
                    WitnessView { cursor: Some(grown), ..self }
                }
            },
            None => {
                if self.cursor_depth() == 0 {
                    WitnessView { filled: self.filled.push(leaf), ..self }
                } else {
                    WitnessView { cursor: Some(Frontier::<H>::empty().append(leaf)), ..self }
                }
            },
        }
    }
}

/// The witness of one leaf of a tree of height `DEPTH`.
#[derive(Debug, Clone, PartialEq, Eq)]
pub struct IncrementalWitness<const DEPTH: usize, H> {
    pub(crate) tree: IncrementalMerkleTree<DEPTH, H>,
    pub(crate) filled: Vec<H>,
    pub(crate) cursor: Option<IncrementalMerkleTree<DEPTH, H>>,
}

impl<const DEPTH: usize, H: MerkleHash> View for IncrementalWitness<DEPTH, H> {
    type V = WitnessView<H>;

    closed spec fn view(&self) -> WitnessView<H> {
        WitnessView {
            tree: self.tree@,
            filled: self.filled@,
            cursor: match self.cursor {
                Some(cursor) => Some(cursor@),
                None => None,
            },
        }
    }
}

/// What `with_fields` answers for the three parts of a witness.
pub open spec fn checked_witness<H: MerkleHash>(witness: WitnessView<H>, depth: nat) -> Result<
    WitnessView<H>,
    TreeError,
> {
    if witness.tree.left is None {
        Err(TreeError::NoLeaf)
    } else if witness.filled.len() > depth {
        Err(TreeError::TooManyFilled)
    } else if witness.cursor is Some && !witness.well_formed(depth) {
        Err(TreeError::CursorMismatch)
    } else {
        Ok(witness)
    }
}

impl<const DEPTH: usize, H: MerkleHash> IncrementalWitness<DEPTH, H> {
    /// The witness keeps the shape that appends give it.
    pub open spec fn wf(&self) -> bool {
        self@.well_formed(DEPTH as nat)
    }

    /// Whether the witness keeps the shape that appends give it.
    pub fn is_wf(&self) -> (ok: bool)
        ensures
            ok == self.wf(),
    {
        if !self.tree.is_wf() || self.tree.left().is_none() || self.filled.len() > DEPTH {
            return false;
        }
        match &self.cursor {
            Some(cursor) => {
                let cursor_depth = self.tree.next_depth(self.filled.len());
                cursor.is_wf() && cursor_depth < DEPTH && cursor.parents().len() < cursor_depth
                    && cursor.left().is_some() && !cursor.is_complete_at(cursor_depth)
            },
            None => true,
        }
    }

    /// The witness of the newest leaf of `tree`, before any later leaf. A
    /// tree without leaves has nothing to witness.
    pub fn from_tree(tree: IncrementalMerkleTree<DEPTH, H>) -> (outcome: Result<Self, TreeError>)
        requires
            tree.wf(),
        ensures
            match outcome {
                Ok(witness) => {
                    &&& witness.wf()
                    &&& tree@.left is Some
                    &&& witness@ == WitnessView { tree: tree@, filled: Seq::empty(), cursor: None }
                },
                Err(e) => e == TreeError::NoLeaf && tree@.left is None,
            },
    {
        if tree.left().is_none() {
            return Err(TreeError::NoLeaf);
        }
        Ok(IncrementalWitness { tree, filled: Vec::new(), cursor: None })
    }

    /// Builds a witness from its three parts, and refuses parts that no
    /// sequence of appends leaves behind: a tree without leaves, more
    /// filled roots than the path has places, or a cursor that is not an
    /// unfinished subtree of the height that comes next.
    pub fn with_fields(
        tree: IncrementalMerkleTree<DEPTH, H>,
        filled: Vec<H>,
        cursor: Option<IncrementalMerkleTree<DEPTH, H>>,
    ) -> (outcome: Result<Self, TreeError>)
        requires
            tree.wf(),
            cursor is Some ==> cursor->Some_0.wf(),
        ensures
            match outcome {
                Ok(witness) => witness.wf() && checked_witness(
                    WitnessView {
                        tree: tree@,
                        filled: filled@,
                        cursor: match cursor {
                            Some(c) => Some(c@),
                            None => None,
                        },
                    },
                    DEPTH as nat,
                ) == Ok::<WitnessView<H>, TreeError>(witness@),
                Err(e) => checked_witness(
                    WitnessView {
                        tree: tree@,
                        filled: filled@,
                        cursor: match cursor {
                            Some(c) => Some(c@),
                            None => None,
                        },
                    },
                    DEPTH as nat,
                ) == Err::<WitnessView<H>, TreeError>(e),
            },
    {
        if tree.left().is_none() {
            return Err(TreeError::NoLeaf);
        }
        if filled.len() > DEPTH {
            return Err(TreeError::TooManyFilled);
        }
        match &cursor {
            Some(c) => {
                let cursor_depth = tree.next_depth(filled.len());
                if cursor_depth >= DEPTH || c.parents().len() >= cursor_depth
                    || c.left().is_none() || c.is_complete_at(cursor_depth) {
                    return Err(TreeError::CursorMismatch);
                }
            },
            None => {},
        }
        Ok(IncrementalWitness { tree, filled, cursor })
    }

    /// The tree as it was right after the witnessed leaf was appended.
    pub fn tree(&self) -> (tree: &IncrementalMerkleTree<DEPTH, H>)
        ensures
            tree@ == self@.tree,
    {
        &self.tree
    }

    /// The roots of the subtrees that later leaves have completed.
    pub fn filled(&self) -> (filled: &Vec<H>)
        ensures
            filled@ == self@.filled,
    {
        &self.filled
    }

    /// The subtree that later leaves are completing now, if any.
    pub fn cursor(&self) -> (cursor: &Option<IncrementalMerkleTree<DEPTH, H>>)
        ensures
            match *cursor {
                Some(c) => self@.cursor == Some(c@),
                None => self@.cursor is None,
            },
    {
        &self.cursor
    }

    /// Takes in the next leaf that was appended to the tree after the
    /// witnessed one.
    ///
    /// Without an active cursor, the leaf either is itself the next
    /// sibling on the path, or starts a cursor for the subtree that is.
    /// With one, the leaf grows the cursor; a cursor that is thereby
    /// completed is replaced by its root among the filled ones. A witness
    /// whose path is fully known is left as it is.
    pub fn append(&mut self, leaf: H) -> (outcome: Result<(), TreeError>)
        requires
            old(self).wf(),
        ensures
            final(self).wf(),
            match outcome {
                Ok(_) => {
                    &&& !old(self)@.is_full(DEPTH as nat)
                    &&& final(self)@ == old(self)@.append(leaf)
                },
                Err(e) => {
                    &&& e == TreeError::Full
                    &&& old(self)@.is_full(DEPTH as nat)
                    &&& final(self)@ == old(self)@
                },
            },
    {
        proof {
            lemma_append_keeps_witness_shape(self@, leaf, DEPTH as nat);
        }
        let cursor_depth = self.tree.next_depth(self.filled.len());
        match self.cursor.take() {
            Some(mut cursor) => {
                let ghost before = cursor@;
                let grown = cursor.append(leaf);
                assert(grown is Ok);
                if cursor.is_complete_at(cursor_depth) {
                    let empty: Vec<H> = Vec::new();
                    let node = cursor.root_at(cursor_depth, &empty);
                    self.filled.push(node);
                } else {
                    self.cursor = Some(cursor);
                }
                Ok(())
            },
            None => {
                if cursor_depth >= DEPTH {
                    return Err(TreeError::Full);
                }
                if cursor_depth == 0 {
                    self.filled.push(leaf);
                } else {
                    let mut cursor = IncrementalMerkleTree::<DEPTH, H>::new();
                    let started = cursor.append(leaf);
                    assert(started is Ok);
                    self.cursor = Some(cursor);
                }
                Ok(())
            },
        }
    }

    /// What stands to the right of the witnessed leaf so far.
    fn partial_path(&self) -> (filler: Vec<H>)
        requires
            self.wf(),
        ensures
            filler@ == self@.partial_path(),
    {
        let mut filler: Vec<H> = Vec::new();
        let n = self.filled.len();
        let mut i: usize = 0;
        while i < n
            invariant
                i <= n,
                n == self.filled@.len(),
                filler@ == self.filled@.take(i as int),
            decreases n - i,
        {
            filler.push(self.filled[i]);
            assert(self.filled@.take(i + 1) =~= self.filled@.take(i as int).push(
                self.filled@[i as int],
            ));
            i += 1;
        }
        assert(self.filled@.take(n as int) =~= self.filled@);
        match &self.cursor {
            Some(cursor) => {
                let cursor_depth = self.tree.next_depth(n);
                let empty: Vec<H> = Vec::new();
                filler.push(cursor.root_at(cursor_depth, &empty));
            },
            None => {},
        }
        filler
    }

    /// The root of the whole tree as the witness knows it: the root that
    /// the tree itself has after the same leaves.
    pub fn root(&self) -> (node: H)
        requires
            self.wf(),
        ensures
            node == self@.root(DEPTH as nat),
    {
        let filler = self.partial_path();
        self.tree.root_at(DEPTH, &filler)
    }

    /// The leaf that the witness is the witness of.
    pub fn witnessed(&self) -> (leaf: H)
        requires
            self.wf(),
        ensures
            leaf == self@.tree.newest(),
    {
        match self.tree.newest() {
            Some(leaf) => leaf,
            None => vstd::pervasive::unreached(),
        }
    }

    /// The authentication path of the witnessed leaf: exactly `DEPTH`
    /// siblings, the leaf's own first, and the leaf's position. The path
    /// leads from the witnessed leaf to the root that the witness knows.
    pub fn path(&self) -> (path: MerklePath<H>)
        requires
            self.wf(),
        ensures
            path.auth_path@ == self@.siblings(DEPTH as nat),
            path.auth_path@.len() == DEPTH,
            path.position == self@.tree.position(),
            climb(
                self@.tree.newest(),
                path.auth_path@,
                bits_of(path.position as nat, DEPTH as nat),
                0,
            ) == self@.root(DEPTH as nat),
    {
        let filler = self.partial_path();
        match self.tree.path(&filler) {
            Ok(path) => path,
            Err(_) => vstd::pervasive::unreached(),
        }
    }
}

/// Taking in a leaf keeps a witness in shape, unless its path is already
/// fully known.
pub proof fn lemma_append_keeps_witness_shape<H: MerkleHash>(
    witness: WitnessView<H>,
    leaf: H,
    depth: nat,
)
    requires
        witness.well_formed(depth),
    ensures
        !witness.is_full(depth) ==> witness.append(leaf).well_formed(depth),
        witness.cursor is Some ==> !witness.cursor->Some_0.is_complete(depth),
{
    let cursor_depth = witness.cursor_depth();
    if witness.tree.right is None {
        if witness.filled.len() > 0 {
            lemma_next_level_bound(witness.tree.parents, 1, (witness.filled.len() - 1) as nat);
        }
    } else {
        lemma_next_level_bound(witness.tree.parents, 1, witness.filled.len());
    }
    assert(cursor_depth >= witness.filled.len());
    match witness.cursor {
        Some(cursor) => {
            lemma_append_keeps_shape(cursor, leaf, cursor_depth);
        },
        None => {
            if 0 < cursor_depth < depth {
                let started = Frontier::<H>::empty().append(leaf);
                assert(started.parents.len() == 0);
            }
        },
    }
}

/// The cursor of a witness in shape is a tree in shape.
pub proof fn lemma_cursor_in_shape<H: MerkleHash>(witness: WitnessView<H>, depth: nat)
    requires
        witness.well_formed(depth),
        witness.cursor is Some,
    ensures
        witness.cursor->Some_0.well_formed(depth),
{
}

/// A witness in shape, of whatever leaf and after whatever later leaves,
/// has a path of exactly `depth` entries.
pub proof fn lemma_witness_path_length<H: MerkleHash>(witness: WitnessView<H>, depth: nat)
    requires
        witness.well_formed(depth),
    ensures
        witness.siblings(depth).len() == depth,
{
    lemma_path_length(witness.tree, depth, witness.partial_path());
}

/// The path of a witness proves the witnessed leaf against the root that
/// the witness knows: a verifier who climbs from the leaf along the
/// siblings, as the bits of the leaf's position tell, reaches that root,
/// and those bits write the position that the path gives.
pub proof fn lemma_witness_path_authenticates<H: MerkleHash>(witness: WitnessView<H>, depth: nat)
    requires
        witness.well_formed(depth),
    ensures
        climb(
            witness.tree.newest(),
            witness.siblings(depth),
            witness.tree.index_bits(depth),
            0,
        ) == witness.root(depth),
        bits_value(witness.tree.index_bits(depth)) == witness.tree.position(),
{
    lemma_path_authenticates(witness.tree, depth, witness.partial_path());
    lemma_index_bits_write_position(witness.tree, depth);
}

} // verus!
