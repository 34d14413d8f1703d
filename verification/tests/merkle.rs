use zewif::sha256_compress::compress_pair;
use zewif::{
    u256, Blob, IncrementalMerkleTree, IncrementalWitness, MerkleHash, SproutTree, SproutWitness,
    TreeError,
};

fn leaf(n: u8) -> u256 {
    Blob::new([n; 32])
}

fn hex(text: &str) -> u256 {
    Blob::from_hex(text).unwrap()
}

fn empty_roots(depth: usize) -> Vec<u256> {
    let mut roots = vec![u256::default()];
    for level in 0..depth {
        let below = roots[level];
        roots.push(compress_pair(&below, &below));
    }
    roots
}

/// The root of the full tree of height `depth` whose first leaves are
/// `leaves` and whose other leaves are empty, computed level by level.
fn naive_root(leaves: &[u256], depth: usize) -> u256 {
    let mut level: Vec<u256> = leaves.to_vec();
    level.resize(1 << depth, u256::default());
    for _ in 0..depth {
        level = level.chunks(2).map(|pair| compress_pair(&pair[0], &pair[1])).collect();
    }
    level[0]
}

/// The root that a verifier computes from a leaf, its position and its
/// authentication path.
fn root_from_path(leaf: u256, position: u64, path: &[u256]) -> u256 {
    let mut node = leaf;
    for (level, sibling) in path.iter().enumerate() {
        node = if (position >> level) & 1 == 1 {
            compress_pair(sibling, &node)
        } else {
            compress_pair(&node, sibling)
        };
    }
    node
}

#[test]
fn compression_of_two_empty_leaves() {
    let zero = u256::default();
    assert_eq!(
        compress_pair(&zero, &zero),
        hex("da5698be17b9b46962335799779fbeca8ce5d491c0d26243bafef9ea1837a9d8")
    );
}

#[test]
fn compression_depends_on_the_order() {
    assert_eq!(
        compress_pair(&leaf(1), &leaf(2)),
        hex("8d858a4aa881df834b680ffdb762f3a30e7f02de436baf9a09ea1887d27bbac9")
    );
    assert_eq!(
        compress_pair(&leaf(2), &leaf(1)),
        hex("1a3380bf49e6a5e7669be7e91d63192498ae9feaaa2cfef009853ff791cc22b4")
    );
}

#[test]
fn combine_is_the_compression_at_every_level() {
    assert_eq!(<u256 as MerkleHash>::uncommitted(), u256::default());
    assert_eq!(<u256 as MerkleHash>::combine(&leaf(1), &leaf(2), 0), compress_pair(&leaf(1), &leaf(2)));
    assert_eq!(<u256 as MerkleHash>::combine(&leaf(1), &leaf(2), 17), compress_pair(&leaf(1), &leaf(2)));
}

#[test]
fn root_of_the_empty_tree() {
    let tree = SproutTree::new();
    assert!(tree.is_empty());
    assert_eq!(
        tree.root(),
        hex("d7c612c817793191a1e68652121876d6b3bde40f4fa52bc314145ce6e5cdd259")
    );
    assert_eq!(tree.root(), empty_roots(29)[29]);
    let small = IncrementalMerkleTree::<2, u256>::new();
    assert_eq!(
        small.root(),
        hex("dc766fab492ccf3d1e49d4f374b5235fa56506aac2224d39f943fcd49202974c")
    );
}

#[test]
fn roots_of_small_trees() {
    let mut tree = IncrementalMerkleTree::<2, u256>::new();
    tree.append(leaf(1)).unwrap();
    assert_eq!(
        tree.root(),
        hex("4ca77e2ebc1c9c565c9cf168f48ed791de2f437944587cd6a493e5824d762827")
    );
    let mut tree = IncrementalMerkleTree::<3, u256>::new();
    for n in 1..=5 {
        tree.append(leaf(n)).unwrap();
    }
    assert_eq!(
        tree.root(),
        hex("562a1af21fa09a785f0117751db5118c3975723d784ee2dce71b2e90917b7df6")
    );
    for n in 6..=8 {
        tree.append(leaf(n)).unwrap();
    }
    assert_eq!(
        tree.root(),
        hex("b8f4b1a6bfe0e739083d38300f40ad9334348f8b21b9869a266126929dfc239a")
    );
}

#[test]
fn root_after_every_append_is_the_root_of_the_padded_tree() {
    let leaves: Vec<u256> = (1..=16).map(leaf).collect();
    let mut tree = IncrementalMerkleTree::<4, u256>::new();
    assert_eq!(tree.root(), naive_root(&[], 4));
    for count in 1..=16 {
        assert_eq!(tree.append(leaves[count - 1]), Ok(()));
        assert_eq!(tree.root(), naive_root(&leaves[..count], 4));
        assert_eq!(tree.position(), Ok(count as u64 - 1));
    }
    assert!(tree.is_complete());
}

#[test]
fn append_fills_left_then_right_then_carries() {
    let mut tree = IncrementalMerkleTree::<3, u256>::new();
    tree.append(leaf(1)).unwrap();
    assert_eq!((tree.left(), tree.right()), (Some(leaf(1)), None));
    assert!(tree.parents().is_empty());
    tree.append(leaf(2)).unwrap();
    assert_eq!((tree.left(), tree.right()), (Some(leaf(1)), Some(leaf(2))));
    assert!(tree.parents().is_empty());
    tree.append(leaf(3)).unwrap();
    let first_pair = compress_pair(&leaf(1), &leaf(2));
    assert_eq!((tree.left(), tree.right()), (Some(leaf(3)), None));
    assert_eq!(tree.parents(), &vec![Some(first_pair)]);
    tree.append(leaf(4)).unwrap();
    tree.append(leaf(5)).unwrap();
    let second_pair = compress_pair(&leaf(3), &leaf(4));
    assert_eq!((tree.left(), tree.right()), (Some(leaf(5)), None));
    assert_eq!(tree.parents(), &vec![None, Some(compress_pair(&first_pair, &second_pair))]);
}

#[test]
fn a_full_tree_takes_no_more_leaves() {
    let mut tree = IncrementalMerkleTree::<2, u256>::new();
    for n in 1..=4 {
        assert!(!tree.is_complete());
        assert_eq!(tree.append(leaf(n)), Ok(()));
    }
    assert!(tree.is_complete());
    let before = tree.clone();
    assert_eq!(tree.append(leaf(5)), Err(TreeError::Full));
    assert_eq!(tree, before);
}

#[test]
fn the_path_of_a_tree_leads_from_its_newest_leaf_to_its_root() {
    let mut tree = IncrementalMerkleTree::<5, u256>::new();
    assert_eq!(tree.newest(), None);
    for n in 1..=20 {
        tree.append(leaf(n)).unwrap();
        assert_eq!(tree.newest(), Some(leaf(n)));
        let path = tree.path(&vec![]).unwrap();
        assert_eq!(path.position, n as u64 - 1);
        assert_eq!(path.root_from(leaf(n)), tree.root());
        assert_ne!(path.root_from(leaf(n + 1)), tree.root());
    }
}

#[test]
fn position_of_the_empty_tree() {
    let tree = IncrementalMerkleTree::<4, u256>::new();
    assert_eq!(tree.position(), Err(TreeError::NoLeaf));
    assert_eq!(tree.path(&vec![]), Err(TreeError::NoLeaf));
}

#[test]
fn with_fields_refuses_what_appends_cannot_leave() {
    type Tree = IncrementalMerkleTree<3, u256>;
    assert!(Tree::with_fields(None, None, vec![]).is_ok());
    assert!(Tree::with_fields(Some(leaf(1)), Some(leaf(2)), vec![None, Some(leaf(3))]).is_ok());
    assert_eq!(
        Tree::with_fields(Some(leaf(1)), None, vec![Some(leaf(2)), Some(leaf(3)), Some(leaf(4))]),
        Err(TreeError::TooManyParents)
    );
    assert_eq!(
        Tree::with_fields(Some(leaf(1)), None, vec![Some(leaf(2)), None]),
        Err(TreeError::TrailingEmptyParent)
    );
    assert_eq!(Tree::with_fields(None, Some(leaf(2)), vec![]), Err(TreeError::RightWithoutLeft));
    assert_eq!(
        Tree::with_fields(None, None, vec![Some(leaf(2))]),
        Err(TreeError::ParentsWithoutLeft)
    );
    assert_eq!(
        IncrementalMerkleTree::<0, u256>::with_fields(None, None, vec![]),
        Err(TreeError::DepthOutOfRange)
    );
    assert_eq!(
        IncrementalMerkleTree::<65, u256>::with_fields(None, None, vec![]),
        Err(TreeError::DepthOutOfRange)
    );
}

#[test]
fn identical_trees_have_identical_roots() {
    let leaves: Vec<u256> = (10..20).map(leaf).collect();
    let mut first = SproutTree::new();
    let mut second = SproutTree::with_fields(None, None, vec![]).unwrap();
    for item in &leaves {
        first.append(*item).unwrap();
        second.append(*item).unwrap();
        assert_eq!(first.root(), second.root());
    }
    assert_eq!(first, second);
    let mut reordered = SproutTree::new();
    for item in leaves.iter().rev() {
        reordered.append(*item).unwrap();
    }
    assert_ne!(first.root(), reordered.root());
}

#[test]
fn a_witness_needs_a_leaf() {
    let tree = IncrementalMerkleTree::<4, u256>::new();
    assert_eq!(IncrementalWitness::from_tree(tree), Err(TreeError::NoLeaf));
}

#[test]
fn every_witness_follows_the_tree() {
    const DEPTH: usize = 4;
    let leaves: Vec<u256> = (1..=16).map(leaf).collect();
    for witnessed in 0..16 {
        let mut tree = IncrementalMerkleTree::<DEPTH, u256>::new();
        for item in &leaves[..=witnessed] {
            tree.append(*item).unwrap();
        }
        let mut witness = IncrementalWitness::from_tree(tree.clone()).unwrap();
        for later in witnessed..16 {
            let path = witness.path();
            assert_eq!(path.auth_path.len(), DEPTH);
            assert_eq!(path.position, witnessed as u64);
            assert_eq!(witness.root(), tree.root());
            assert_eq!(
                root_from_path(leaves[witnessed], path.position, &path.auth_path),
                tree.root()
            );
            assert_eq!(witness.witnessed(), leaves[witnessed]);
            assert_eq!(path.root_from(witness.witnessed()), witness.root());
            if later + 1 < 16 {
                tree.append(leaves[later + 1]).unwrap();
                assert_eq!(witness.append(leaves[later + 1]), Ok(()));
            }
        }
        assert_eq!(tree.append(leaf(99)), Err(TreeError::Full));
        let before = witness.clone();
        assert_eq!(witness.append(leaf(99)), Err(TreeError::Full));
        assert_eq!(witness, before);
    }
}

#[test]
fn sprout_witness_path_has_twenty_nine_entries() {
    let mut tree = SproutTree::new();
    for n in 1..=5 {
        tree.append(leaf(n)).unwrap();
    }
    let mut witness = SproutWitness::from_tree(tree.clone()).unwrap();
    assert_eq!(witness.path().auth_path.len(), 29);
    for n in 6..=40 {
        tree.append(leaf(n)).unwrap();
        witness.append(leaf(n)).unwrap();
        let path = witness.path();
        assert_eq!(path.auth_path.len(), 29);
        assert_eq!(path.position, 4);
        assert_eq!(witness.root(), tree.root());
        assert_eq!(root_from_path(leaf(5), 4, &path.auth_path), tree.root());
    }
}

#[test]
fn the_cursor_gathers_later_leaves() {
    let mut tree = IncrementalMerkleTree::<3, u256>::new();
    tree.append(leaf(1)).unwrap();
    let mut witness = IncrementalWitness::from_tree(tree).unwrap();
    assert!(witness.filled().is_empty());
    assert!(witness.cursor().is_none());
    witness.append(leaf(2)).unwrap();
    assert_eq!(witness.filled(), &vec![leaf(2)]);
    assert!(witness.cursor().is_none());
    witness.append(leaf(3)).unwrap();
    assert_eq!(witness.filled(), &vec![leaf(2)]);
    assert_eq!(witness.cursor().as_ref().unwrap().left(), Some(leaf(3)));
    witness.append(leaf(4)).unwrap();
    assert_eq!(witness.filled(), &vec![leaf(2), compress_pair(&leaf(3), &leaf(4))]);
    assert!(witness.cursor().is_none());
    assert_eq!(witness.tree().left(), Some(leaf(1)));
}

#[test]
fn with_fields_refuses_a_witness_that_does_not_fit() {
    type Tree = IncrementalMerkleTree<3, u256>;
    type Witness = IncrementalWitness<3, u256>;
    let mut tree = Tree::new();
    tree.append(leaf(1)).unwrap();
    assert_eq!(Witness::with_fields(Tree::new(), vec![], None), Err(TreeError::NoLeaf));
    assert_eq!(
        Witness::with_fields(tree.clone(), vec![leaf(2); 4], None),
        Err(TreeError::TooManyFilled)
    );
    let mut cursor = Tree::new();
    cursor.append(leaf(3)).unwrap();
    assert_eq!(
        Witness::with_fields(tree.clone(), vec![], Some(cursor.clone())),
        Err(TreeError::CursorMismatch)
    );
    assert_eq!(
        Witness::with_fields(tree.clone(), vec![leaf(2)], Some(Tree::new())),
        Err(TreeError::CursorMismatch)
    );
    let witness = Witness::with_fields(tree.clone(), vec![leaf(2)], Some(cursor)).unwrap();
    let mut expected = Witness::from_tree(tree).unwrap();
    expected.append(leaf(2)).unwrap();
    expected.append(leaf(3)).unwrap();
    assert_eq!(witness, expected);
}

#[test]
fn next_depth_walks_the_free_places() {
    let mut tree = IncrementalMerkleTree::<4, u256>::new();
    tree.append(leaf(1)).unwrap();
    assert_eq!(tree.next_depth(0), 0);
    assert_eq!(tree.next_depth(1), 1);
    assert_eq!(tree.next_depth(2), 2);
    assert_eq!(tree.next_depth(3), 3);
    for n in 2..=5 {
        tree.append(leaf(n)).unwrap();
    }
    assert_eq!(tree.next_depth(0), 0);
    assert_eq!(tree.next_depth(1), 1);
    assert_eq!(tree.next_depth(2), 3);
    assert_eq!(tree.next_depth(3), 4);
    assert!(tree.is_complete_at(1) == false);
}
