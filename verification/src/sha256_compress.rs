//! The node hash of the first shielded protocol: the SHA-256 compression
//! function applied to the two children, without padding.

use crate::blob::{u256, Blob};
use crate::merkle_tree::MerkleHash;
use vstd::prelude::*;

verus! {

/// The output of the SHA-256 compression function used as a node hash.
pub type SHA256Compress = u256;

/// The eight state words that the SHA-256 compression function leaves when
/// it is run from the state `state` over the 64-byte block `block`.
pub uninterp spec fn sha256_compression(state: Seq<u32>, block: Seq<u8>) -> Seq<u32>;

/// The state that SHA-256 starts from.
pub open spec fn sha256_initial_state() -> Seq<u32> {
    seq![
        0x6a09e667u32,
        0xbb67ae85u32,
        0x3c6ef372u32,
        0xa54ff53au32,
        0x510e527fu32,
        0x9b05688cu32,
        0x1f83d9abu32,
        0x5be0cd19u32,
    ]
}

/// Byte `k` of `word`, counted from the most significant.
pub open spec fn byte_of_word(word: u32, k: int) -> u8 {
    if k == 0 {
        (word / 0x100_0000) as u8
    } else if k == 1 {
        (word / 0x1_0000 % 0x100) as u8
    } else if k == 2 {
        (word / 0x100 % 0x100) as u8
    } else {
        (word % 0x100) as u8
    }
}

/// The words written one after the other, each most significant byte first.
pub open spec fn big_endian_bytes(words: Seq<u32>) -> Seq<u8> {
    Seq::new(4 * words.len(), |i: int| byte_of_word(words[i / 4], i % 4))
}

/// The parent of two 32-byte nodes: one run of the compression function,
/// from the initial state, over the left node followed by the right.
pub open spec fn sha256_compress_pair(left: Seq<u8>, right: Seq<u8>) -> Seq<u8> {
    big_endian_bytes(sha256_compression(sha256_initial_state(), left + right))
}

/// Calls `sha2::compress256` on one block.
///
/// Trusted: the state that comes back is the one that the name
/// `sha256_compression` stands for, a function of the state and the block
/// that went in and of nothing else.
#[verifier::external_body]
fn compress_block(state: [u32; 8], block: [u8; 64]) -> (next: [u32; 8])
    ensures
        next@ == sha256_compression(state@, block@),
{
    let mut next = state;
    sha2::compress256(&mut next, &[block.into()]);
    next
}

/// The state that SHA-256 starts from.
fn initial_state() -> (state: [u32; 8])
    ensures
        state@ == sha256_initial_state(),
{
    let state: [u32; 8] = [
        0x6a09e667,
        0xbb67ae85,
        0x3c6ef372,
        0xa54ff53a,
        0x510e527f,
        0x9b05688c,
        0x1f83d9ab,
        0x5be0cd19,
    ];
    assert(state@ =~= sha256_initial_state());
    state
}

/// The four bytes of `word`, most significant first.
fn word_bytes(word: u32) -> (bytes: [u8; 4])
    ensures
        forall|k: int| 0 <= k < 4 ==> #[trigger] bytes@[k] == byte_of_word(word, k),
{
    assert(word >> 24 == word / 0x100_0000 && (word >> 24) < 0x100) by (bit_vector);
    assert((word >> 16) & 0xff == word / 0x1_0000 % 0x100 && ((word >> 16) & 0xff) < 0x100)
        by (bit_vector);
    assert((word >> 8) & 0xff == word / 0x100 % 0x100 && ((word >> 8) & 0xff) < 0x100)
        by (bit_vector);
    assert(word & 0xff == word % 0x100 && (word & 0xff) < 0x100) by (bit_vector);
    [
        (word >> 24) as u8,
        ((word >> 16) & 0xff) as u8,
        ((word >> 8) & 0xff) as u8,
        (word & 0xff) as u8,
    ]
}

/// The parent of two nodes.
pub fn compress_pair(left: &u256, right: &u256) -> (node: u256)
    ensures
        node@ == sha256_compress_pair(left@, right@),
        node == u256::of_bytes(sha256_compress_pair(left@, right@)),
{
    broadcast use Blob::lemma_len;

    let mut block = [0u8;64];
    let mut i: usize = 0;
    while i < 32
        invariant
            i <= 32,
            left@.len() == 32,
            right@.len() == 32,
            forall|j: int| 0 <= j < i ==> block@[j] == left@[j],
            forall|j: int| 0 <= j < i ==> block@[32 + j] == right@[j],
        decreases 32 - i,
    {
        block[i] = left.get(i);
        block[i + 32] = right.get(i);
        i += 1;
    }
    assert(block@ =~= left@ + right@);
    let state = compress_block(initial_state(), block);
    let ghost expected = big_endian_bytes(state@);
    let mut bytes = [0u8;32];
    let mut w: usize = 0;
    while w < 8
        invariant
            w <= 8,
            expected == big_endian_bytes(state@),
            forall|j: int| 0 <= j < 4 * w ==> bytes@[j] == expected[j],
        decreases 8 - w,
    {
        let four = word_bytes(state[w]);
        bytes[4 * w] = four[0];
        bytes[4 * w + 1] = four[1];
        bytes[4 * w + 2] = four[2];
        bytes[4 * w + 3] = four[3];
        assert forall|j: int| 0 <= j < 4 * (w + 1) implies bytes@[j] == expected[j] by {
            if j >= 4 * w {
                assert(j / 4 == w as int);
                assert(four@[j % 4] == byte_of_word(state@[w as int], j % 4));
            }
        }
        w += 1;
    }
    assert(bytes@ =~= expected);
    let node = Blob::new(bytes);
    proof {
        node.lemma_is_of_bytes();
    }
    node
}

impl MerkleHash for Blob<32> {
    /// An empty leaf is 32 zero bytes.
    open spec fn uncommitted_spec() -> Self {
        Blob::<32>::of_bytes(Seq::new(32, |i: int| 0u8))
    }

    /// The parent is the compression of the pair, at every level alike.
    open spec fn combine_spec(left: Self, right: Self, level: nat) -> Self {
        Blob::<32>::of_bytes(sha256_compress_pair(left@, right@))
    }

    fn uncommitted() -> (node: Self) {
        Blob::default()
    }

    fn combine(left: &Self, right: &Self, level: usize) -> (node: Self) {
        compress_pair(left, right)
    }
}

} // verus!
