//! Interchange representation of wallet state: fixed-width binary values, a
//! streaming binary decoder, a document codec with its envelopes, and
//! incremental Merkle trees with their witnesses.
//!
//! - `blob`, `hex_text`: values of exactly `N` bytes and their canonical
//!   hexadecimal text.
//! - `parser`: a cursor over bytes with typed reads, among them the
//!   compact size.
//! - `document`, `codec`, `indexed`, `any_order`: the document model, the
//!   contract by which every entity is written as a document and read
//!   back, the order of children under a predicate that repeats, and the
//!   proof that nothing read depends on the order of the assertions.
//! - `wire`, `envelope`: leaves as CBOR values and bytes, and documents as
//!   Gordian envelopes.
//! - `merkle_tree`, `witness`, `merkle_root`, `witness_root`: the
//!   append-only tree, the witness of one of its leaves, and the proofs
//!   that their roots are the root over the leaves that were appended.
//! - `sha256_compress`, `sprout_witness`, `tree_codec`, `hash_list`: the
//!   tree of the first shielded protocol and its documents.
//! - the entities: `address`, `protocol_address`, `sapling`, `transaction`,
//!   `zewif_wallet`, `zewif_impl`, with `amount`, `block_height`,
//!   `position` and `receiver_type`.

pub mod address;
pub mod amount;
pub mod any_order;
pub mod blob;
pub mod block_height;
pub mod codec;
pub mod document;
pub mod envelope;
pub mod hash_list;
pub mod hex_text;
pub mod indexed;
pub mod merkle_root;
pub mod merkle_tree;
pub mod parser;
pub mod position;
pub mod protocol_address;
pub mod receiver_type;
pub mod sapling;
pub mod sha256_compress;
pub mod sprout_witness;
pub mod transaction;
pub mod tree_codec;
pub mod wire;
pub mod witness;
pub mod witness_root;
pub mod zewif_impl;
pub mod zewif_wallet;

pub use address::Address;
pub use amount::Amount;
pub use blob::{u256, Blob, Blob20, Blob32, Blob64, HexParseError};
pub use block_height::BlockHeight;
pub use codec::{DocumentCodec, LeafCodec};
pub use document::{Assertion, DecodeError, DecodeFailure, Document, Leaf, Value};
pub use envelope::{from_envelope, to_envelope, EnvelopeDecodeError, EnvelopeError};
pub use hex_text::HexDecodeError;
pub use indexed::Indexed;
pub use merkle_tree::{IncrementalMerkleTree, MerkleHash, MerklePath, TreeError};
pub use parser::{ParseError, ParseFailure, Parser};
pub use position::Position;
pub use protocol_address::ProtocolAddress;
pub use receiver_type::ReceiverType;
pub use sha256_compress::SHA256Compress;
pub use sprout_witness::{SproutTree, SproutWitness};
pub use transaction::{Transaction, TxId};
pub use witness::IncrementalWitness;
pub use zewif_impl::{Zewif, ARID};
pub use zewif_wallet::{Network, ZewifWallet};
