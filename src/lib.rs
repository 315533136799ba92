//! Verified proof core of a binary Merkle trie: path proofs, their verification, and the
//! verification of batched updates against a previous root.

pub mod bits;
pub mod hasher;
pub mod path_proof;
pub mod round_trip;
pub mod sync;
pub mod theorems;
pub mod trie;
pub mod trie_pos;
pub mod update;
