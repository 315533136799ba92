//! Positions in the trie: the bits of a path from the root, and its depth.

use crate::trie::{key_bit, key_bits, KeyPath, MAX_DEPTH};
use vstd::prelude::*;

verus! {

/// A position in the trie: the first `depth` bits of a key path, the path that leads to it
/// from the root. Its depth is at most the depth of the trie.
#[derive(Clone, Copy, Debug, PartialEq, Eq)]
pub struct TriePosition {
    path: KeyPath,
    depth: u16,
}

impl View for TriePosition {
    type V = Seq<bool>;

    closed spec fn view(&self) -> Seq<bool> {
        key_bits(self.path).take(self.depth as int)
    }
}

impl TriePosition {
    #[verifier::type_invariant]
    spec fn well_formed(self) -> bool {
        self.depth <= MAX_DEPTH
    }

    /// The position of the root.
    pub fn new() -> (r: TriePosition)
        ensures
            r@ == Seq::<bool>::empty(),
    {
        let r = TriePosition { path: [0u8; 32], depth: 0 };
        assert(r@ =~= Seq::<bool>::empty());
        r
    }

    /// The position at `depth` on the path of `path`.
    pub fn from_path_and_depth(path: KeyPath, depth: u16) -> (r: TriePosition)
        requires
            depth <= MAX_DEPTH,
        ensures
            r@ == key_bits(path).take(depth as int),
    {
        TriePosition { path, depth }
    }

    /// The depth of this position.
    pub fn depth(&self) -> (r: u16)
        ensures
            r == self@.len(),
            r <= MAX_DEPTH,
    {
        proof {
            use_type_invariant(self);
        }
        self.depth
    }

    /// The key path whose first bits lead to this position; its bits past the depth carry
    /// no meaning.
    pub fn raw_path(&self) -> (r: KeyPath)
        ensures
            key_bits(r).take(self@.len() as int) == self@,
    {
        proof {
            use_type_invariant(self);
            assert(key_bits(self.path).take(self@.len() as int) =~= self@);
        }
        self.path
    }

    /// The bits of the path to this position.
    pub fn path(&self) -> (r: Vec<bool>)
        ensures
            r@ == self@,
    {
        proof {
            use_type_invariant(self);
        }
        let mut bits: Vec<bool> = Vec::new();
        let mut i: usize = 0;
        while i < self.depth as usize
            invariant
                self.depth <= MAX_DEPTH,
                i <= self.depth,
                bits@ == key_bits(self.path).take(i as int),
            decreases self.depth - i,
        {
            bits.push(key_bit(&self.path, i));
            i = i + 1;
            assert(bits@ =~= key_bits(self.path).take(i as int));
        }
        bits
    }
}

} // verus!
