//! The hash oracle of the trie, and a hasher built on SHA-256.

use crate::trie::{is_terminator, terminator, InternalData, LeafData, Node, NodeKind};
use sha2::Digest;
use vstd::prelude::*;

verus! {

/// A hash oracle for the nodes of the trie.
///
/// The spec functions name what the oracle computes; the executable functions compute it.
/// The oracle is deterministic: each result is a function of the arguments alone.
pub trait NodeHasher {
    /// The node of a leaf.
    spec fn leaf_node(leaf: LeafData) -> Node;

    /// The node of an internal node with the given children.
    spec fn internal_node(left: Node, right: Node) -> Node;

    /// The kind of a node.
    spec fn kind_of(node: Node) -> NodeKind;

    /// Exactly the terminator is of the terminator kind.
    proof fn lemma_terminator_kind(node: Node)
        ensures
            (Self::kind_of(node) == NodeKind::Terminator) == is_terminator(node),
    ;

    /// Hash a leaf.
    fn hash_leaf(data: &LeafData) -> (r: Node)
        ensures
            r == Self::leaf_node(*data),
    ;

    /// Hash an internal node.
    fn hash_internal(data: &InternalData) -> (r: Node)
        ensures
            r == Self::internal_node(data.left, data.right),
    ;

    /// Tell the kind of a node.
    fn node_kind(node: &Node) -> (r: NodeKind)
        ensures
            r == Self::kind_of(*node),
    ;
}

/// The SHA-256 digest of a byte string.
pub uninterp spec fn sha256_of(data: Seq<u8>) -> Seq<u8>;

/// Relies on sha2's `Sha256::digest`: the 32-byte SHA-256 digest of the input, which
/// depends on the input alone.
#[verifier::external_body]
fn sha256(data: &[u8]) -> (r: [u8; 32])
    ensures
        r@ == sha256_of(data@),
{
    sha2::Sha256::digest(data).into()
}

/// The digest of two nodes written one after the other, with its first bit set for a leaf
/// and cleared for an internal node.
pub open spec fn tagged_digest(a: Seq<u8>, b: Seq<u8>, leaf: bool) -> Seq<u8> {
    let d = sha256_of(a + b);
    d.update(0, if leaf { d[0] | 0x80u8 } else { d[0] & 0x7fu8 })
}

/// A node hasher over SHA-256 that marks the kind of a node in its most significant bit:
/// set for a leaf, clear for an internal node; the terminator is the all-zero node.
pub struct Sha2Hasher;

/// Concatenate two 32-byte strings.
fn concat32(a: &[u8; 32], b: &[u8; 32]) -> (r: Vec<u8>)
    ensures
        r@ == a@ + b@,
{
    let mut r: Vec<u8> = Vec::with_capacity(64);
    let mut i: usize = 0;
    while i < 32
        invariant
            0 <= i <= 32,
            r@ == a@.subrange(0, i as int),
        decreases 32 - i,
    {
        r.push(a[i]);
        assert(a@.subrange(0, i + 1) =~= a@.subrange(0, i as int).push(a[i as int]));
        i = i + 1;
    }
    let mut j: usize = 0;
    while j < 32
        invariant
            0 <= j <= 32,
            r@ == a@ + b@.subrange(0, j as int),
        decreases 32 - j,
    {
        r.push(b[j]);
        assert(b@.subrange(0, j + 1) =~= b@.subrange(0, j as int).push(b[j as int]));
        j = j + 1;
    }
    assert(a@.subrange(0, 32) =~= a@);
    assert(b@.subrange(0, 32) =~= b@);
    r
}

/// Hash two nodes and tag the result's first bit.
fn tagged_hash(a: &[u8; 32], b: &[u8; 32], leaf: bool) -> (r: Node)
    ensures
        r@ == tagged_digest(a@, b@, leaf),
{
    let bytes = concat32(a, b);
    let mut h = sha256(bytes.as_slice());
    let first = if leaf { h[0] | 0x80u8 } else { h[0] & 0x7fu8 };
    h[0] = first;
    assert(h@ =~= tagged_digest(a@, b@, leaf));
    h
}

impl NodeHasher for Sha2Hasher {
    open spec fn leaf_node(leaf: LeafData) -> Node {
        choose|n: Node| #[trigger] n@ == tagged_digest(leaf.key_path@, leaf.value_hash@, true)
    }

    open spec fn internal_node(left: Node, right: Node) -> Node {
        choose|n: Node| #[trigger] n@ == tagged_digest(left@, right@, false)
    }

    open spec fn kind_of(node: Node) -> NodeKind {
        if node[0] >> 7u8 == 1u8 {
            NodeKind::Leaf
        } else if is_terminator(node) {
            NodeKind::Terminator
        } else {
            NodeKind::Internal
        }
    }

    proof fn lemma_terminator_kind(node: Node) {
        if is_terminator(node) {
            assert(node[0] == 0u8);
            assert(0u8 >> 7u8 == 0u8) by (bit_vector);
        }
    }

    fn hash_leaf(data: &LeafData) -> (r: Node) {
        let r = tagged_hash(&data.key_path, &data.value_hash, true);
        proof {
            let c = Self::leaf_node(*data);
            assert(c@ == r@);
            assert(c =~= r);
        }
        r
    }

    fn hash_internal(data: &InternalData) -> (r: Node) {
        let r = tagged_hash(&data.left, &data.right, false);
        proof {
            let c = Self::internal_node(data.left, data.right);
            assert(c@ == r@);
            assert(c =~= r);
        }
        r
    }

    fn node_kind(node: &Node) -> (r: NodeKind) {
        let t = terminator();
        proof {
            if is_terminator(*node) {
                assert(*node =~= t);
            }
        }
        if node[0] >> 7u8 == 1u8 {
            NodeKind::Leaf
        } else if crate::trie::nodes_equal(node, &t) {
            NodeKind::Terminator
        } else {
            NodeKind::Internal
        }
    }
}

} // verus!
