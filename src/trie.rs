//! Basic entities of the binary trie: nodes, key paths, leaves and node kinds.

use bitvec::order::Msb0;
use bitvec::view::BitView;
use vstd::prelude::*;

verus! {

/// A node of the trie: a 32-byte digest.
pub type Node = [u8; 32];

/// The path of a key through the trie: 256 bits, most significant bit of the first byte first.
pub type KeyPath = [u8; 32];

/// The hash of a value stored under a key.
pub type ValueHash = [u8; 32];

/// The number of bits of a key path, and so the maximal depth of the trie.
pub const MAX_DEPTH: usize = 256;

/// Whether a node is the terminator: the all-zero node, which stands for an empty sub-trie.
pub open spec fn is_terminator(node: Node) -> bool {
    forall|i: int| 0 <= i < 32 ==> node[i] == 0u8
}

/// The terminator node, as a spec value.
pub open spec fn terminator_node() -> Node {
    choose|n: Node| is_terminator(n)
}

/// The terminator is the one all-zero node.
pub proof fn lemma_terminator_unique(node: Node)
    requires
        is_terminator(node),
    ensures
        node == terminator_node(),
{
    let c = terminator_node();
    assert(c =~= node);
}

/// The terminator node.
pub fn terminator() -> (r: Node)
    ensures
        is_terminator(r),
        r == terminator_node(),
{
    let r = [0u8; 32];
    proof {
        assert(is_terminator(r));
        let c = terminator_node();
        assert(c =~= r);
    }
    r
}

/// The data of a leaf: the key path and the hash of the value stored there.
#[derive(Clone, Copy, Debug, PartialEq, Eq)]
pub struct LeafData {
    pub key_path: KeyPath,
    pub value_hash: ValueHash,
}

/// The data of an internal node: its two children.
#[derive(Clone, Copy, Debug, PartialEq, Eq)]
pub struct InternalData {
    pub left: Node,
    pub right: Node,
}

/// The three kinds of nodes that a hasher tells apart.
#[derive(Clone, Copy, Debug, PartialEq, Eq, Structural)]
pub enum NodeKind {
    Terminator,
    Leaf,
    Internal,
}

/// Bit `i` of a byte string, most significant bit of each byte first.
pub open spec fn bit_at(bytes: Seq<u8>, i: int) -> bool {
    (bytes[i / 8] >> ((7 - i % 8) as u8)) & 1u8 == 1u8
}

/// The 256 bits of a key path, in order.
pub open spec fn key_bits(key: KeyPath) -> Seq<bool> {
    Seq::new(MAX_DEPTH as nat, |i: int| bit_at(key@, i))
}

/// Relies on bitvec's `BitView::view_bits` with `Msb0` ordering, indexed at `i`: the bits of
/// each byte are numbered from the most significant one down.
#[verifier::external_body]
pub(crate) fn key_bit(key: &KeyPath, i: usize) -> (r: bool)
    requires
        i < MAX_DEPTH,
    ensures
        r == bit_at(key@, i as int),
{
    key.view_bits::<Msb0>()[i]
}

/// Whether two nodes hold the same bytes.
pub fn nodes_equal(a: &Node, b: &Node) -> (r: bool)
    ensures
        r == (*a == *b),
{
    let mut i: usize = 0;
    while i < 32
        invariant
            0 <= i <= 32,
            forall|j: int| 0 <= j < i ==> a[j] == b[j],
        decreases 32 - i,
    {
        if a[i] != b[i] {
            return false;
        }
        i = i + 1;
    }
    assert(*a =~= *b);
    true
}

/// Whether two leaves carry the same key path and value hash.
pub fn leaves_equal(a: &LeafData, b: &LeafData) -> (r: bool)
    ensures
        r == (*a == *b),
{
    nodes_equal(&a.key_path, &b.key_path) && nodes_equal(&a.value_hash, &b.value_hash)
}

} // verus!
