//! Splicing update operations into the leaves of a sub-trie, and building the root of a
//! sub-trie from its leaves.

use crate::bits::key_lt;
use crate::hasher::NodeHasher;
use crate::trie::{
    bit_at, key_bit, terminator, terminator_node, InternalData, KeyPath, LeafData, Node,
    ValueHash, MAX_DEPTH,
};
use vstd::prelude::*;

verus! {

/// An update operation on a key: `Some` writes a value hash, `None` deletes the key.
pub type KeyOp = (KeyPath, Option<ValueHash>);

/// The leaves that the writing operations of `ops` leave, in order.
pub open spec fn written_leaves(ops: Seq<KeyOp>) -> Seq<LeafData>
    decreases ops.len(),
{
    if ops.len() == 0 {
        Seq::empty()
    } else {
        let rest = written_leaves(ops.drop_last());
        match ops.last().1 {
            Some(v) => rest.push(LeafData { key_path: ops.last().0, value_hash: v }),
            None => rest,
        }
    }
}

/// The number of operations of `ops` on keys less than `key`.
pub open spec fn count_below(ops: Seq<KeyOp>, key: KeyPath) -> nat
    decreases ops.len(),
{
    if ops.len() == 0 {
        0
    } else {
        count_below(ops.drop_last(), key) + if key_lt(ops.last().0, key) {
            1nat
        } else {
            0nat
        }
    }
}

/// Whether some operation of `ops` is on `key`.
pub open spec fn touches(ops: Seq<KeyOp>, key: KeyPath) -> bool {
    exists|i: int| 0 <= i < ops.len() && #[trigger] ops[i].0 == key
}

/// The leaves of a sub-trie after `ops`, given its one leaf before them (if any): the
/// written leaves, and the old leaf where no operation is on its key, put in its place among
/// the operations.
pub open spec fn spliced(leaf: Option<LeafData>, ops: Seq<KeyOp>) -> Seq<LeafData> {
    match leaf {
        Some(l) => if touches(ops, l.key_path) {
            written_leaves(ops)
        } else {
            let k = count_below(ops, l.key_path) as int;
            written_leaves(ops.take(k)) + seq![l] + written_leaves(ops.skip(k))
        },
        None => written_leaves(ops),
    }
}

/// The leaves of `leaves` whose key has the given bit at `depth`, in order.
pub open spec fn with_bit(leaves: Seq<LeafData>, depth: int, bit: bool) -> Seq<LeafData>
    decreases leaves.len(),
{
    if leaves.len() == 0 {
        Seq::empty()
    } else {
        let rest = with_bit(leaves.drop_last(), depth, bit);
        if bit_at(leaves.last().key_path@, depth) == bit {
            rest.push(leaves.last())
        } else {
            rest
        }
    }
}

/// The root of the sub-trie at `depth` that holds `leaves`: the terminator when it is
/// empty, the leaf's own node when it holds one leaf, and otherwise the internal node over
/// the sub-tries of the keys with bit `depth` clear and set. Past the last bit, where
/// distinct keys never meet, two or more leaves give the internal node over the first two.
pub open spec fn subtrie_root<H: NodeHasher>(depth: int, leaves: Seq<LeafData>) -> Node
    decreases MAX_DEPTH - depth,
{
    if leaves.len() == 0 {
        terminator_node()
    } else if leaves.len() == 1 {
        H::leaf_node(leaves[0])
    } else if depth >= MAX_DEPTH || depth < 0 {
        H::internal_node(H::leaf_node(leaves[0]), H::leaf_node(leaves[1]))
    } else {
        H::internal_node(
            subtrie_root::<H>(depth + 1, with_bit(leaves, depth, false)),
            subtrie_root::<H>(depth + 1, with_bit(leaves, depth, true)),
        )
    }
}

/// The leaves that `ops` leave in order, from operation `lo` up to `hi`, pushed onto `out`.
fn push_written(out: &mut Vec<LeafData>, ops: &[KeyOp], lo: usize, hi: usize)
    requires
        lo <= hi <= ops.len(),
    ensures
        final(out)@ == old(out)@ + written_leaves(ops@.subrange(lo as int, hi as int)),
{
    let mut i: usize = lo;
    while i < hi
        invariant
            lo <= i <= hi <= ops.len(),
            out@ == old(out)@ + written_leaves(ops@.subrange(lo as int, i as int)),
        decreases hi - i,
    {
        let ghost before = out@;
        assert(ops@.subrange(lo as int, i + 1).drop_last() =~= ops@.subrange(lo as int, i as int));
        match ops[i].1 {
            Some(v) => {
                out.push(LeafData { key_path: ops[i].0, value_hash: v });
            },
            None => {},
        }
        i = i + 1;
        assert(out@ =~= old(out)@ + written_leaves(ops@.subrange(lo as int, i as int)));
    }
}

/// Splice `ops`, ascending by key, with the one leaf that a sub-trie held before them: the
/// leaves of the sub-trie after the operations, ascending by key.
pub fn leaf_ops_spliced(leaf: Option<LeafData>, ops: &[KeyOp]) -> (r: Vec<LeafData>)
    ensures
        r@ == spliced(leaf, ops@),
{
    let mut out: Vec<LeafData> = Vec::new();
    match leaf {
        None => {
            push_written(&mut out, ops, 0, ops.len());
            assert(ops@.subrange(0, ops.len() as int) =~= ops@);
        },
        Some(l) => {
            let mut below: usize = 0;
            let mut found = false;
            let mut i: usize = 0;
            while i < ops.len()
                invariant
                    i <= ops.len(),
                    below <= i,
                    below == count_below(ops@.take(i as int), l.key_path),
                    found == exists|j: int| 0 <= j < i && #[trigger] ops@[j].0 == l.key_path,
                decreases ops.len() - i,
            {
                assert(ops@.take(i + 1).drop_last() =~= ops@.take(i as int));
                if crate::bits::key_less(&ops[i].0, &l.key_path) {
                    below = below + 1;
                }
                if crate::trie::nodes_equal(&ops[i].0, &l.key_path) {
                    found = true;
                }
                i = i + 1;
            }
            assert(ops@.take(ops.len() as int) =~= ops@);
            if found {
                push_written(&mut out, ops, 0, ops.len());
                assert(ops@.subrange(0, ops.len() as int) =~= ops@);
            } else {
                push_written(&mut out, ops, 0, below);
                out.push(l);
                push_written(&mut out, ops, below, ops.len());
                assert(ops@.subrange(0, below as int) =~= ops@.take(below as int));
                assert(ops@.subrange(below as int, ops.len() as int) =~= ops@.skip(below as int));
                assert(out@ =~= spliced(leaf, ops@));
            }
        },
    }
    out
}

/// Split `leaves` by the bit of their keys at `depth`.
fn split_by_bit(leaves: &Vec<LeafData>, depth: usize) -> (r: (Vec<LeafData>, Vec<LeafData>))
    requires
        depth < MAX_DEPTH,
    ensures
        r.0@ == with_bit(leaves@, depth as int, false),
        r.1@ == with_bit(leaves@, depth as int, true),
{
    let mut zeros: Vec<LeafData> = Vec::new();
    let mut ones: Vec<LeafData> = Vec::new();
    let mut i: usize = 0;
    while i < leaves.len()
        invariant
            depth < MAX_DEPTH,
            i <= leaves.len(),
            zeros@ == with_bit(leaves@.take(i as int), depth as int, false),
            ones@ == with_bit(leaves@.take(i as int), depth as int, true),
        decreases leaves.len() - i,
    {
        assert(leaves@.take(i + 1).drop_last() =~= leaves@.take(i as int));
        let leaf = leaves[i];
        if key_bit(&leaf.key_path, depth) {
            ones.push(leaf);
        } else {
            zeros.push(leaf);
        }
        i = i + 1;
    }
    assert(leaves@.take(leaves.len() as int) =~= leaves@);
    (zeros, ones)
}

/// Build the root of the sub-trie at depth `skip` that holds `leaves`.
pub fn build_trie<H: NodeHasher>(skip: usize, leaves: &Vec<LeafData>) -> (r: Node)
    ensures
        r == subtrie_root::<H>(skip as int, leaves@),
    decreases MAX_DEPTH - skip,
{
    if leaves.len() == 0 {
        terminator()
    } else if leaves.len() == 1 {
        H::hash_leaf(&leaves[0])
    } else if skip >= MAX_DEPTH {
        let left = H::hash_leaf(&leaves[0]);
        let right = H::hash_leaf(&leaves[1]);
        H::hash_internal(&InternalData { left, right })
    } else {
        let (zeros, ones) = split_by_bit(leaves, skip);
        let left = build_trie::<H>(skip + 1, &zeros);
        let right = build_trie::<H>(skip + 1, &ones);
        H::hash_internal(&InternalData { left, right })
    }
}

} // verus!
