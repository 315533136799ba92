//! Laws of path verification and of batched updates, stated over the models that the
//! executable functions are proved to follow.

use crate::bits::{is_prefix, key_lt, strictly_before};
use crate::hasher::NodeHasher;
use crate::path_proof::{
    batch_error, compact, frontier, hash_step, hash_up, ops_error, path_check, path_root,
    path_sub_root, reversed, up_layers, update_error, updated_root, PathUpdate,
    VerifyUpdateError,
};
use crate::trie::{
    bit_at, is_terminator, key_bits, lemma_terminator_unique, terminator_node, KeyPath,
    LeafData, Node, NodeKind, MAX_DEPTH,
};
use crate::update::{spliced, subtrie_root, with_bit};
use vstd::prelude::*;

verus! {

/// Compaction: a terminator beside a terminator combines into the terminator, and a leaf
/// beside a terminator, on either side, combines into that leaf itself.
pub proof fn lemma_compaction<H: NodeHasher>(cur: Node, sibling: Node, bit: bool)
    ensures
        is_terminator(cur) && is_terminator(sibling) ==> compact::<H>(cur, sibling, bit)
            == terminator_node(),
        H::kind_of(cur) == NodeKind::Leaf && is_terminator(sibling) ==> compact::<H>(
            cur,
            sibling,
            bit,
        ) == cur,
        is_terminator(cur) && H::kind_of(sibling) == NodeKind::Leaf ==> compact::<H>(
            cur,
            sibling,
            bit,
        ) == sibling,
{
    H::lemma_terminator_kind(cur);
    H::lemma_terminator_kind(sibling);
    if is_terminator(cur) {
        lemma_terminator_unique(cur);
    }
}

/// Every path of the batch is anchored at `prev_root`, carries operations, and its
/// operations are in order and in scope.
pub open spec fn paths_sound_but_order(prev_root: Node, paths: Seq<PathUpdate>) -> bool {
    forall|k: int|
        0 <= k < paths.len() ==> {
            &&& (#[trigger] paths[k]).inner@.root == prev_root
            &&& paths[k].ops@.len() > 0
            &&& ops_error(paths[k].ops@, paths[k].inner@.prefix, paths[k].ops@.len()) is None
        }
}

proof fn lemma_order_errors_only(prev_root: Node, paths: Seq<PathUpdate>, i: int, n: nat)
    requires
        paths_sound_but_order(prev_root, paths),
        0 < i < paths.len(),
        !strictly_before(paths[i - 1].inner@.prefix, paths[i].inner@.prefix),
        n <= paths.len(),
    ensures
        batch_error(prev_root, paths, n) is None || batch_error(prev_root, paths, n) == Some(
            VerifyUpdateError::PathsOutOfOrder,
        ),
        n > i ==> batch_error(prev_root, paths, n) is Some,
    decreases n,
{
    if n > 0 {
        lemma_order_errors_only(prev_root, paths, i, (n - 1) as nat);
        let k = n - 1;
        assert(paths[k].inner@.root == prev_root);
    }
}

/// Ordering of paths: in a batch whose paths are otherwise sound, two neighbouring paths
/// whose proven prefixes are not strictly ascending make the batch fail with
/// `PathsOutOfOrder`.
pub proof fn lemma_paths_out_of_order(prev_root: Node, paths: Seq<PathUpdate>, i: int)
    requires
        paths_sound_but_order(prev_root, paths),
        0 < i < paths.len(),
        !strictly_before(paths[i - 1].inner@.prefix, paths[i].inner@.prefix),
    ensures
        update_error(prev_root, paths) == Some(VerifyUpdateError::PathsOutOfOrder),
{
    lemma_order_errors_only(prev_root, paths, i, paths.len());
}

/// All paths of the batch are anchored at `prev_root`, ascending and carry operations, and
/// every operation lies under the prefix of its path.
pub open spec fn paths_sound_but_op_order(prev_root: Node, paths: Seq<PathUpdate>) -> bool {
    &&& forall|k: int|
        0 <= k < paths.len() ==> {
            &&& (#[trigger] paths[k]).inner@.root == prev_root
            &&& paths[k].ops@.len() > 0
            &&& forall|m: int|
                0 <= m < paths[k].ops@.len() ==> is_prefix(
                    paths[k].inner@.prefix,
                    key_bits(#[trigger] paths[k].ops@[m].0),
                )
        }
    &&& forall|k: int|
        0 < k < paths.len() ==> strictly_before(
            paths[k - 1].inner@.prefix,
            (#[trigger] paths[k]).inner@.prefix,
        )
}

proof fn lemma_op_order_errors_in_path(u: PathUpdate, j: int, n: nat)
    requires
        forall|m: int|
            0 <= m < u.ops@.len() ==> is_prefix(u.inner@.prefix, key_bits(#[trigger] u.ops@[m].0)),
        0 <= j < u.ops@.len(),
        j > 0 ==> !key_lt(u.ops@[j - 1].0, u.ops@[j].0),
        n <= u.ops@.len(),
    ensures
        ops_error(u.ops@, u.inner@.prefix, n) is None || ops_error(u.ops@, u.inner@.prefix, n)
            == Some(VerifyUpdateError::OpsOutOfOrder),
        n > j > 0 ==> ops_error(u.ops@, u.inner@.prefix, n) is Some,
    decreases n,
{
    if n > 0 {
        lemma_op_order_errors_in_path(u, j, (n - 1) as nat);
        let m = n - 1;
        assert(is_prefix(u.inner@.prefix, key_bits(u.ops@[m].0)));
    }
}

proof fn lemma_op_order_errors(prev_root: Node, paths: Seq<PathUpdate>, p: int, j: int, n: nat)
    requires
        paths_sound_but_op_order(prev_root, paths),
        0 <= p < paths.len(),
        0 < j < paths[p].ops@.len(),
        !key_lt(paths[p].ops@[j - 1].0, paths[p].ops@[j].0),
        n <= paths.len(),
    ensures
        batch_error(prev_root, paths, n) is None || batch_error(prev_root, paths, n) == Some(
            VerifyUpdateError::OpsOutOfOrder,
        ),
        n > p ==> batch_error(prev_root, paths, n) is Some,
    decreases n,
{
    if n > 0 {
        lemma_op_order_errors(prev_root, paths, p, j, (n - 1) as nat);
        let k = n - 1;
        let u = paths[k];
        assert(u.inner@.root == prev_root);
        if k > 0 {
            assert(strictly_before(paths[k - 1].inner@.prefix, paths[k].inner@.prefix));
        }
        if k == p {
            lemma_op_order_errors_in_path(u, j, u.ops@.len());
        } else {
            lemma_op_order_errors_in_path(u, 0, u.ops@.len());
        }
    }
}

/// Ordering of operations: in a batch that is otherwise sound, a path with two neighbouring
/// operations whose keys are not strictly ascending makes the batch fail with
/// `OpsOutOfOrder`.
pub proof fn lemma_ops_out_of_order(prev_root: Node, paths: Seq<PathUpdate>, p: int, j: int)
    requires
        paths_sound_but_op_order(prev_root, paths),
        0 <= p < paths.len(),
        0 < j < paths[p].ops@.len(),
        !key_lt(paths[p].ops@[j - 1].0, paths[p].ops@[j].0),
    ensures
        update_error(prev_root, paths) == Some(VerifyUpdateError::OpsOutOfOrder),
{
    lemma_op_order_errors(prev_root, paths, p, j, paths.len());
}

/// Two batches whose paths state the same verified paths and carry the same operations.
pub open spec fn same_batch(a: Seq<PathUpdate>, b: Seq<PathUpdate>) -> bool {
    &&& a.len() == b.len()
    &&& forall|i: int|
        0 <= i < a.len() ==> (#[trigger] a[i]).inner@ == b[i].inner@ && a[i].ops@ == b[i].ops@
}

proof fn lemma_same_batch_steps<H: NodeHasher>(
    prev_root: Node,
    a: Seq<PathUpdate>,
    b: Seq<PathUpdate>,
    n: nat,
)
    requires
        same_batch(a, b),
        n <= a.len(),
    ensures
        batch_error(prev_root, a, n) == batch_error(prev_root, b, n),
        frontier::<H>(a, n) == frontier::<H>(b, n),
    decreases n,
{
    if n > 0 {
        lemma_same_batch_steps::<H>(prev_root, a, b, (n - 1) as nat);
        let k = n - 1;
        assert(a[k].inner@ == b[k].inner@);
        if k > 0 {
            assert(a[k - 1].inner@ == b[k - 1].inner@);
        }
        if k + 1 < a.len() {
            assert(a[k + 1].inner@ == b[k + 1].inner@);
        }
        assert(path_check(prev_root, a, k) == path_check(prev_root, b, k));
        assert(up_layers(a, k) == up_layers(b, k));
        assert(path_sub_root::<H>(a[k]) == path_sub_root::<H>(b[k]));
    }
}

/// Determinism: the outcome of a batch update is a function of the previous root, of what
/// the verified paths state and of the operations, under a given hasher.
pub proof fn lemma_update_deterministic<H: NodeHasher>(
    prev_root: Node,
    a: Seq<PathUpdate>,
    b: Seq<PathUpdate>,
)
    requires
        same_batch(a, b),
    ensures
        update_error(prev_root, a) == update_error(prev_root, b),
        updated_root::<H>(prev_root, a) == updated_root::<H>(prev_root, b),
{
    lemma_same_batch_steps::<H>(prev_root, a, b, a.len());
}

/// The siblings, shallowest first, that the lookup of `key` meets on its way down from
/// `depth` through the sub-trie of `leaves`.
pub open spec fn lookup_siblings<H: NodeHasher>(depth: int, leaves: Seq<LeafData>, key: KeyPath) -> Seq<
    Node,
>
    decreases MAX_DEPTH - depth,
{
    if leaves.len() <= 1 || depth >= MAX_DEPTH || depth < 0 {
        Seq::empty()
    } else {
        let b = bit_at(key@, depth);
        seq![subtrie_root::<H>(depth + 1, with_bit(leaves, depth, !b))] + lookup_siblings::<H>(
            depth + 1,
            with_bit(leaves, depth, b),
            key,
        )
    }
}

/// The leaves under the terminal that the lookup of `key` reaches from `depth`: none for a
/// terminator, one for a leaf.
pub open spec fn lookup_leaves(depth: int, leaves: Seq<LeafData>, key: KeyPath) -> Seq<LeafData>
    decreases MAX_DEPTH - depth,
{
    if leaves.len() <= 1 || depth >= MAX_DEPTH || depth < 0 {
        leaves
    } else {
        lookup_leaves(depth + 1, with_bit(leaves, depth, bit_at(key@, depth)), key)
    }
}

/// The node of the terminal that the lookup of `key` reaches from `depth`.
pub open spec fn lookup_terminal<H: NodeHasher>(depth: int, leaves: Seq<LeafData>, key: KeyPath) -> Node {
    subtrie_root::<H>(depth + lookup_siblings::<H>(depth, leaves, key).len(), lookup_leaves(depth, leaves, key))
}

/// Hashing up along a path, top-down: the node, the bits and the siblings from the top.
pub open spec fn fold_down<H: NodeHasher>(node: Node, path: Seq<bool>, siblings: Seq<Node>) -> Node
    decreases siblings.len(),
{
    if siblings.len() == 0 {
        node
    } else {
        hash_step::<H>(
            fold_down::<H>(node, path.drop_first(), siblings.drop_first()),
            siblings[0],
            path[0],
        )
    }
}

proof fn lemma_hash_up_depends_on_tail<H: NodeHasher>(
    node: Node,
    p1: Seq<bool>,
    s1: Seq<Node>,
    p2: Seq<bool>,
    s2: Seq<Node>,
    k: nat,
)
    requires
        k <= p1.len(),
        k <= p2.len(),
        k <= s1.len(),
        k <= s2.len(),
        forall|j: int| p1.len() - k <= j < p1.len() ==> #[trigger] p1[j] == p2[j + p2.len() - p1.len()],
        forall|i: int| 0 <= i < k ==> s1[i] == s2[i],
    ensures
        hash_up::<H>(node, p1, s1, k) == hash_up::<H>(node, p2, s2, k),
    decreases k,
{
    if k > 0 {
        lemma_hash_up_depends_on_tail::<H>(node, p1, s1, p2, s2, (k - 1) as nat);
        assert(p1[p1.len() - k] == p2[p2.len() - k]);
    }
}

proof fn lemma_bottom_up_is_top_down<H: NodeHasher>(node: Node, path: Seq<bool>, siblings: Seq<Node>)
    requires
        path.len() == siblings.len(),
    ensures
        hash_up::<H>(node, path, reversed(siblings), siblings.len()) == fold_down::<H>(
            node,
            path,
            siblings,
        ),
    decreases siblings.len(),
{
    let n = siblings.len();
    if n > 0 {
        let p2 = path.drop_first();
        let s2 = siblings.drop_first();
        lemma_bottom_up_is_top_down::<H>(node, p2, s2);
        lemma_hash_up_depends_on_tail::<H>(
            node,
            path,
            reversed(siblings),
            p2,
            reversed(s2),
            (n - 1) as nat,
        );
        assert(reversed(siblings)[n - 1] == siblings[0]);
    }
}

pub(crate) proof fn lemma_lookup_descent<H: NodeHasher>(depth: int, leaves: Seq<LeafData>, key: KeyPath)
    requires
        0 <= depth <= MAX_DEPTH,
    ensures
        depth + lookup_siblings::<H>(depth, leaves, key).len() <= MAX_DEPTH,
        fold_down::<H>(
            lookup_terminal::<H>(depth, leaves, key),
            key_bits(key).subrange(depth, depth + lookup_siblings::<H>(depth, leaves, key).len()),
            lookup_siblings::<H>(depth, leaves, key),
        ) == subtrie_root::<H>(depth, leaves),
    decreases MAX_DEPTH - depth,
{
    if leaves.len() <= 1 || depth >= MAX_DEPTH {
    } else {
        let b = bit_at(key@, depth);
        let sub = with_bit(leaves, depth, b);
        lemma_lookup_descent::<H>(depth + 1, sub, key);
        let sibs = lookup_siblings::<H>(depth, leaves, key);
        let rest = lookup_siblings::<H>(depth + 1, sub, key);
        let n = sibs.len();
        assert(sibs.drop_first() =~= rest);
        let bits = key_bits(key).subrange(depth, depth + n);
        assert(bits.drop_first() =~= key_bits(key).subrange(depth + 1, depth + 1 + rest.len()));
        assert(bits[0] == b);
        assert(lookup_terminal::<H>(depth, leaves, key) == lookup_terminal::<H>(depth + 1, sub, key));
    }
}

/// Soundness of path proofs: the proof that an honest lookup of `key` produces in the trie
/// of `leaves` (its terminal node and the siblings it meets) hashes up, along the first bits
/// of `key`, to the root of that trie, and it has no more siblings than the trie has levels.
pub proof fn lemma_lookup_proof_hashes_to_root<H: NodeHasher>(leaves: Seq<LeafData>, key: KeyPath)
    ensures
        lookup_siblings::<H>(0, leaves, key).len() <= MAX_DEPTH,
        path_root::<H>(
            lookup_terminal::<H>(0, leaves, key),
            key_bits(key).take(lookup_siblings::<H>(0, leaves, key).len() as int),
            reversed(lookup_siblings::<H>(0, leaves, key)),
        ) == subtrie_root::<H>(0, leaves),
{
    let sibs = lookup_siblings::<H>(0, leaves, key);
    lemma_lookup_descent::<H>(0, leaves, key);
    let path = key_bits(key).take(sibs.len() as int);
    assert(path =~= key_bits(key).subrange(0, sibs.len() as int));
    lemma_bottom_up_is_top_down::<H>(lookup_terminal::<H>(0, leaves, key), path, sibs);
}

/// The keys of `leaves` are pairwise distinct.
pub open spec fn distinct_keys(leaves: Seq<LeafData>) -> bool {
    forall|i: int, j: int|
        0 <= i < leaves.len() && 0 <= j < leaves.len() && i != j ==> (#[trigger] leaves[i]).key_path
            != (#[trigger] leaves[j]).key_path
}

/// Key `a` agrees with key `b` on its first `depth` bits.
pub open spec fn agrees_up_to(a: KeyPath, b: KeyPath, depth: int) -> bool {
    forall|i: int| 0 <= i < depth ==> #[trigger] bit_at(a@, i) == bit_at(b@, i)
}

proof fn lemma_byte_from_bits(x: u8, y: u8)
    requires
        ((x >> 0u8) & 1u8 == 1u8) == ((y >> 0u8) & 1u8 == 1u8),
        ((x >> 1u8) & 1u8 == 1u8) == ((y >> 1u8) & 1u8 == 1u8),
        ((x >> 2u8) & 1u8 == 1u8) == ((y >> 2u8) & 1u8 == 1u8),
        ((x >> 3u8) & 1u8 == 1u8) == ((y >> 3u8) & 1u8 == 1u8),
        ((x >> 4u8) & 1u8 == 1u8) == ((y >> 4u8) & 1u8 == 1u8),
        ((x >> 5u8) & 1u8 == 1u8) == ((y >> 5u8) & 1u8 == 1u8),
        ((x >> 6u8) & 1u8 == 1u8) == ((y >> 6u8) & 1u8 == 1u8),
        ((x >> 7u8) & 1u8 == 1u8) == ((y >> 7u8) & 1u8 == 1u8),
    ensures
        x == y,
{
    assert(x == y) by (bit_vector)
        requires
            ((x >> 0u8) & 1u8 == 1u8) == ((y >> 0u8) & 1u8 == 1u8),
            ((x >> 1u8) & 1u8 == 1u8) == ((y >> 1u8) & 1u8 == 1u8),
            ((x >> 2u8) & 1u8 == 1u8) == ((y >> 2u8) & 1u8 == 1u8),
            ((x >> 3u8) & 1u8 == 1u8) == ((y >> 3u8) & 1u8 == 1u8),
            ((x >> 4u8) & 1u8 == 1u8) == ((y >> 4u8) & 1u8 == 1u8),
            ((x >> 5u8) & 1u8 == 1u8) == ((y >> 5u8) & 1u8 == 1u8),
            ((x >> 6u8) & 1u8 == 1u8) == ((y >> 6u8) & 1u8 == 1u8),
            ((x >> 7u8) & 1u8 == 1u8) == ((y >> 7u8) & 1u8 == 1u8),
    ;
}

proof fn lemma_bit_of_byte(a: KeyPath, b: KeyPath, q: int, s: u8)
    requires
        agrees_up_to(a, b, MAX_DEPTH as int),
        0 <= q < 32,
        s < 8,
    ensures
        ((a[q] >> s) & 1u8 == 1u8) == ((b[q] >> s) & 1u8 == 1u8),
{
    let i = 8 * q + (7 - s);
    assert(i / 8 == q);
    assert(i % 8 == 7 - s);
    assert(bit_at(a@, i) == bit_at(b@, i));
}

/// A key is determined by its bits.
pub proof fn lemma_key_from_bits(a: KeyPath, b: KeyPath)
    requires
        agrees_up_to(a, b, MAX_DEPTH as int),
    ensures
        a == b,
{
    assert forall|q: int| 0 <= q < 32 implies a[q] == b[q] by {
        lemma_bit_of_byte(a, b, q, 0u8);
        lemma_bit_of_byte(a, b, q, 1u8);
        lemma_bit_of_byte(a, b, q, 2u8);
        lemma_bit_of_byte(a, b, q, 3u8);
        lemma_bit_of_byte(a, b, q, 4u8);
        lemma_bit_of_byte(a, b, q, 5u8);
        lemma_bit_of_byte(a, b, q, 6u8);
        lemma_bit_of_byte(a, b, q, 7u8);
        lemma_byte_from_bits(a[q], b[q]);
    }
    assert(a =~= b);
}

pub(crate) proof fn lemma_with_bit_contains(leaves: Seq<LeafData>, depth: int, bit: bool, x: LeafData)
    ensures
        with_bit(leaves, depth, bit).contains(x) == (leaves.contains(x) && bit_at(
            x.key_path@,
            depth,
        ) == bit),
    decreases leaves.len(),
{
    if leaves.len() > 0 {
        let init = leaves.drop_last();
        lemma_with_bit_contains(init, depth, bit, x);
        assert(leaves =~= init.push(leaves.last()));
        if leaves.contains(x) && x != leaves.last() {
            let k = choose|k: int| 0 <= k < leaves.len() && leaves[k] == x;
            assert(init[k] == x);
        }
        if init.contains(x) {
            let k = choose|k: int| 0 <= k < init.len() && init[k] == x;
            assert(leaves[k] == x);
        }
        assert(leaves[leaves.len() - 1] == leaves.last());
        let w = with_bit(init, depth, bit);
        if bit_at(leaves.last().key_path@, depth) == bit {
            assert(w.push(leaves.last())[w.len() as int] == leaves.last());
            if w.contains(x) {
                let k = choose|k: int| 0 <= k < w.len() && w[k] == x;
                assert(w.push(leaves.last())[k] == x);
            }
            if w.push(leaves.last()).contains(x) && x != leaves.last() {
                let k = choose|k: int| 0 <= k < w.len() + 1 && w.push(leaves.last())[k] == x;
                assert(w[k] == x);
            }
        }
    }
}

proof fn lemma_with_bit_distinct(leaves: Seq<LeafData>, depth: int, bit: bool)
    requires
        distinct_keys(leaves),
    ensures
        distinct_keys(with_bit(leaves, depth, bit)),
    decreases leaves.len(),
{
    if leaves.len() > 0 {
        let init = leaves.drop_last();
        assert(distinct_keys(init)) by {
            assert forall|i: int, j: int|
                0 <= i < init.len() && 0 <= j < init.len() && i != j implies (#[trigger] init[i]).key_path
                != (#[trigger] init[j]).key_path by {
                assert(init[i] == leaves[i] && init[j] == leaves[j]);
            }
        }
        lemma_with_bit_distinct(init, depth, bit);
        let w = with_bit(init, depth, bit);
        let last = leaves.last();
        if bit_at(last.key_path@, depth) == bit {
            let n = w.push(last);
            assert forall|i: int| 0 <= i < w.len() implies (#[trigger] w[i]).key_path != last.key_path by {
                assert(w.contains(w[i]));
                lemma_with_bit_contains(init, depth, bit, w[i]);
                let k = choose|k: int| 0 <= k < init.len() && init[k] == w[i];
                assert(leaves[k] == init[k]);
                assert(leaves[leaves.len() - 1] == last);
            }
            assert forall|i: int, j: int|
                0 <= i < n.len() && 0 <= j < n.len() && i != j implies (#[trigger] n[i]).key_path
                != (#[trigger] n[j]).key_path by {
                if i < w.len() && j < w.len() {
                    assert(n[i] == w[i] && n[j] == w[j]);
                } else if i < w.len() {
                    assert(n[i] == w[i]);
                } else {
                    assert(n[j] == w[j]);
                }
            }
        }
    }
}

proof fn lemma_lookup_leaves_sound(depth: int, leaves: Seq<LeafData>, key: KeyPath)
    requires
        0 <= depth <= MAX_DEPTH,
        distinct_keys(leaves),
        forall|x: LeafData| #[trigger] leaves.contains(x) ==> agrees_up_to(x.key_path, key, depth),
    ensures
        lookup_leaves(depth, leaves, key).len() <= 1,
        forall|x: LeafData|
            #[trigger] lookup_leaves(depth, leaves, key).contains(x) ==> leaves.contains(x),
        forall|x: LeafData|
            #[trigger] leaves.contains(x) && x.key_path == key ==> lookup_leaves(depth, leaves, key)
                == seq![x],
    decreases MAX_DEPTH - depth,
{
    let f = lookup_leaves(depth, leaves, key);
    if leaves.len() <= 1 {
        assert forall|x: LeafData| #[trigger] leaves.contains(x) && x.key_path == key implies f
            == seq![x] by {
            assert(f =~= seq![x]);
        }
    } else if depth >= MAX_DEPTH {
        assert(leaves.contains(leaves[0]) && leaves.contains(leaves[1]));
        lemma_key_from_bits(leaves[0].key_path, key);
        lemma_key_from_bits(leaves[1].key_path, key);
        assert(false);
    } else {
        let b = bit_at(key@, depth);
        let sub = with_bit(leaves, depth, b);
        lemma_with_bit_distinct(leaves, depth, b);
        assert forall|x: LeafData| #[trigger] sub.contains(x) implies agrees_up_to(
            x.key_path,
            key,
            depth + 1,
        ) by {
            lemma_with_bit_contains(leaves, depth, b, x);
        }
        lemma_lookup_leaves_sound(depth + 1, sub, key);
        assert forall|x: LeafData| #[trigger] f.contains(x) implies leaves.contains(x) by {
            lemma_with_bit_contains(leaves, depth, b, x);
        }
        assert forall|x: LeafData| #[trigger] leaves.contains(x) && x.key_path == key implies f
            == seq![x] by {
            lemma_with_bit_contains(leaves, depth, b, x);
        }
    }
}

/// Soundness of the answers of path proofs: in a trie whose keys are distinct, the honest
/// lookup of `key` ends at a terminator or at one leaf of the trie; a leaf with that key is
/// in the trie exactly when it is the terminal; and the terminal's node is the terminator or
/// the node of that leaf.
pub proof fn lemma_lookup_terminal_answers<H: NodeHasher>(leaves: Seq<LeafData>, key: KeyPath)
    requires
        distinct_keys(leaves),
    ensures
        lookup_leaves(0, leaves, key).len() <= 1,
        lookup_leaves(0, leaves, key).len() == 0 ==> lookup_terminal::<H>(0, leaves, key)
            == terminator_node(),
        lookup_leaves(0, leaves, key).len() == 1 ==> lookup_terminal::<H>(0, leaves, key)
            == H::leaf_node(lookup_leaves(0, leaves, key)[0]),
        lookup_leaves(0, leaves, key).len() == 1 ==> leaves.contains(
            lookup_leaves(0, leaves, key)[0],
        ),
        forall|l: LeafData|
            l.key_path == key ==> (leaves.contains(l) <==> lookup_leaves(0, leaves, key) == seq![
                l,
            ]),
{
    lemma_lookup_leaves_sound(0, leaves, key);
    let f = lookup_leaves(0, leaves, key);
    if f.len() == 1 {
        assert(f.contains(f[0]));
    }
    assert forall|l: LeafData| l.key_path == key implies (leaves.contains(l) <==> f == seq![l]) by {
        if f == seq![l] {
            assert(f.contains(l));
        }
    }
}

/// A batch of one path whose proven prefix is empty, so that the trie before it holds at
/// most the path's terminal leaf: the root after the batch is the root of the trie that
/// holds the operations spliced with that leaf.
pub proof fn lemma_update_at_root<H: NodeHasher>(prev_root: Node, u: PathUpdate)
    requires
        u.inner@.prefix.len() == 0,
        update_error(prev_root, seq![u]) is None,
    ensures
        updated_root::<H>(prev_root, seq![u]) == subtrie_root::<H>(
            0,
            spliced(u.inner@.terminal, u.ops@),
        ),
{
    let paths = seq![u];
    assert(paths[0] == u);
    assert(frontier::<H>(paths, 0) == Seq::<(Node, usize)>::empty());
    assert(up_layers(paths, 0) == 0);
}

/// The oracle is free of collisions: it keeps kinds apart, and equal leaf nodes come from
/// equal leaves and equal internal nodes from equal children.
pub open spec fn collision_free<H: NodeHasher>() -> bool {
    &&& crate::round_trip::kinds_separated::<H>()
    &&& forall|a: LeafData, b: LeafData|
        #[trigger] H::leaf_node(a) == #[trigger] H::leaf_node(b) ==> a == b
    &&& forall|a: Node, b: Node, c: Node, d: Node|
        #[trigger] H::internal_node(a, b) == #[trigger] H::internal_node(c, d) ==> a == c && b == d
}

proof fn lemma_fold_down_kind<H: NodeHasher>(node: Node, path: Seq<bool>, siblings: Seq<Node>)
    requires
        crate::round_trip::kinds_separated::<H>(),
        siblings.len() > 0,
    ensures
        H::kind_of(fold_down::<H>(node, path, siblings)) == NodeKind::Internal,
{
}

proof fn lemma_leaf_under_root<H: NodeHasher>(
    leaf: LeafData,
    path: Seq<bool>,
    siblings: Seq<Node>,
    depth: int,
    leaves: Seq<LeafData>,
)
    requires
        collision_free::<H>(),
        0 <= depth,
        depth + siblings.len() <= MAX_DEPTH,
        path.len() == siblings.len(),
        fold_down::<H>(H::leaf_node(leaf), path, siblings) == subtrie_root::<H>(depth, leaves),
    ensures
        leaves.contains(leaf),
    decreases siblings.len(),
{
    crate::round_trip::lemma_subtrie_kind::<H>(depth, leaves);
    if siblings.len() == 0 {
        assert(leaves.len() == 1);
        assert(leaves[0] == leaf);
    } else {
        lemma_fold_down_kind::<H>(H::leaf_node(leaf), path, siblings);
        let inner = fold_down::<H>(H::leaf_node(leaf), path.drop_first(), siblings.drop_first());
        let b = path[0];
        let sub = with_bit(leaves, depth, b);
        assert(leaves.len() >= 2);
        assert(inner == subtrie_root::<H>(depth + 1, sub));
        lemma_leaf_under_root::<H>(leaf, path.drop_first(), siblings.drop_first(), depth + 1, sub);
        lemma_with_bit_contains(leaves, depth, b, leaf);
    }
}

/// Completeness of path proofs: with an oracle free of collisions, a path that verifies
/// against the root of a trie and ends at a leaf proves that the trie holds that leaf.
pub proof fn lemma_verified_leaf_in_trie<H: NodeHasher>(
    leaves: Seq<LeafData>,
    prefix: Seq<bool>,
    siblings: Seq<Node>,
    leaf: LeafData,
)
    requires
        collision_free::<H>(),
        prefix.len() == siblings.len(),
        siblings.len() <= MAX_DEPTH,
        path_root::<H>(H::leaf_node(leaf), prefix, reversed(siblings)) == subtrie_root::<H>(
            0,
            leaves,
        ),
    ensures
        leaves.contains(leaf),
{
    lemma_bottom_up_is_top_down::<H>(H::leaf_node(leaf), prefix, siblings);
    lemma_leaf_under_root::<H>(leaf, prefix, siblings, 0, leaves);
}

} // verus!
