use nomt_proof::bits::{key_less, shared_bits};
use nomt_proof::hasher::{NodeHasher, Sha2Hasher};
use nomt_proof::path_proof::{
    hash_path, verify_update, KeyOutOfScope, PathProof, PathProofTerminal,
    PathProofVerificationError, PathUpdate, VerifiedPathProof, VerifyUpdateError,
};
use nomt_proof::sync::{PanicOnSyncMode, Sync};
use nomt_proof::trie::{terminator, InternalData, KeyPath, LeafData, Node, NodeKind};
use nomt_proof::trie_pos::TriePosition;
use nomt_proof::update::{build_trie, leaf_ops_spliced};

fn key(first: u8) -> KeyPath {
    let mut k = [0u8; 32];
    k[0] = first;
    k
}

fn value(b: u8) -> [u8; 32] {
    [b; 32]
}

fn bits(k: &KeyPath) -> Vec<bool> {
    let mut out = Vec::new();
    for i in 0..256 {
        out.push((k[i / 8] >> (7 - i % 8)) & 1 == 1);
    }
    out
}

fn leaf(first: u8, v: u8) -> LeafData {
    LeafData { key_path: key(first), value_hash: value(v) }
}

fn leaf_node(l: &LeafData) -> Node {
    Sha2Hasher::hash_leaf(l)
}

fn internal(left: Node, right: Node) -> Node {
    Sha2Hasher::hash_internal(&InternalData { left, right })
}

fn verified(terminal: PathProofTerminal, siblings: Vec<Node>, k: &KeyPath, root: Node) -> VerifiedPathProof {
    PathProof { terminal, siblings }.verify::<Sha2Hasher>(&bits(k), root).unwrap()
}

fn empty_trie_path() -> VerifiedPathProof {
    verified(PathProofTerminal::Terminator(TriePosition::new()), vec![], &key(0), terminator())
}

/// Two leaves, 0x00.. and 0x80.., branching at bit 0.
fn two_leaf_root() -> Node {
    internal(leaf_node(&leaf(0x00, 1)), leaf_node(&leaf(0x80, 2)))
}

fn two_leaf_path_left() -> VerifiedPathProof {
    verified(
        PathProofTerminal::Leaf(leaf(0x00, 1)),
        vec![leaf_node(&leaf(0x80, 2))],
        &key(0x00),
        two_leaf_root(),
    )
}

fn two_leaf_path_right() -> VerifiedPathProof {
    verified(
        PathProofTerminal::Leaf(leaf(0x80, 2)),
        vec![leaf_node(&leaf(0x00, 1))],
        &key(0x80),
        two_leaf_root(),
    )
}

#[test]
fn trivial_nonexistence() {
    let v = empty_trie_path();
    assert_eq!(v.path().len(), 0);
    assert!(v.terminal().is_none());
    assert_eq!(v.root(), terminator());
    assert!(matches!(v.confirm_nonexistence(&key(0)), Ok(true)));
    assert!(matches!(v.confirm_value(&leaf(0, 7)), Ok(false)));
}

#[test]
fn single_leaf_at_full_depth() {
    let l1 = leaf(0x00, 1);
    let root = leaf_node(&l1);
    let v = verified(PathProofTerminal::Leaf(l1), vec![], &key(0), root);
    assert!(matches!(v.confirm_value(&l1), Ok(true)));
    assert!(matches!(v.confirm_value(&leaf(0x00, 2)), Ok(false)));
    assert!(matches!(v.confirm_nonexistence(&key(0x00)), Ok(false)));
}

#[test]
fn two_leaves_branch_at_bit_zero() {
    let v = two_leaf_path_left();
    assert_eq!(v.path(), &[false][..]);
    assert_eq!(v.terminal(), Some(&leaf(0x00, 1)));
    assert!(matches!(v.confirm_nonexistence(&key(0x40)), Ok(true)));
    assert!(matches!(v.confirm_value(&leaf(0x00, 1)), Ok(true)));
}

#[test]
fn scope_rejection() {
    let v = two_leaf_path_left();
    assert!(matches!(v.confirm_nonexistence(&[0xFF; 32]), Err(KeyOutOfScope)));
    assert!(matches!(v.confirm_value(&leaf(0x80, 2)), Err(KeyOutOfScope)));
}

#[test]
fn batch_insert_two_leaves_into_empty_trie() {
    let paths = vec![PathUpdate {
        inner: empty_trie_path(),
        ops: vec![(key(0x00), Some(value(1))), (key(0x80), Some(value(2)))],
    }];
    assert_eq!(verify_update::<Sha2Hasher>(terminator(), &paths).unwrap(), two_leaf_root());
}

#[test]
fn batch_delete_collapses_to_terminator() {
    let paths = vec![
        PathUpdate { inner: two_leaf_path_left(), ops: vec![(key(0x00), None)] },
        PathUpdate { inner: two_leaf_path_right(), ops: vec![(key(0x80), None)] },
    ];
    assert_eq!(verify_update::<Sha2Hasher>(two_leaf_root(), &paths).unwrap(), terminator());
}

#[test]
fn batch_delete_one_leaf_floats_the_other_up() {
    let paths = vec![PathUpdate { inner: two_leaf_path_right(), ops: vec![(key(0x80), None)] }];
    assert_eq!(
        verify_update::<Sha2Hasher>(two_leaf_root(), &paths).unwrap(),
        leaf_node(&leaf(0x00, 1))
    );
}

#[test]
fn batch_insert_next_to_single_leaf() {
    let l1 = leaf(0x00, 1);
    let root = leaf_node(&l1);
    let v = verified(PathProofTerminal::Leaf(l1), vec![], &key(0x80), root);
    let paths = vec![PathUpdate { inner: v, ops: vec![(key(0x80), Some(value(2)))] }];
    assert_eq!(verify_update::<Sha2Hasher>(root, &paths).unwrap(), two_leaf_root());
}

#[test]
fn batch_update_two_paths_at_different_depths() {
    let (l1, l2, l3) = (leaf(0x00, 1), leaf(0x40, 2), leaf(0x80, 3));
    let n12 = internal(leaf_node(&l1), leaf_node(&l2));
    let root = internal(n12, leaf_node(&l3));
    let p1 = verified(PathProofTerminal::Leaf(l1), vec![leaf_node(&l3), leaf_node(&l2)], &key(0x00), root);
    let p3 = verified(PathProofTerminal::Leaf(l3), vec![n12], &key(0x80), root);
    let paths = vec![
        PathUpdate { inner: p1, ops: vec![(key(0x00), Some(value(9)))] },
        PathUpdate { inner: p3, ops: vec![(key(0x80), Some(value(8)))] },
    ];
    let expected = internal(
        internal(leaf_node(&leaf(0x00, 9)), leaf_node(&l2)),
        leaf_node(&leaf(0x80, 8)),
    );
    let first = verify_update::<Sha2Hasher>(root, &paths).unwrap();
    assert_eq!(first, expected);
    // The same inputs give the same root again.
    assert_eq!(verify_update::<Sha2Hasher>(root, &paths).unwrap(), first);
}

#[test]
fn batch_empty_returns_previous_root() {
    assert_eq!(verify_update::<Sha2Hasher>(two_leaf_root(), &[]).unwrap(), two_leaf_root());
}

#[test]
fn batch_paths_out_of_order() {
    let paths = vec![
        PathUpdate { inner: two_leaf_path_right(), ops: vec![(key(0x80), None)] },
        PathUpdate { inner: two_leaf_path_left(), ops: vec![(key(0x00), None)] },
    ];
    assert!(matches!(
        verify_update::<Sha2Hasher>(two_leaf_root(), &paths),
        Err(VerifyUpdateError::PathsOutOfOrder)
    ));
}

#[test]
fn batch_ops_out_of_order() {
    let paths = vec![PathUpdate {
        inner: empty_trie_path(),
        ops: vec![(key(0x80), Some(value(2))), (key(0x00), Some(value(1)))],
    }];
    assert!(matches!(
        verify_update::<Sha2Hasher>(terminator(), &paths),
        Err(VerifyUpdateError::OpsOutOfOrder)
    ));
}

#[test]
fn batch_duplicate_op_keys_are_out_of_order() {
    let paths = vec![PathUpdate {
        inner: empty_trie_path(),
        ops: vec![(key(0x80), Some(value(2))), (key(0x80), None)],
    }];
    assert!(matches!(
        verify_update::<Sha2Hasher>(terminator(), &paths),
        Err(VerifyUpdateError::OpsOutOfOrder)
    ));
}

#[test]
fn batch_op_out_of_scope() {
    let paths = vec![PathUpdate { inner: two_leaf_path_left(), ops: vec![(key(0x80), None)] }];
    assert!(matches!(
        verify_update::<Sha2Hasher>(two_leaf_root(), &paths),
        Err(VerifyUpdateError::OpOutOfScope)
    ));
}

#[test]
fn batch_path_without_ops() {
    let paths = vec![PathUpdate { inner: two_leaf_path_left(), ops: vec![] }];
    assert!(matches!(
        verify_update::<Sha2Hasher>(two_leaf_root(), &paths),
        Err(VerifyUpdateError::PathWithoutOps)
    ));
}

#[test]
fn batch_root_mismatch() {
    let paths = vec![PathUpdate { inner: empty_trie_path(), ops: vec![(key(0x00), None)] }];
    assert!(matches!(
        verify_update::<Sha2Hasher>(two_leaf_root(), &paths),
        Err(VerifyUpdateError::RootMismatch)
    ));
}

#[test]
fn verify_rejects_too_many_siblings() {
    let proof = PathProof {
        terminal: PathProofTerminal::Leaf(leaf(0x00, 1)),
        siblings: vec![leaf_node(&leaf(0x80, 2)), terminator()],
    };
    let r = proof.verify::<Sha2Hasher>(&[false], two_leaf_root());
    assert!(matches!(r, Err(PathProofVerificationError::TooManySiblings)));
    let long = PathProof { terminal: PathProofTerminal::Leaf(leaf(0x00, 1)), siblings: vec![terminator(); 257] };
    let r = long.verify::<Sha2Hasher>(&vec![false; 300], two_leaf_root());
    assert!(matches!(r, Err(PathProofVerificationError::TooManySiblings)));
}

#[test]
fn verify_rejects_root_mismatch() {
    let proof = PathProof {
        terminal: PathProofTerminal::Leaf(leaf(0x00, 1)),
        siblings: vec![leaf_node(&leaf(0x80, 3))],
    };
    let r = proof.verify::<Sha2Hasher>(&bits(&key(0)), two_leaf_root());
    assert!(matches!(r, Err(PathProofVerificationError::RootMismatch)));
}

#[test]
fn hash_path_consumes_trailing_bits() {
    let l = leaf_node(&leaf(0x40, 1));
    let s1 = leaf_node(&leaf(0x00, 2));
    let s0 = leaf_node(&leaf(0x80, 3));
    // path 0 1: deepest bit 1 puts the node right, then bit 0 puts it left.
    let expected = internal(internal(s1, l), s0);
    assert_eq!(hash_path::<Sha2Hasher>(l, &[false, true], &[s1, s0]), expected);
    // only as many bits as siblings are consumed
    assert_eq!(hash_path::<Sha2Hasher>(l, &[true, false, true], &[s1]), internal(s1, l));
    assert_eq!(hash_path::<Sha2Hasher>(l, &[], &[s1]), l);
}

#[test]
fn shared_bits_counts_common_prefix() {
    assert_eq!(shared_bits(&[true, false, true], &[true, false, false]), 2);
    assert_eq!(shared_bits(&[true, false], &[true, false, false]), 2);
    assert_eq!(shared_bits(&[false], &[true]), 0);
    assert_eq!(shared_bits(&[], &[true]), 0);
}

#[test]
fn key_order_is_lexicographic() {
    assert!(key_less(&key(0x00), &key(0x80)));
    assert!(!key_less(&key(0x80), &key(0x00)));
    assert!(!key_less(&key(0x80), &key(0x80)));
    let mut a = key(0x10);
    a[31] = 1;
    assert!(key_less(&key(0x10), &a));
}

#[test]
fn splice_keeps_untouched_leaf_in_order() {
    let old = leaf(0x40, 1);
    let ops = vec![(key(0x00), Some(value(2))), (key(0x80), Some(value(3)))];
    let r = leaf_ops_spliced(Some(old), &ops);
    assert_eq!(r, vec![leaf(0x00, 2), leaf(0x40, 1), leaf(0x80, 3)]);
}

#[test]
fn splice_replaces_and_deletes() {
    let old = leaf(0x40, 1);
    let r = leaf_ops_spliced(Some(old), &[(key(0x40), Some(value(5)))]);
    assert_eq!(r, vec![leaf(0x40, 5)]);
    let r = leaf_ops_spliced(Some(old), &[(key(0x00), None), (key(0x40), None)]);
    assert!(r.is_empty());
    let r = leaf_ops_spliced(None, &[(key(0x00), None), (key(0x40), Some(value(4)))]);
    assert_eq!(r, vec![leaf(0x40, 4)]);
}

#[test]
fn build_trie_collapses_singletons() {
    assert_eq!(build_trie::<Sha2Hasher>(0, &vec![]), terminator());
    let l = leaf(0x40, 1);
    assert_eq!(build_trie::<Sha2Hasher>(0, &vec![l]), leaf_node(&l));
    assert_eq!(build_trie::<Sha2Hasher>(5, &vec![l]), leaf_node(&l));
    let two = vec![leaf(0x00, 1), leaf(0x80, 2)];
    assert_eq!(build_trie::<Sha2Hasher>(0, &two), two_leaf_root());
    // 0x00 and 0x40 share bit 0 and part at bit 1.
    let deep = vec![leaf(0x00, 1), leaf(0x40, 2)];
    let expected = internal(internal(leaf_node(&leaf(0x00, 1)), leaf_node(&leaf(0x40, 2))), terminator());
    assert_eq!(build_trie::<Sha2Hasher>(0, &deep), expected);
}

#[test]
fn hasher_tags_node_kinds() {
    let l = leaf_node(&leaf(0x00, 1));
    assert_eq!(l[0] & 0x80, 0x80);
    assert_eq!(Sha2Hasher::node_kind(&l), NodeKind::Leaf);
    let i = internal(l, terminator());
    assert_eq!(i[0] & 0x80, 0);
    assert_eq!(Sha2Hasher::node_kind(&i), NodeKind::Internal);
    assert_eq!(Sha2Hasher::node_kind(&terminator()), NodeKind::Terminator);
}

#[test]
fn hasher_internal_of_zero_nodes() {
    // SHA-256 of 64 zero bytes, with the top bit cleared.
    let expected: [u8; 32] = [
        0x75, 0xa5, 0xfd, 0x42, 0xd1, 0x6a, 0x20, 0x30, 0x27, 0x98, 0xef, 0x6e, 0xd3, 0x09, 0x97,
        0x9b, 0x43, 0x00, 0x3d, 0x23, 0x20, 0xd9, 0xf0, 0xe8, 0xea, 0x98, 0x31, 0xa9, 0x27, 0x59,
        0xfb, 0x4b,
    ];
    assert_eq!(internal(terminator(), terminator()), expected);
}

#[test]
fn terminal_path_and_node() {
    let t = PathProofTerminal::Terminator(TriePosition::from_path_and_depth(key(0xA0), 3));
    assert_eq!(t.path(), vec![true, false, true]);
    assert_eq!(t.node::<Sha2Hasher>(), terminator());
    assert!(t.as_leaf_option().is_none());
    let l = PathProofTerminal::Leaf(leaf(0x80, 1));
    assert_eq!(l.path(), bits(&key(0x80)));
    assert_eq!(l.node::<Sha2Hasher>(), leaf_node(&leaf(0x80, 1)));
    assert_eq!(l.as_leaf_option(), Some(leaf(0x80, 1)));
}

#[test]
fn trie_position_depth_and_path() {
    let p = TriePosition::new();
    assert_eq!(p.depth(), 0);
    assert!(p.path().is_empty());
    let q = TriePosition::from_path_and_depth(key(0xC0), 2);
    assert_eq!(q.depth(), 2);
    assert_eq!(q.path(), vec![true, true]);
}

#[test]
fn sync_new_keeps_sequence_number() {
    let s = Sync::new(7, 100, [3u8; 16], Some(PanicOnSyncMode::PostMeta));
    assert_eq!(s.sync_seqn(), 7);
    let t = Sync::new(0, 1, [0u8; 16], None);
    assert_eq!(t.sync_seqn(), 0);
}
