//! Proving and verifying inclusion, non-inclusion, and updates to the trie.

use crate::bits::{
    is_prefix, key_less, key_lt, key_starts_with, lemma_shared_from_bound, shared_bits, shared_len,
    strictly_before,
};
use crate::hasher::NodeHasher;
use crate::trie::{
    key_bits, leaves_equal, nodes_equal, terminator, terminator_node, InternalData, KeyPath,
    LeafData, Node, NodeKind, MAX_DEPTH,
};
use crate::trie_pos::TriePosition;
use crate::update::{build_trie, leaf_ops_spliced, spliced, subtrie_root, KeyOp};
use vstd::prelude::*;

verus! {

/// The terminal node of a path: the leaf found there, or the position of a terminator.
#[derive(Clone, Debug, PartialEq, Eq)]
pub enum PathProofTerminal {
    Leaf(LeafData),
    Terminator(TriePosition),
}

/// The bits of the path to a terminal: all bits of the leaf's key, or the bits of the
/// terminator's position.
pub open spec fn terminal_path(t: PathProofTerminal) -> Seq<bool> {
    match t {
        PathProofTerminal::Leaf(l) => key_bits(l.key_path),
        PathProofTerminal::Terminator(p) => p@,
    }
}

/// The node of a terminal: the leaf's node, or the terminator.
pub open spec fn terminal_node<H: NodeHasher>(t: PathProofTerminal) -> Node {
    match t {
        PathProofTerminal::Leaf(l) => H::leaf_node(l),
        PathProofTerminal::Terminator(_) => terminator_node(),
    }
}

/// The leaf of a terminal, if it is one.
pub open spec fn terminal_leaf(t: PathProofTerminal) -> Option<LeafData> {
    match t {
        PathProofTerminal::Leaf(l) => Some(l),
        PathProofTerminal::Terminator(_) => None,
    }
}

impl PathProofTerminal {
    /// The bit-path to the terminal node.
    pub fn path(&self) -> (r: Vec<bool>)
        ensures
            r@ == terminal_path(*self),
    {
        match self {
            PathProofTerminal::Leaf(leaf_data) => {
                TriePosition::from_path_and_depth(leaf_data.key_path, 256).path()
            },
            PathProofTerminal::Terminator(pos) => pos.path(),
        }
    }

    /// The node of the terminal.
    pub fn node<H: NodeHasher>(&self) -> (r: Node)
        ensures
            r == terminal_node::<H>(*self),
    {
        match self {
            PathProofTerminal::Leaf(leaf_data) => H::hash_leaf(leaf_data),
            PathProofTerminal::Terminator(_) => terminator(),
        }
    }

    /// The leaf data of the terminal, if it is a leaf.
    pub fn as_leaf_option(&self) -> (r: Option<LeafData>)
        ensures
            r == terminal_leaf(*self),
    {
        match self {
            PathProofTerminal::Leaf(leaf_data) => Some(*leaf_data),
            PathProofTerminal::Terminator(_) => None,
        }
    }
}

/// A proof of some particular path through the trie.
#[derive(Clone, Debug)]
pub struct PathProof {
    /// The terminal node encountered when looking up a key. This is always either a
    /// terminator or a leaf.
    pub terminal: PathProofTerminal,
    /// Sibling nodes encountered during lookup, shallowest first.
    pub siblings: Vec<Node>,
}

/// One step up from `node`: the internal node with `sibling` on the side that `bit` does
/// not take.
pub open spec fn hash_step<H: NodeHasher>(node: Node, sibling: Node, bit: bool) -> Node {
    if bit {
        H::internal_node(sibling, node)
    } else {
        H::internal_node(node, sibling)
    }
}

/// The node reached from `node` after `k` steps up along the last `k` bits of `path`, with
/// `siblings` given deepest first.
pub open spec fn hash_up<H: NodeHasher>(
    node: Node,
    path: Seq<bool>,
    siblings: Seq<Node>,
    k: nat,
) -> Node
    decreases k,
{
    if k == 0 {
        node
    } else {
        hash_step::<H>(
            hash_up::<H>(node, path, siblings, (k - 1) as nat),
            siblings[k - 1],
            path[path.len() - k],
        )
    }
}

/// The root reached from `node` along `path`, with `siblings` given deepest first: as many
/// steps as there are siblings, or bits if there are fewer bits.
pub open spec fn path_root<H: NodeHasher>(node: Node, path: Seq<bool>, siblings: Seq<Node>) -> Node {
    let k = if path.len() < siblings.len() {
        path.len()
    } else {
        siblings.len()
    };
    hash_up::<H>(node, path, siblings, k)
}

/// A sequence in reverse order.
pub open spec fn reversed<T>(s: Seq<T>) -> Seq<T> {
    Seq::new(s.len(), |i: int| s[s.len() - 1 - i])
}

/// Given a node, a path, and siblings in ascending order from the last bit of `path`, hash
/// up to the root and return it. This consumes only the last `siblings.len()` bits of the
/// path, or the whole path.
pub fn hash_path<H: NodeHasher>(node: Node, path: &[bool], siblings: &[Node]) -> (r: Node)
    ensures
        r == path_root::<H>(node, path@, siblings@),
{
    let steps: usize = if path.len() < siblings.len() {
        path.len()
    } else {
        siblings.len()
    };
    let mut cur = node;
    let mut k: usize = 0;
    while k < steps
        invariant
            steps <= path.len(),
            steps <= siblings.len(),
            steps == (if path@.len() < siblings@.len() {
                path@.len()
            } else {
                siblings@.len()
            }),
            k <= steps,
            cur == hash_up::<H>(node, path@, siblings@, k as nat),
        decreases steps - k,
    {
        let bit = path[path.len() - 1 - k];
        let sibling = siblings[k];
        let data = if bit {
            InternalData { left: sibling, right: cur }
        } else {
            InternalData { left: cur, right: sibling }
        };
        cur = H::hash_internal(&data);
        k = k + 1;
    }
    cur
}

/// An error type indicating that a key is out of scope of a path proof.
#[derive(Clone, Copy, Debug, PartialEq, Eq, Structural)]
pub struct KeyOutOfScope;

/// Errors in path proof verification.
#[derive(Clone, Copy, Debug, PartialEq, Eq, Structural)]
pub enum PathProofVerificationError {
    /// Amount of provided siblings is impossible for the expected trie depth.
    TooManySiblings,
    /// Root hash mismatched at the end of the verification.
    RootMismatch,
}

/// What a verified path states: along `prefix`, the terminal is `terminal` (`None` for a
/// terminator), with `siblings` shallowest first, anchored at `root`.
pub ghost struct VerifiedPath {
    pub prefix: Seq<bool>,
    pub terminal: Option<LeafData>,
    pub siblings: Seq<Node>,
    pub root: Node,
}

/// A verified path through the trie.
///
/// Each verified path can be used to check up to two kinds of statements:
///   1. That a single key has a specific value.
///   2. That a single or multiple keys do not have a value.
///
/// Statement (1) is true when the path leads to a leaf node and the leaf has the provided
/// key and value.
///
/// Statement (2) is true for any key which begins with the proven path, where the terminal
/// node is either not a leaf or contains a value for a different key.
#[derive(Clone, Debug)]
#[must_use]
pub struct VerifiedPathProof {
    key_path: Vec<bool>,
    terminal: Option<LeafData>,
    siblings: Vec<Node>,
    root: Node,
}

impl View for VerifiedPathProof {
    type V = VerifiedPath;

    closed spec fn view(&self) -> VerifiedPath {
        VerifiedPath {
            prefix: self.key_path@,
            terminal: self.terminal,
            siblings: self.siblings@,
            root: self.root,
        }
    }
}

/// Whether `key` lies under the proven prefix of `v`.
pub open spec fn in_scope_of(v: VerifiedPath, key: KeyPath) -> bool {
    is_prefix(v.prefix, key_bits(key))
}

/// What `confirm_nonexistence` answers in scope: the terminal is a terminator, or a leaf of
/// another key.
pub open spec fn proves_absent(v: VerifiedPath, key: KeyPath) -> bool {
    match v.terminal {
        Some(l) => l.key_path != key,
        None => true,
    }
}

/// Copy a sequence of nodes.
fn copy_nodes(s: &[Node]) -> (r: Vec<Node>)
    ensures
        r@ == s@,
{
    let mut r: Vec<Node> = Vec::new();
    let mut i: usize = 0;
    while i < s.len()
        invariant
            i <= s.len(),
            r@ == s@.take(i as int),
        decreases s.len() - i,
    {
        r.push(s[i]);
        i = i + 1;
        assert(r@ =~= s@.take(i as int));
    }
    assert(s@.take(s.len() as int) =~= s@);
    r
}

/// The nodes of `s` in reverse order.
fn reverse_nodes(s: &[Node]) -> (r: Vec<Node>)
    ensures
        r@ == reversed(s@),
{
    let mut r: Vec<Node> = Vec::new();
    let mut i: usize = 0;
    while i < s.len()
        invariant
            i <= s.len(),
            r@ == reversed(s@).take(i as int),
        decreases s.len() - i,
    {
        r.push(s[s.len() - 1 - i]);
        i = i + 1;
        assert(r@ =~= reversed(s@).take(i as int));
    }
    assert(reversed(s@).take(s.len() as int) =~= reversed(s@));
    r
}

/// The first `n` bits of `bits`.
fn take_bits(bits: &[bool], n: usize) -> (r: Vec<bool>)
    requires
        n <= bits.len(),
    ensures
        r@ == bits@.take(n as int),
{
    let mut r: Vec<bool> = Vec::new();
    let mut i: usize = 0;
    while i < n
        invariant
            n <= bits.len(),
            i <= n,
            r@ == bits@.take(i as int),
        decreases n - i,
    {
        r.push(bits[i]);
        i = i + 1;
        assert(r@ =~= bits@.take(i as int));
    }
    r
}

impl PathProof {
    /// Verify this path proof against `root`, for the lookup of `key_path`.
    ///
    /// This only verifies the path proof, not the key path or value of the terminal node:
    /// use the result with `confirm_value` or `confirm_nonexistence`. The key path can be
    /// any key whose lookup reaches the terminal node, at least as long as the siblings.
    pub fn verify<H: NodeHasher>(&self, key_path: &[bool], root: Node) -> (r: Result<
        VerifiedPathProof,
        PathProofVerificationError,
    >)
        ensures
            (self.siblings@.len() > key_path@.len() || self.siblings@.len() > MAX_DEPTH) ==> r
                == Err::<VerifiedPathProof, _>(PathProofVerificationError::TooManySiblings),
            (self.siblings@.len() <= key_path@.len() && self.siblings@.len() <= MAX_DEPTH) ==> {
                let relevant = key_path@.take(self.siblings@.len() as int);
                let candidate = path_root::<H>(
                    terminal_node::<H>(self.terminal),
                    relevant,
                    reversed(self.siblings@),
                );
                &&& candidate == root ==> r is Ok && r->Ok_0@ == (VerifiedPath {
                    prefix: relevant,
                    terminal: terminal_leaf(self.terminal),
                    siblings: self.siblings@,
                    root,
                })
                &&& candidate != root ==> r == Err::<VerifiedPathProof, _>(
                    PathProofVerificationError::RootMismatch,
                )
            },
    {
        if self.siblings.len() > key_path.len() || self.siblings.len() > MAX_DEPTH {
            return Err(PathProofVerificationError::TooManySiblings);
        }
        let relevant_path = take_bits(key_path, self.siblings.len());
        let cur_node = self.terminal.node::<H>();
        let ascending = reverse_nodes(self.siblings.as_slice());
        let new_root = hash_path::<H>(cur_node, relevant_path.as_slice(), ascending.as_slice());
        if nodes_equal(&new_root, &root) {
            Ok(
                VerifiedPathProof {
                    key_path: relevant_path,
                    terminal: self.terminal.as_leaf_option(),
                    siblings: copy_nodes(self.siblings.as_slice()),
                    root,
                },
            )
        } else {
            Err(PathProofVerificationError::RootMismatch)
        }
    }
}

impl VerifiedPathProof {
    /// The terminal leaf; `None` signifies that this path concludes with a terminator.
    pub fn terminal(&self) -> (r: Option<&LeafData>)
        ensures
            r == match self@.terminal {
                Some(l) => Some(&l),
                None => None::<&LeafData>,
            },
    {
        self.terminal.as_ref()
    }

    /// The proven path.
    pub fn path(&self) -> (r: &[bool])
        ensures
            r@ == self@.prefix,
    {
        self.key_path.as_slice()
    }

    /// The proven root.
    pub fn root(&self) -> (r: Node)
        ensures
            r == self@.root,
    {
        self.root
    }

    /// Check whether this path resolves to the given leaf.
    ///
    /// `Ok(true)` confirms that the key has this value in the trie; `Ok(false)` confirms
    /// that the key has a different value or does not exist. Fails if the key is out of
    /// the scope of this path.
    pub fn confirm_value(&self, expected_leaf: &LeafData) -> (r: Result<bool, KeyOutOfScope>)
        ensures
            !in_scope_of(self@, expected_leaf.key_path) ==> r == Err::<bool, _>(KeyOutOfScope),
            in_scope_of(self@, expected_leaf.key_path) ==> r == Ok::<bool, KeyOutOfScope>(
                self@.terminal == Some(*expected_leaf),
            ),
    {
        match self.in_scope(&expected_leaf.key_path) {
            Err(e) => Err(e),
            Ok(()) => Ok(
                match &self.terminal {
                    Some(leaf) => leaves_equal(leaf, expected_leaf),
                    None => false,
                },
            ),
        }
    }

    /// Check whether this proves that a key has no value in the trie.
    ///
    /// `Ok(true)` confirms that the key has no value in the trie; `Ok(false)` means that
    /// the key exists within the trie. Fails if the key is out of the scope of this path.
    pub fn confirm_nonexistence(&self, key_path: &KeyPath) -> (r: Result<bool, KeyOutOfScope>)
        ensures
            !in_scope_of(self@, *key_path) ==> r == Err::<bool, _>(KeyOutOfScope),
            in_scope_of(self@, *key_path) ==> r == Ok::<bool, KeyOutOfScope>(
                proves_absent(self@, *key_path),
            ),
    {
        match self.in_scope(key_path) {
            Err(e) => Err(e),
            Ok(()) => Ok(
                match &self.terminal {
                    Some(leaf) => !nodes_equal(&leaf.key_path, key_path),
                    None => true,
                },
            ),
        }
    }

    fn in_scope(&self, key_path: &KeyPath) -> (r: Result<(), KeyOutOfScope>)
        ensures
            r is Ok == in_scope_of(self@, *key_path),
            r is Err ==> r == Err::<(), _>(KeyOutOfScope),
    {
        if key_starts_with(key_path, self.key_path.as_slice()) {
            Ok(())
        } else {
            Err(KeyOutOfScope)
        }
    }
}

/// Errors that can occur when verifying an update proof.
#[derive(Clone, Copy, Debug, PartialEq, Eq, Structural)]
pub enum VerifyUpdateError {
    /// The paths through the trie were provided out-of-order.
    PathsOutOfOrder,
    /// The operations on the trie were provided out-of-order.
    OpsOutOfOrder,
    /// An operation was out of scope for the path it was provided with.
    OpOutOfScope,
    /// A path was provided without any operations.
    PathWithoutOps,
    /// Paths were verified against different state-roots.
    RootMismatch,
}

/// An update to the node at some path.
#[derive(Debug)]
pub struct PathUpdate {
    /// The proven path.
    pub inner: VerifiedPathProof,
    /// Update operations to perform on keys that all start with the path.
    pub ops: Vec<KeyOp>,
}

/// The error that operation `j` of a path with proven prefix `prefix` raises: its key must
/// follow the key before it and extend the prefix.
pub open spec fn op_check(ops: Seq<KeyOp>, prefix: Seq<bool>, j: int) -> Option<VerifyUpdateError> {
    if j != 0 && !key_lt(ops[j - 1].0, ops[j].0) {
        Some(VerifyUpdateError::OpsOutOfOrder)
    } else if !is_prefix(prefix, key_bits(ops[j].0)) {
        Some(VerifyUpdateError::OpOutOfScope)
    } else {
        None
    }
}

/// The first error among the first `n` operations of a path.
pub open spec fn ops_error(ops: Seq<KeyOp>, prefix: Seq<bool>, n: nat) -> Option<VerifyUpdateError>
    decreases n,
{
    if n == 0 {
        None
    } else {
        match ops_error(ops, prefix, (n - 1) as nat) {
            Some(e) => Some(e),
            None => op_check(ops, prefix, n - 1),
        }
    }
}

/// The error that path `i` of a batch raises: it must be anchored at `prev_root`, come
/// strictly after the path before it, carry operations, and its operations must be in
/// order and in scope.
pub open spec fn path_check(prev_root: Node, paths: Seq<PathUpdate>, i: int) -> Option<
    VerifyUpdateError,
> {
    let v = paths[i].inner@;
    if v.root != prev_root {
        Some(VerifyUpdateError::RootMismatch)
    } else if i != 0 && !strictly_before(paths[i - 1].inner@.prefix, v.prefix) {
        Some(VerifyUpdateError::PathsOutOfOrder)
    } else if paths[i].ops@.len() == 0 {
        Some(VerifyUpdateError::PathWithoutOps)
    } else {
        ops_error(paths[i].ops@, v.prefix, paths[i].ops@.len())
    }
}

/// The first error among the first `n` paths of a batch.
pub open spec fn batch_error(prev_root: Node, paths: Seq<PathUpdate>, n: nat) -> Option<
    VerifyUpdateError,
>
    decreases n,
{
    if n == 0 {
        None
    } else {
        match batch_error(prev_root, paths, (n - 1) as nat) {
            Some(e) => Some(e),
            None => path_check(prev_root, paths, n - 1),
        }
    }
}

/// The first error of a batch, if any.
pub open spec fn update_error(prev_root: Node, paths: Seq<PathUpdate>) -> Option<VerifyUpdateError> {
    batch_error(prev_root, paths, paths.len())
}

/// Combine the node climbing up with its sibling: two terminators stay a terminator, a leaf
/// beside a terminator floats up, and anything else is hashed into an internal node.
pub open spec fn compact<H: NodeHasher>(cur: Node, sibling: Node, bit: bool) -> Node {
    let kc = H::kind_of(cur);
    let ks = H::kind_of(sibling);
    if ks == NodeKind::Terminator && (kc == NodeKind::Terminator || kc == NodeKind::Leaf) {
        cur
    } else if kc == NodeKind::Terminator && ks == NodeKind::Leaf {
        sibling
    } else {
        hash_step::<H>(cur, sibling, bit)
    }
}

/// The climb from depth `skip` along `prefix`, after `done` of `steps` steps: each step takes
/// as sibling the top of `pending` when it sits at the current layer, else the proof's
/// sibling, and compacts. Returns the node reached and what is left of `pending`.
pub open spec fn climb<H: NodeHasher>(
    cur: Node,
    skip: int,
    done: nat,
    steps: nat,
    prefix: Seq<bool>,
    siblings: Seq<Node>,
    pending: Seq<(Node, usize)>,
) -> (Node, Seq<(Node, usize)>)
    decreases steps - done,
{
    if done >= steps {
        (cur, pending)
    } else {
        let layer = skip - done;
        let take = pending.len() > 0 && pending.last().1 == layer;
        let sibling = if take {
            pending.last().0
        } else {
            siblings[siblings.len() - 1 - done]
        };
        let rest = if take {
            pending.drop_last()
        } else {
            pending
        };
        climb::<H>(
            compact::<H>(cur, sibling, prefix[skip - 1 - done]),
            skip,
            done + 1,
            steps,
            prefix,
            siblings,
            rest,
        )
    }
}

/// How many layers path `i` of a batch climbs: to the root for the last path, else to just
/// below the point where it parts from the next path.
pub open spec fn up_layers(paths: Seq<PathUpdate>, i: int) -> int {
    let skip = paths[i].inner@.prefix.len() as int;
    if i + 1 >= paths.len() {
        skip
    } else {
        skip - (shared_len(paths[i].inner@.prefix, paths[i + 1].inner@.prefix) + 1)
    }
}

/// The root of the sub-trie under the proven prefix of a path after its operations.
pub open spec fn path_sub_root<H: NodeHasher>(u: PathUpdate) -> Node {
    subtrie_root::<H>(u.inner@.prefix.len() as int, spliced(u.inner@.terminal, u.ops@))
}

/// The stack of pending sub-trie roots, with their layers, after the first `n` paths.
pub open spec fn frontier<H: NodeHasher>(paths: Seq<PathUpdate>, n: nat) -> Seq<(Node, usize)>
    decreases n,
{
    if n == 0 {
        Seq::empty()
    } else {
        let i = n - 1;
        let v = paths[i].inner@;
        let skip = v.prefix.len() as int;
        let up = up_layers(paths, i);
        let steps = if up < v.siblings.len() {
            up
        } else {
            v.siblings.len() as int
        };
        let res = climb::<H>(
            path_sub_root::<H>(paths[i]),
            skip,
            0,
            steps as nat,
            v.prefix,
            v.siblings,
            frontier::<H>(paths, (n - 1) as nat),
        );
        res.1.push((res.0, (skip - up) as usize))
    }
}

/// The root after a batch that raises no error: `prev_root` for an empty batch, else the
/// node that the last path leaves on the frontier.
pub open spec fn updated_root<H: NodeHasher>(prev_root: Node, paths: Seq<PathUpdate>) -> Node {
    if paths.len() == 0 {
        prev_root
    } else {
        frontier::<H>(paths, paths.len()).last().0
    }
}

/// Once the first `n` paths raise an error, every longer run raises the same.
pub proof fn lemma_batch_error_sticks(prev_root: Node, paths: Seq<PathUpdate>, n: nat, m: nat)
    requires
        n <= m,
        batch_error(prev_root, paths, n) is Some,
    ensures
        batch_error(prev_root, paths, m) == batch_error(prev_root, paths, n),
    decreases m - n,
{
    if n < m {
        lemma_batch_error_sticks(prev_root, paths, n, (m - 1) as nat);
    }
}

/// A run without error has no error in any of its paths.
pub proof fn lemma_batch_ok(prev_root: Node, paths: Seq<PathUpdate>, n: nat, i: int)
    requires
        batch_error(prev_root, paths, n) is None,
        0 <= i < n,
    ensures
        path_check(prev_root, paths, i) is None,
    decreases n,
{
    if i < n - 1 {
        lemma_batch_ok(prev_root, paths, (n - 1) as nat, i);
    }
}

/// Once the first `n` operations raise an error, every longer run raises the same.
proof fn lemma_ops_error_sticks(ops: Seq<KeyOp>, prefix: Seq<bool>, n: nat, m: nat)
    requires
        n <= m,
        ops_error(ops, prefix, n) is Some,
    ensures
        ops_error(ops, prefix, m) == ops_error(ops, prefix, n),
    decreases m - n,
{
    if n < m {
        lemma_ops_error_sticks(ops, prefix, n, (m - 1) as nat);
    }
}

/// The first error among the operations of a path.
fn check_ops(ops: &[KeyOp], prefix: &[bool]) -> (r: Option<VerifyUpdateError>)
    ensures
        r == ops_error(ops@, prefix@, ops@.len()),
{
    let mut j: usize = 0;
    while j < ops.len()
        invariant
            j <= ops.len(),
            ops_error(ops@, prefix@, j as nat) is None,
        decreases ops.len() - j,
    {
        if j != 0 && !key_less(&ops[j - 1].0, &ops[j].0) {
            proof {
                lemma_ops_error_sticks(ops@, prefix@, (j + 1) as nat, ops@.len());
            }
            return Some(VerifyUpdateError::OpsOutOfOrder);
        }
        if !key_starts_with(&ops[j].0, prefix) {
            proof {
                lemma_ops_error_sticks(ops@, prefix@, (j + 1) as nat, ops@.len());
            }
            return Some(VerifyUpdateError::OpOutOfScope);
        }
        j = j + 1;
    }
    None
}

/// Whether the proven path `a` comes strictly before the proven path `b`.
fn path_before(a: &[bool], b: &[bool]) -> (r: bool)
    ensures
        r == strictly_before(a@, b@),
{
    let n = shared_bits(a, b);
    n < a.len() && n < b.len() && !a[n] && b[n]
}

/// The error that path `i` of a batch raises, if any.
fn check_path(prev_root: &Node, paths: &[PathUpdate], i: usize) -> (r: Option<VerifyUpdateError>)
    requires
        i < paths.len(),
    ensures
        r == path_check(*prev_root, paths@, i as int),
{
    let path = &paths[i];
    if !nodes_equal(&path.inner.root, prev_root) {
        return Some(VerifyUpdateError::RootMismatch);
    }
    if i != 0 && !path_before(paths[i - 1].inner.path(), path.inner.path()) {
        return Some(VerifyUpdateError::PathsOutOfOrder);
    }
    if path.ops.len() == 0 {
        return Some(VerifyUpdateError::PathWithoutOps);
    }
    check_ops(path.ops.as_slice(), path.inner.path())
}

/// One compaction step: combine the node climbing up with its sibling.
fn compact_step<H: NodeHasher>(cur: Node, sibling: Node, bit: bool) -> (r: Node)
    ensures
        r == compact::<H>(cur, sibling, bit),
{
    let kc = H::node_kind(&cur);
    let ks = H::node_kind(&sibling);
    if ks == NodeKind::Terminator && (kc == NodeKind::Terminator || kc == NodeKind::Leaf) {
        cur
    } else if kc == NodeKind::Terminator && ks == NodeKind::Leaf {
        sibling
    } else if bit {
        H::hash_internal(&InternalData { left: sibling, right: cur })
    } else {
        H::hash_internal(&InternalData { left: cur, right: sibling })
    }
}

/// Verify an update of the trie against its previous root, without the trie itself, and
/// return the root after the update.
///
/// Paths must be ascending, each with ascending operations that all lie under its proven
/// prefix, and all paths must be anchored at `prev_root`. An empty batch returns
/// `prev_root`.
pub fn verify_update<H: NodeHasher>(prev_root: Node, paths: &[PathUpdate]) -> (r: Result<
    Node,
    VerifyUpdateError,
>)
    ensures
        update_error(prev_root, paths@) matches Some(e) ==> r == Err::<Node, _>(e),
        update_error(prev_root, paths@) is None ==> r == Ok::<_, VerifyUpdateError>(
            updated_root::<H>(prev_root, paths@),
        ),
{
    if paths.len() == 0 {
        return Ok(prev_root);
    }
    let mut i: usize = 0;
    while i < paths.len()
        invariant
            i <= paths.len(),
            batch_error(prev_root, paths@, i as nat) is None,
        decreases paths.len() - i,
    {
        match check_path(&prev_root, paths, i) {
            Some(e) => {
                proof {
                    lemma_batch_error_sticks(prev_root, paths@, (i + 1) as nat, paths@.len());
                }
                return Err(e);
            },
            None => {},
        }
        i = i + 1;
    }
    let mut pending: Vec<(Node, usize)> = Vec::new();
    let mut i: usize = 0;
    while i < paths.len()
        invariant
            0 < paths.len(),
            i <= paths.len(),
            update_error(prev_root, paths@) is None,
            pending@ == frontier::<H>(paths@, i as nat),
        decreases paths.len() - i,
    {
        let path = &paths[i];
        let prefix = path.inner.path();
        let skip = prefix.len();
        let up_layers: usize = if i + 1 < paths.len() {
            let n = shared_bits(prefix, paths[i + 1].inner.path());
            proof {
                lemma_batch_ok(prev_root, paths@, paths@.len(), i + 1);
                lemma_shared_from_bound(prefix@, paths@[i + 1].inner@.prefix);
            }
            skip - (n + 1)
        } else {
            skip
        };
        let steps: usize = if up_layers < path.inner.siblings.len() {
            up_layers
        } else {
            path.inner.siblings.len()
        };
        let leaves = leaf_ops_spliced(path.inner.terminal, path.ops.as_slice());
        let sub_root = build_trie::<H>(skip, &leaves);
        let ghost start = pending@;
        let mut cur = sub_root;
        let mut k: usize = 0;
        while k < steps
            invariant
                steps <= up_layers <= skip,
                skip == prefix@.len(),
                prefix@ == path.inner@.prefix,
                steps <= path.inner@.siblings.len(),
                path.inner.siblings@ == path.inner@.siblings,
                k <= steps,
                climb::<H>(cur, skip as int, k as nat, steps as nat, prefix@, path.inner@.siblings, pending@)
                    == climb::<H>(sub_root, skip as int, 0, steps as nat, prefix@, path.inner@.siblings, start),
            decreases steps - k,
        {
            let layer = skip - k;
            let take = pending.len() > 0 && pending[pending.len() - 1].1 == layer;
            let sibling = if take {
                match pending.pop() {
                    Some(p) => p.0,
                    None => path.inner.siblings[path.inner.siblings.len() - 1 - k],
                }
            } else {
                path.inner.siblings[path.inner.siblings.len() - 1 - k]
            };
            cur = compact_step::<H>(cur, sibling, prefix[skip - 1 - k]);
            k = k + 1;
        }
        pending.push((cur, skip - up_layers));
        i = i + 1;
    }
    let last = pending.len() - 1;
    Ok(pending[last].0)
}

} // verus!
