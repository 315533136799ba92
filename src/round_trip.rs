//! The batch update of one honestly produced path computes the root of the trie with the
//! path's operations applied.

use crate::bits::is_prefix;
use crate::hasher::NodeHasher;
use crate::path_proof::{
    climb, compact, frontier, hash_step, ops_error, op_check, up_layers, update_error,
    updated_root, PathUpdate, VerifiedPath,
};
use crate::theorems::{
    agrees_up_to, distinct_keys, lemma_lookup_descent, lemma_lookup_terminal_answers,
    lookup_leaves, lookup_siblings,
};
use crate::trie::{bit_at, is_terminator, key_bits, terminator_node, KeyPath, LeafData, Node, NodeKind, MAX_DEPTH};
use crate::update::{spliced, subtrie_root, with_bit, written_leaves, KeyOp};
use vstd::prelude::*;

verus! {

/// The leaves of `s` that satisfy `p`, in order.
pub open spec fn select(s: Seq<LeafData>, p: spec_fn(LeafData) -> bool) -> Seq<LeafData>
    decreases s.len(),
{
    if s.len() == 0 {
        Seq::empty()
    } else {
        let r = select(s.drop_last(), p);
        if p(s.last()) {
            r.push(s.last())
        } else {
            r
        }
    }
}

/// The leaves whose keys agree with `key` on the first `depth` bits.
pub open spec fn agreeing(key: KeyPath, depth: int) -> spec_fn(LeafData) -> bool {
    |x: LeafData| agrees_up_to(x.key_path, key, depth)
}

/// The leaves whose keys part from `key` within the first `depth` bits.
pub open spec fn parting(key: KeyPath, depth: int) -> spec_fn(LeafData) -> bool {
    |x: LeafData| !agrees_up_to(x.key_path, key, depth)
}

/// The leaves whose key has bit `d` equal to `b`.
pub open spec fn bit_is(d: int, b: bool) -> spec_fn(LeafData) -> bool {
    |x: LeafData| bit_at(x.key_path@, d) == b
}

/// The leaves that satisfy both predicates.
pub open spec fn both(p: spec_fn(LeafData) -> bool, q: spec_fn(LeafData) -> bool) -> spec_fn(
    LeafData,
) -> bool {
    |x: LeafData| p(x) && q(x)
}

/// The oracle keeps kinds apart: a leaf's node is of the leaf kind and an internal node of
/// the internal kind.
pub open spec fn kinds_separated<H: NodeHasher>() -> bool {
    &&& forall|l: LeafData| #[trigger] H::kind_of(H::leaf_node(l)) == NodeKind::Leaf
    &&& forall|a: Node, b: Node| #[trigger] H::kind_of(H::internal_node(a, b)) == NodeKind::Internal
}

/// The leaves of a trie after the operations of a path that leads along the first `depth`
/// bits of `key` to `terminal`: the leaves off the path stay, and the operations are
/// spliced with the terminal leaf.
pub open spec fn after_update(
    leaves: Seq<LeafData>,
    key: KeyPath,
    depth: int,
    terminal: Option<LeafData>,
    ops: Seq<KeyOp>,
) -> Seq<LeafData> {
    select(leaves, parting(key, depth)) + spliced(terminal, ops)
}

/// The terminal leaf of a lookup that ends at the given leaves.
pub open spec fn single(f: Seq<LeafData>) -> Option<LeafData> {
    if f.len() == 1 {
        Some(f[0])
    } else {
        None
    }
}

/// The verified path that an honest lookup of `key` in the trie of `leaves` produces.
pub open spec fn honest_path<H: NodeHasher>(leaves: Seq<LeafData>, key: KeyPath) -> VerifiedPath {
    let sibs = lookup_siblings::<H>(0, leaves, key);
    VerifiedPath {
        prefix: key_bits(key).take(sibs.len() as int),
        terminal: single(lookup_leaves(0, leaves, key)),
        siblings: sibs,
        root: subtrie_root::<H>(0, leaves),
    }
}

proof fn lemma_select_concat(a: Seq<LeafData>, b: Seq<LeafData>, p: spec_fn(LeafData) -> bool)
    ensures
        select(a + b, p) == select(a, p) + select(b, p),
    decreases b.len(),
{
    if b.len() == 0 {
        assert(a + b =~= a);
        assert(select(a, p) + select(b, p) =~= select(a, p));
    } else {
        lemma_select_concat(a, b.drop_last(), p);
        assert((a + b).drop_last() =~= a + b.drop_last());
        assert((a + b).last() == b.last());
        if p(b.last()) {
            assert(select(a, p) + select(b.drop_last(), p).push(b.last()) =~= (select(a, p)
                + select(b.drop_last(), p)).push(b.last()));
        }
    }
}

proof fn lemma_select_ext(s: Seq<LeafData>, p: spec_fn(LeafData) -> bool, q: spec_fn(LeafData) -> bool)
    requires
        forall|i: int| 0 <= i < s.len() ==> p(#[trigger] s[i]) == q(s[i]),
    ensures
        select(s, p) == select(s, q),
    decreases s.len(),
{
    if s.len() > 0 {
        assert(s.last() == s[s.len() - 1]);
        lemma_select_ext(s.drop_last(), p, q);
    }
}

proof fn lemma_select_select(s: Seq<LeafData>, p: spec_fn(LeafData) -> bool, q: spec_fn(LeafData) -> bool)
    ensures
        select(select(s, p), q) == select(s, both(p, q)),
    decreases s.len(),
{
    if s.len() > 0 {
        lemma_select_select(s.drop_last(), p, q);
        let r = select(s.drop_last(), p);
        if p(s.last()) {
            assert(r.push(s.last()).drop_last() =~= r);
        }
    }
}

proof fn lemma_select_all(s: Seq<LeafData>, p: spec_fn(LeafData) -> bool)
    requires
        forall|i: int| 0 <= i < s.len() ==> p(#[trigger] s[i]),
    ensures
        select(s, p) == s,
    decreases s.len(),
{
    if s.len() > 0 {
        assert(s.last() == s[s.len() - 1]);
        lemma_select_all(s.drop_last(), p);
        assert(s.drop_last().push(s.last()) =~= s);
    }
}

proof fn lemma_select_none(s: Seq<LeafData>, p: spec_fn(LeafData) -> bool)
    requires
        forall|i: int| 0 <= i < s.len() ==> !p(#[trigger] s[i]),
    ensures
        select(s, p) == Seq::<LeafData>::empty(),
    decreases s.len(),
{
    if s.len() > 0 {
        assert(s.last() == s[s.len() - 1]);
        lemma_select_none(s.drop_last(), p);
    }
}

proof fn lemma_select_len(s: Seq<LeafData>, p: spec_fn(LeafData) -> bool, q: spec_fn(LeafData) -> bool)
    requires
        forall|i: int| 0 <= i < s.len() ==> p(#[trigger] s[i]) == !q(s[i]),
    ensures
        select(s, p).len() + select(s, q).len() == s.len(),
    decreases s.len(),
{
    if s.len() > 0 {
        assert(s.last() == s[s.len() - 1]);
        lemma_select_len(s.drop_last(), p, q);
    }
}

proof fn lemma_with_bit_select(s: Seq<LeafData>, d: int, b: bool)
    ensures
        with_bit(s, d, b) == select(s, bit_is(d, b)),
    decreases s.len(),
{
    if s.len() > 0 {
        lemma_with_bit_select(s.drop_last(), d, b);
    }
}

/// The leaves of a one-leaf sequence that satisfy `p`.
proof fn lemma_select_single(s: Seq<LeafData>, p: spec_fn(LeafData) -> bool)
    requires
        s.len() == 1,
    ensures
        select(s, p) == (if p(s[0]) {
            s
        } else {
            Seq::<LeafData>::empty()
        }),
{
    assert(select(s.drop_last(), p) == Seq::<LeafData>::empty());
    assert(s.last() == s[0]);
    assert(Seq::<LeafData>::empty().push(s[0]) =~= s);
}

/// Splitting the leaves at `depth` by the bit of `key` there, after selecting those that
/// agree with `key` up to `depth`: the side of `key` agrees one bit further.
proof fn lemma_split_agreeing(s: Seq<LeafData>, key: KeyPath, d: int)
    requires
        0 <= d,
    ensures
        with_bit(select(s, agreeing(key, d)), d, bit_at(key@, d)) == select(s, agreeing(key, d + 1)),
        with_bit(select(s, agreeing(key, d)), d, !bit_at(key@, d)) == select(
            s,
            both(agreeing(key, d), bit_is(d, !bit_at(key@, d))),
        ),
{
    let b = bit_at(key@, d);
    lemma_with_bit_select(select(s, agreeing(key, d)), d, b);
    lemma_with_bit_select(select(s, agreeing(key, d)), d, !b);
    lemma_select_select(s, agreeing(key, d), bit_is(d, b));
    lemma_select_select(s, agreeing(key, d), bit_is(d, !b));
    assert forall|i: int| 0 <= i < s.len() implies both(agreeing(key, d), bit_is(d, b))(
        #[trigger] s[i],
    ) == agreeing(key, d + 1)(s[i]) by {
        if agrees_up_to(s[i].key_path, key, d + 1) {
            assert(bit_at(s[i].key_path@, d) == bit_at(key@, d));
        }
        if agrees_up_to(s[i].key_path, key, d) && bit_at(s[i].key_path@, d) == b {
            assert forall|k: int| 0 <= k < d + 1 implies #[trigger] bit_at(s[i].key_path@, k) == bit_at(key@, k) by {
                if k < d {
                    assert(bit_at(s[i].key_path@, k) == bit_at(key@, k));
                }
            }
        }
    }
    lemma_select_ext(s, both(agreeing(key, d), bit_is(d, b)), agreeing(key, d + 1));
}

/// The honest lookup, in terms of selections: its siblings are the sub-tries of the leaves
/// that part from `key` at each bit, and it ends at the leaves that agree with `key` along
/// the whole path.
proof fn lemma_lookup_select<H: NodeHasher>(leaves: Seq<LeafData>, key: KeyPath, d: int)
    requires
        0 <= d <= MAX_DEPTH,
    ensures
        ({
            let s = select(leaves, agreeing(key, d));
            let sibs = lookup_siblings::<H>(d, s, key);
            &&& forall|j: int|
                0 <= j < sibs.len() ==> #[trigger] sibs[j] == subtrie_root::<H>(
                    d + j + 1,
                    with_bit(select(leaves, agreeing(key, d + j)), d + j, !bit_at(key@, d + j)),
                )
            &&& lookup_leaves(d, s, key) == select(leaves, agreeing(key, d + sibs.len()))
        }),
    decreases MAX_DEPTH - d,
{
    let s = select(leaves, agreeing(key, d));
    if s.len() <= 1 || d >= MAX_DEPTH {
    } else {
        let b = bit_at(key@, d);
        lemma_split_agreeing(leaves, key, d);
        lemma_lookup_select::<H>(leaves, key, d + 1);
        let sibs = lookup_siblings::<H>(d, s, key);
        let rest = lookup_siblings::<H>(d + 1, select(leaves, agreeing(key, d + 1)), key);
        assert(sibs == seq![subtrie_root::<H>(d + 1, with_bit(s, d, !b))] + rest);
        assert forall|j: int| 0 <= j < sibs.len() implies #[trigger] sibs[j] == subtrie_root::<H>(
            d + j + 1,
            with_bit(select(leaves, agreeing(key, d + j)), d + j, !bit_at(key@, d + j)),
        ) by {
            if j > 0 {
                assert(sibs[j] == rest[j - 1]);
                assert(d + 1 + (j - 1) == d + j);
            }
        }
    }
}

pub(crate) proof fn lemma_subtrie_kind<H: NodeHasher>(d: int, s: Seq<LeafData>)
    requires
        kinds_separated::<H>(),
    ensures
        s.len() == 0 ==> H::kind_of(subtrie_root::<H>(d, s)) == NodeKind::Terminator,
        s.len() == 1 ==> H::kind_of(subtrie_root::<H>(d, s)) == NodeKind::Leaf,
        s.len() >= 2 ==> H::kind_of(subtrie_root::<H>(d, s)) == NodeKind::Internal,
{
    if s.len() == 0 {
        let z = terminator_node();
        H::lemma_terminator_kind(z);
        let w: Node = vstd::array::spec_array_fill_for_copy_type::<u8, 32>(0u8);
        assert(is_terminator(w));
    }
}

/// Compaction agrees with the builder: combining the sub-tries of the two halves of a set
/// of leaves by the compaction rules gives the root of the sub-trie of the whole set.
pub proof fn lemma_compact_matches_build<H: NodeHasher>(d: int, s: Seq<LeafData>, b: bool)
    requires
        kinds_separated::<H>(),
        0 <= d < MAX_DEPTH,
    ensures
        compact::<H>(
            subtrie_root::<H>(d + 1, with_bit(s, d, b)),
            subtrie_root::<H>(d + 1, with_bit(s, d, !b)),
            b,
        ) == subtrie_root::<H>(d, s),
{
    let a = with_bit(s, d, b);
    let c = with_bit(s, d, !b);
    lemma_with_bit_select(s, d, b);
    lemma_with_bit_select(s, d, !b);
    lemma_select_len(s, bit_is(d, b), bit_is(d, !b));
    lemma_subtrie_kind::<H>(d + 1, a);
    lemma_subtrie_kind::<H>(d + 1, c);
    if s.len() == 1 {
        lemma_select_single(s, bit_is(d, b));
        lemma_select_single(s, bit_is(d, !b));
    }
    if s.len() == 0 {
        assert(a.len() == 0);
    }
}

proof fn lemma_written_keys(ops: Seq<KeyOp>, q: spec_fn(KeyPath) -> bool)
    requires
        forall|j: int| 0 <= j < ops.len() ==> q(#[trigger] ops[j].0),
    ensures
        forall|i: int| 0 <= i < written_leaves(ops).len() ==> q(#[trigger] written_leaves(ops)[i].key_path),
    decreases ops.len(),
{
    if ops.len() > 0 {
        assert(ops.last() == ops[ops.len() - 1]);
        let init = ops.drop_last();
        assert forall|j: int| 0 <= j < init.len() implies q(#[trigger] init[j].0) by {
            assert(init[j] == ops[j]);
        }
        lemma_written_keys(init, q);
        let w = written_leaves(init);
        let all = written_leaves(ops);
        assert forall|i: int| 0 <= i < all.len() implies q(#[trigger] all[i].key_path) by {
            if i < w.len() {
                assert(all[i] == w[i]);
            }
        }
    }
}

proof fn lemma_count_below_bound(ops: Seq<KeyOp>, key: KeyPath)
    ensures
        crate::update::count_below(ops, key) <= ops.len(),
    decreases ops.len(),
{
    if ops.len() > 0 {
        lemma_count_below_bound(ops.drop_last(), key);
    }
}

proof fn lemma_spliced_keys(t: Option<LeafData>, ops: Seq<KeyOp>, q: spec_fn(KeyPath) -> bool)
    requires
        forall|j: int| 0 <= j < ops.len() ==> q(#[trigger] ops[j].0),
        t matches Some(l) ==> q(l.key_path),
    ensures
        forall|i: int| 0 <= i < spliced(t, ops).len() ==> q(#[trigger] spliced(t, ops)[i].key_path),
{
    lemma_written_keys(ops, q);
    match t {
        Some(l) => {
            if !crate::update::touches(ops, l.key_path) {
                let k = crate::update::count_below(ops, l.key_path) as int;
                lemma_count_below_bound(ops, l.key_path);
                let lo = ops.take(k);
                let hi = ops.skip(k);
                assert forall|j: int| 0 <= j < lo.len() implies q(#[trigger] lo[j].0) by {
                    assert(lo[j] == ops[j]);
                }
                assert forall|j: int| 0 <= j < hi.len() implies q(#[trigger] hi[j].0) by {
                    assert(hi[j] == ops[j + k]);
                }
                lemma_written_keys(lo, q);
                lemma_written_keys(hi, q);
                let w1 = written_leaves(lo);
                let w2 = written_leaves(hi);
                let all = w1 + seq![l] + w2;
                assert forall|i: int| 0 <= i < all.len() implies q(#[trigger] all[i].key_path) by {
                    if i < w1.len() {
                        assert(all[i] == w1[i]);
                    } else if i == w1.len() {
                        assert(all[i] == l);
                    } else {
                        assert(all[i] == w2[i - w1.len() - 1]);
                    }
                }
            }
        },
        None => {},
    }
}

/// With no error, every operation of the batch's single path lies under its prefix.
proof fn lemma_ops_in_scope(ops: Seq<KeyOp>, prefix: Seq<bool>, n: nat)
    requires
        ops_error(ops, prefix, n) is None,
        n <= ops.len(),
    ensures
        forall|j: int| 0 <= j < n ==> is_prefix(prefix, key_bits(#[trigger] ops[j].0)),
    decreases n,
{
    if n > 0 {
        lemma_ops_in_scope(ops, prefix, (n - 1) as nat);
        assert(op_check(ops, prefix, n - 1) is None);
    }
}

proof fn lemma_select_sat(s: Seq<LeafData>, p: spec_fn(LeafData) -> bool)
    ensures
        forall|i: int| 0 <= i < select(s, p).len() ==> p(#[trigger] select(s, p)[i]),
    decreases s.len(),
{
    if s.len() > 0 {
        lemma_select_sat(s.drop_last(), p);
        let r = select(s.drop_last(), p);
        if p(s.last()) {
            assert forall|i: int| 0 <= i < r.len() + 1 implies p(#[trigger] r.push(s.last())[i]) by {
                if i < r.len() {
                    assert(r.push(s.last())[i] == r[i]);
                }
            }
        }
    }
}

/// The facts about one honest path and its operations that the climb needs.
pub open spec fn climb_setting<H: NodeHasher>(
    leaves: Seq<LeafData>,
    key: KeyPath,
    ops: Seq<KeyOp>,
) -> bool {
    let sibs = lookup_siblings::<H>(0, leaves, key);
    let n = sibs.len() as int;
    let after = after_update(leaves, key, n, single(lookup_leaves(0, leaves, key)), ops);
    &&& n <= MAX_DEPTH
    &&& forall|d: int|
        0 <= d < n ==> #[trigger] sibs[d] == subtrie_root::<H>(
            d + 1,
            with_bit(select(after, agreeing(key, d)), d, !bit_at(key@, d)),
        )
    &&& select(after, agreeing(key, n)) == spliced(single(lookup_leaves(0, leaves, key)), ops)
    &&& select(after, agreeing(key, 0)) == after
}

proof fn lemma_climb<H: NodeHasher>(
    leaves: Seq<LeafData>,
    key: KeyPath,
    ops: Seq<KeyOp>,
    k: int,
)
    requires
        kinds_separated::<H>(),
        climb_setting::<H>(leaves, key, ops),
        0 <= k <= lookup_siblings::<H>(0, leaves, key).len(),
    ensures
        ({
            let sibs = lookup_siblings::<H>(0, leaves, key);
            let n = sibs.len() as int;
            let after = after_update(leaves, key, n, single(lookup_leaves(0, leaves, key)), ops);
            climb::<H>(
                subtrie_root::<H>(n - k, select(after, agreeing(key, n - k))),
                n,
                k as nat,
                n as nat,
                key_bits(key).take(n),
                sibs,
                Seq::empty(),
            ).0 == subtrie_root::<H>(0, select(after, agreeing(key, 0)))
        }),
    decreases lookup_siblings::<H>(0, leaves, key).len() - k,
{
    let sibs = lookup_siblings::<H>(0, leaves, key);
    let n = sibs.len() as int;
    let after = after_update(leaves, key, n, single(lookup_leaves(0, leaves, key)), ops);
    if k < n {
        let d = n - k - 1;
        let sd = select(after, agreeing(key, d));
        lemma_split_agreeing(after, key, d);
        lemma_compact_matches_build::<H>(d, sd, bit_at(key@, d));
        assert(sibs[sibs.len() - 1 - k] == sibs[d]);
        assert(key_bits(key).take(n)[n - 1 - k] == bit_at(key@, d));
        assert(n - (k + 1) == d);
        lemma_climb::<H>(leaves, key, ops, k + 1);
    }
}

/// The set-up of the climb holds for an honest path whose operations lie under its prefix.
proof fn lemma_climb_setting<H: NodeHasher>(leaves: Seq<LeafData>, key: KeyPath, ops: Seq<KeyOp>)
    requires
        forall|j: int|
            0 <= j < ops.len() ==> is_prefix(
                key_bits(key).take(lookup_siblings::<H>(0, leaves, key).len() as int),
                key_bits(#[trigger] ops[j].0),
            ),
    ensures
        climb_setting::<H>(leaves, key, ops),
{
    let sibs = lookup_siblings::<H>(0, leaves, key);
    let n = sibs.len() as int;
    let f = lookup_leaves(0, leaves, key);
    let t = single(f);
    let a = select(leaves, parting(key, n));
    let b = spliced(t, ops);
    let after = a + b;
    lemma_lookup_descent::<H>(0, leaves, key);
    lemma_select_all(leaves, agreeing(key, 0));
    lemma_lookup_select::<H>(leaves, key, 0);
    // The spliced leaves lie under the path.
    let q = |k: KeyPath| agrees_up_to(k, key, n);
    assert forall|j: int| 0 <= j < ops.len() implies q(#[trigger] ops[j].0) by {
        assert(is_prefix(key_bits(key).take(n), key_bits(ops[j].0)));
        assert forall|i: int| 0 <= i < n implies #[trigger] bit_at(ops[j].0@, i) == bit_at(key@, i) by {
            assert(key_bits(key).take(n)[i] == key_bits(ops[j].0)[i]);
        }
    }
    lemma_select_sat(leaves, agreeing(key, n));
    if f.len() == 1 {
        assert(agreeing(key, n)(f[0]));
    }
    lemma_spliced_keys(t, ops, q);
    assert forall|i: int| 0 <= i < b.len() implies agreeing(key, n)(#[trigger] b[i]) by {
        assert(q(b[i].key_path));
    }
    // Under the path only the spliced leaves remain.
    lemma_select_concat(a, b, agreeing(key, n));
    lemma_select_select(leaves, parting(key, n), agreeing(key, n));
    assert forall|i: int| 0 <= i < leaves.len() implies !both(parting(key, n), agreeing(key, n))(
        #[trigger] leaves[i],
    ) by {}
    lemma_select_none(leaves, both(parting(key, n), agreeing(key, n)));
    lemma_select_all(b, agreeing(key, n));
    assert(select(after, agreeing(key, n)) =~= b);
    // Everything agrees on no bits.
    lemma_select_all(after, agreeing(key, 0));
    // Off the path at each bit, the leaves are those of the trie before.
    assert forall|d: int| 0 <= d < n implies #[trigger] sibs[d] == subtrie_root::<H>(
        d + 1,
        with_bit(select(after, agreeing(key, d)), d, !bit_at(key@, d)),
    ) by {
        let pr = both(agreeing(key, d), bit_is(d, !bit_at(key@, d)));
        lemma_split_agreeing(after, key, d);
        lemma_split_agreeing(leaves, key, d);
        lemma_select_concat(a, b, pr);
        assert forall|i: int| 0 <= i < b.len() implies !pr(#[trigger] b[i]) by {
            assert(agreeing(key, n)(b[i]));
            assert(bit_at(b[i].key_path@, d) == bit_at(key@, d));
        }
        lemma_select_none(b, pr);
        lemma_select_select(leaves, parting(key, n), pr);
        assert forall|i: int| 0 <= i < leaves.len() implies both(parting(key, n), pr)(
            #[trigger] leaves[i],
        ) == pr(leaves[i]) by {
            if pr(leaves[i]) {
                assert(bit_at(leaves[i].key_path@, d) != bit_at(key@, d));
                assert(!agrees_up_to(leaves[i].key_path, key, n));
            }
        }
        lemma_select_ext(leaves, both(parting(key, n), pr), pr);
        assert(select(after, pr) =~= select(leaves, pr));
        assert(0 + d + 1 == d + 1);
    }
}

/// A batch of one honestly produced path: in a trie with distinct keys, the batch update of
/// the path that the lookup of `key` produces, with operations that lie under its prefix,
/// gives the root of the trie in which the leaves off the path stay and the operations are
/// applied to the path's terminal leaf.
pub proof fn lemma_single_path_round_trip<H: NodeHasher>(
    leaves: Seq<LeafData>,
    key: KeyPath,
    u: PathUpdate,
)
    requires
        kinds_separated::<H>(),
        distinct_keys(leaves),
        u.inner@ == honest_path::<H>(leaves, key),
        update_error(subtrie_root::<H>(0, leaves), seq![u]) is None,
    ensures
        lookup_leaves(0, leaves, key).len() <= 1,
        updated_root::<H>(subtrie_root::<H>(0, leaves), seq![u]) == subtrie_root::<H>(
            0,
            after_update(
                leaves,
                key,
                u.inner@.prefix.len() as int,
                u.inner@.terminal,
                u.ops@,
            ),
        ),
{
    let root = subtrie_root::<H>(0, leaves);
    let paths = seq![u];
    let sibs = lookup_siblings::<H>(0, leaves, key);
    let n = sibs.len() as int;
    lemma_lookup_terminal_answers::<H>(leaves, key);
    lemma_lookup_descent::<H>(0, leaves, key);
    assert(paths[0] == u);
    assert(update_error(root, paths) == crate::path_proof::path_check(root, paths, 0));
    lemma_ops_in_scope(u.ops@, u.inner@.prefix, u.ops@.len());
    lemma_climb_setting::<H>(leaves, key, u.ops@);
    lemma_climb::<H>(leaves, key, u.ops@, 0);
    assert(up_layers(paths, 0) == n);
    assert(frontier::<H>(paths, 0) == Seq::<(Node, usize)>::empty());
}

} // verus!
