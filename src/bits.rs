//! Bit sequences: common prefixes, prefix tests and the lexicographic orders on bit paths
//! and on key paths.

use crate::trie::{key_bit, key_bits, KeyPath, MAX_DEPTH};
use vstd::prelude::*;

verus! {

/// The length of the common prefix of `a` and `b`, counting from position `i` on.
pub open spec fn shared_from(a: Seq<bool>, b: Seq<bool>, i: nat) -> nat
    decreases a.len() - i,
{
    if i < a.len() && i < b.len() && a[i as int] == b[i as int] {
        shared_from(a, b, i + 1)
    } else {
        i
    }
}

/// The number of leading bits that `a` and `b` have in common.
pub open spec fn shared_len(a: Seq<bool>, b: Seq<bool>) -> nat {
    shared_from(a, b, 0)
}

/// What `shared_from` returns: a common prefix that stops at the end of one sequence or at
/// the first differing bit.
pub proof fn lemma_shared_from(a: Seq<bool>, b: Seq<bool>, i: nat)
    requires
        i <= a.len(),
        i <= b.len(),
    ensures
        i <= shared_from(a, b, i) <= a.len(),
        shared_from(a, b, i) <= b.len(),
        forall|j: int| i <= j < shared_from(a, b, i) ==> a[j] == b[j],
        shared_from(a, b, i) == a.len() || shared_from(a, b, i) == b.len() || a[shared_from(
            a,
            b,
            i,
        ) as int] != b[shared_from(a, b, i) as int],
    decreases a.len() - i,
{
    if i < a.len() && i < b.len() && a[i as int] == b[i as int] {
        lemma_shared_from(a, b, i + 1);
    }
}

/// The common prefix of two bit paths is no longer than either.
pub proof fn lemma_shared_from_bound(a: Seq<bool>, b: Seq<bool>)
    ensures
        shared_len(a, b) <= a.len(),
        shared_len(a, b) <= b.len(),
{
    lemma_shared_from(a, b, 0);
}

/// Whether `p` is a prefix of `s`.
pub open spec fn is_prefix(p: Seq<bool>, s: Seq<bool>) -> bool {
    p.len() <= s.len() && forall|i: int| 0 <= i < p.len() ==> p[i] == s[i]
}

/// Whether bit path `a` comes before bit path `b` with neither a prefix of the other: at
/// their first differing bit `a` holds 0 and `b` holds 1.
pub open spec fn strictly_before(a: Seq<bool>, b: Seq<bool>) -> bool {
    let n = shared_len(a, b);
    n < a.len() && n < b.len() && !a[n as int] && b[n as int]
}

/// The length of the common prefix of two byte strings, counting from position `i` on.
pub open spec fn shared_bytes_from(a: Seq<u8>, b: Seq<u8>, i: nat) -> nat
    decreases a.len() - i,
{
    if i < a.len() && i < b.len() && a[i as int] == b[i as int] {
        shared_bytes_from(a, b, i + 1)
    } else {
        i
    }
}

/// Whether key path `a` is less than key path `b` in lexicographic byte order, which is the
/// lexicographic order of their bits.
pub open spec fn key_lt(a: KeyPath, b: KeyPath) -> bool {
    let n = shared_bytes_from(a@, b@, 0);
    n < 32 && a[n as int] < b[n as int]
}

/// Count the leading bits that two bit paths have in common.
pub fn shared_bits(a: &[bool], b: &[bool]) -> (r: usize)
    ensures
        r == shared_len(a@, b@),
{
    let mut i: usize = 0;
    while i < a.len() && i < b.len() && a[i] == b[i]
        invariant
            i <= a.len(),
            i <= b.len(),
            shared_from(a@, b@, i as nat) == shared_len(a@, b@),
        decreases a.len() - i,
    {
        i = i + 1;
    }
    i
}

/// Whether key path `a` is less than key path `b`.
pub fn key_less(a: &KeyPath, b: &KeyPath) -> (r: bool)
    ensures
        r == key_lt(*a, *b),
{
    let mut i: usize = 0;
    while i < 32 && a[i] == b[i]
        invariant
            i <= 32,
            shared_bytes_from(a@, b@, i as nat) == shared_bytes_from(a@, b@, 0),
        decreases 32 - i,
    {
        i = i + 1;
    }
    i < 32 && a[i] < b[i]
}

/// Whether the bit path `prefix` is a prefix of the bits of `key`.
pub fn key_starts_with(key: &KeyPath, prefix: &[bool]) -> (r: bool)
    ensures
        r == is_prefix(prefix@, key_bits(*key)),
{
    if prefix.len() > MAX_DEPTH {
        return false;
    }
    let mut i: usize = 0;
    while i < prefix.len()
        invariant
            prefix.len() <= MAX_DEPTH,
            i <= prefix.len(),
            forall|j: int| 0 <= j < i ==> prefix@[j] == key_bits(*key)[j],
        decreases prefix.len() - i,
    {
        if key_bit(key, i) != prefix[i] {
            return false;
        }
        i = i + 1;
    }
    true
}

} // verus!
