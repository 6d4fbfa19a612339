//! Byte strings as stored keys: concatenation under a prefix, prefix tests, and the
//! lexicographic order in which a key space keeps its entries.
use vstd::prelude::*;

verus! {

/// `key` begins with `prefix`.
pub open spec fn has_prefix(key: Seq<u8>, prefix: Seq<u8>) -> bool {
    prefix.len() <= key.len() && key.subrange(0, prefix.len() as int) == prefix
}

/// Lexicographic comparison of `a` and `b` from position `i` on.
pub open spec fn lex_lt_from(a: Seq<u8>, b: Seq<u8>, i: int) -> bool
    decreases a.len() - i,
{
    if i < 0 || i >= b.len() {
        false
    } else if i >= a.len() {
        true
    } else if a[i] != b[i] {
        a[i] < b[i]
    } else {
        lex_lt_from(a, b, i + 1)
    }
}

/// `a` comes strictly before `b` in lexicographic byte order.
pub open spec fn lex_lt(a: Seq<u8>, b: Seq<u8>) -> bool {
    lex_lt_from(a, b, 0)
}

/// `a` and `b` have the same length and the same bytes from position `i` on.
pub open spec fn same_from(a: Seq<u8>, b: Seq<u8>, i: int) -> bool {
    a.len() == b.len() && forall|j: int| i <= j < a.len() ==> a[j] == b[j]
}

/// From any position on, no byte string comes before itself.
proof fn lemma_lex_irreflexive_from(a: Seq<u8>, i: int)
    requires
        0 <= i,
    ensures
        !lex_lt_from(a, a, i),
    decreases a.len() - i,
{
    if i < a.len() {
        lemma_lex_irreflexive_from(a, i + 1);
    }
}

/// From a position up to which they agree, two byte strings are the same
/// or one comes before the other.
proof fn lemma_lex_trichotomy_from(a: Seq<u8>, b: Seq<u8>, i: int)
    requires
        0 <= i,
        i <= a.len(),
        i <= b.len(),
    ensures
        lex_lt_from(a, b, i) || lex_lt_from(b, a, i) || same_from(a, b, i),
    decreases a.len() - i,
{
    if i < a.len() && i < b.len() && a[i] == b[i] {
        lemma_lex_trichotomy_from(a, b, i + 1);
        if same_from(a, b, i + 1) {
            assert(same_from(a, b, i));
        }
    }
}

/// From any position on, the order is asymmetric.
proof fn lemma_lex_asymmetric_from(a: Seq<u8>, b: Seq<u8>, i: int)
    requires
        0 <= i,
        lex_lt_from(a, b, i),
    ensures
        !lex_lt_from(b, a, i),
    decreases a.len() - i,
{
    if i < a.len() && i < b.len() && a[i] == b[i] {
        lemma_lex_asymmetric_from(a, b, i + 1);
    }
}

/// From any position on, the order is transitive.
proof fn lemma_lex_transitive_from(a: Seq<u8>, b: Seq<u8>, c: Seq<u8>, i: int)
    requires
        0 <= i,
        lex_lt_from(a, b, i),
        lex_lt_from(b, c, i),
    ensures
        lex_lt_from(a, c, i),
    decreases a.len() - i,
{
    if i < a.len() && i < b.len() && i < c.len() && a[i] == b[i] && b[i] == c[i] {
        lemma_lex_transitive_from(a, b, c, i + 1);
    }
}

/// No byte string comes before itself.
pub proof fn lemma_lex_irreflexive(a: Seq<u8>)
    ensures
        !lex_lt(a, a),
{
    lemma_lex_irreflexive_from(a, 0);
}

/// Two byte strings are equal, or one comes before the other.
pub proof fn lemma_lex_trichotomy(a: Seq<u8>, b: Seq<u8>)
    ensures
        lex_lt(a, b) || lex_lt(b, a) || a == b,
{
    lemma_lex_trichotomy_from(a, b, 0);
    if same_from(a, b, 0) {
        assert(a =~= b);
    }
}

/// The order is asymmetric.
pub proof fn lemma_lex_asymmetric(a: Seq<u8>, b: Seq<u8>)
    requires
        lex_lt(a, b),
    ensures
        !lex_lt(b, a),
        a != b,
{
    lemma_lex_asymmetric_from(a, b, 0);
    lemma_lex_irreflexive(a);
}

/// The order is transitive.
pub proof fn lemma_lex_transitive(a: Seq<u8>, b: Seq<u8>, c: Seq<u8>)
    requires
        lex_lt(a, b),
        lex_lt(b, c),
    ensures
        lex_lt(a, c),
{
    lemma_lex_transitive_from(a, b, c, 0);
}

/// From any position inside the prefix, a key under it is not below it.
proof fn lemma_prefix_not_above_from(p: Seq<u8>, k: Seq<u8>, i: int)
    requires
        0 <= i <= p.len(),
    ensures
        !lex_lt_from(p + k, p, i),
    decreases p.len() - i,
{
    if i < p.len() {
        lemma_prefix_not_above_from(p, k, i + 1);
    }
}

/// A key under a prefix never comes before the prefix itself.
pub proof fn lemma_prefix_is_lower_bound(p: Seq<u8>, key: Seq<u8>)
    requires
        has_prefix(key, p),
    ensures
        !lex_lt(key, p),
{
    let k = key.subrange(p.len() as int, key.len() as int);
    assert(key =~= p + k);
    lemma_prefix_not_above_from(p, k, 0);
}

/// The keys under one prefix are contiguous, seen from a position up to
/// which the key in question agrees with the prefix.
proof fn lemma_prefix_range_convex_from(p: Seq<u8>, b: Seq<u8>, c: Seq<u8>, i: int)
    requires
        0 <= i <= p.len(),
        i <= b.len(),
        forall|j: int| 0 <= j < i ==> b[j] == p[j],
        has_prefix(c, p),
        !lex_lt_from(b, p, i),
        lex_lt_from(b, c, i),
    ensures
        has_prefix(b, p),
    decreases p.len() - i,
{
    if i == p.len() {
        assert(b.subrange(0, p.len() as int) =~= p);
    } else {
        assert(c[i] == c.subrange(0, p.len() as int)[i]);
        lemma_prefix_range_convex_from(p, b, c, i + 1);
    }
}

/// The keys under one prefix are contiguous in the order: a key that is not
/// below the prefix and lies before a key under the prefix is under it too.
pub proof fn lemma_prefix_range_convex(p: Seq<u8>, b: Seq<u8>, c: Seq<u8>)
    requires
        !lex_lt(b, p),
        lex_lt(b, c),
        has_prefix(c, p),
    ensures
        has_prefix(b, p),
{
    lemma_prefix_range_convex_from(p, b, c, 0);
}

/// Behind a common prefix two keys compare as they do without it.
proof fn lemma_lex_under_prefix_from(p: Seq<u8>, a: Seq<u8>, b: Seq<u8>, i: int)
    requires
        0 <= i,
    ensures
        lex_lt_from(p + a, p + b, p.len() + i) == lex_lt_from(a, b, i),
    decreases a.len() - i,
{
    if i < a.len() && i < b.len() {
        assert((p + a)[p.len() + i] == a[i]);
        assert((p + b)[p.len() + i] == b[i]);
        lemma_lex_under_prefix_from(p, a, b, i + 1);
    }
}

/// Inside a common prefix nothing decides the comparison.
proof fn lemma_lex_common_prefix_from(p: Seq<u8>, a: Seq<u8>, b: Seq<u8>, i: int)
    requires
        0 <= i <= p.len(),
    ensures
        lex_lt_from(p + a, p + b, i) == lex_lt_from(p + a, p + b, p.len() as int),
    decreases p.len() - i,
{
    if i < p.len() {
        assert((p + a)[i] == (p + b)[i]);
        lemma_lex_common_prefix_from(p, a, b, i + 1);
    }
}

/// Putting one prefix in front of two keys keeps their order.
pub proof fn lemma_lex_under_prefix(p: Seq<u8>, a: Seq<u8>, b: Seq<u8>)
    ensures
        lex_lt(p + a, p + b) == lex_lt(a, b),
{
    lemma_lex_common_prefix_from(p, a, b, 0);
    lemma_lex_under_prefix_from(p, a, b, 0);
}

/// The stored key of `key` under `prefix`: the prefix followed by the key.
pub fn make_prefixed_key(prefix: Vec<u8>, key: &[u8]) -> (prefixed_key: Vec<u8>)
    ensures
        prefixed_key@ == prefix@ + key@,
{
    let mut prefixed_key = prefix;
    prefixed_key.extend_from_slice(key);
    assert(prefixed_key@ =~= prefix@ + key@);
    prefixed_key
}

/// A copy of `bytes`.
pub fn copy_bytes(bytes: &[u8]) -> (copy: Vec<u8>)
    ensures
        copy@ == bytes@,
{
    let mut copy: Vec<u8> = Vec::new();
    copy.extend_from_slice(bytes);
    assert(copy@ =~= bytes@);
    copy
}

/// Whether `a` and `b` hold the same bytes.
pub fn bytes_equal(a: &[u8], b: &[u8]) -> (equal: bool)
    ensures
        equal == (a@ == b@),
{
    if a.len() != b.len() {
        return false;
    }
    let mut i: usize = 0;
    while i < a.len()
        invariant
            a.len() == b.len(),
            i <= a.len(),
            forall|j: int| 0 <= j < i ==> a@[j] == b@[j],
        decreases a.len() - i,
    {
        if a[i] != b[i] {
            return false;
        }
        i += 1;
    }
    assert(a@ =~= b@);
    true
}

/// Whether `a` comes strictly before `b` in lexicographic byte order.
pub fn bytes_less(a: &[u8], b: &[u8]) -> (less: bool)
    ensures
        less == lex_lt(a@, b@),
{
    let mut i: usize = 0;
    while i < a.len() && i < b.len()
        invariant
            i <= a.len(),
            i <= b.len(),
            lex_lt(a@, b@) == lex_lt_from(a@, b@, i as int),
        decreases a.len() - i,
    {
        if a[i] != b[i] {
            return a[i] < b[i];
        }
        i += 1;
    }
    i < b.len()
}

/// Whether `key` begins with `prefix`.
pub fn starts_with(key: &[u8], prefix: &[u8]) -> (starts: bool)
    ensures
        starts == has_prefix(key@, prefix@),
{
    if key.len() < prefix.len() {
        return false;
    }
    let mut i: usize = 0;
    while i < prefix.len()
        invariant
            prefix.len() <= key.len(),
            i <= prefix.len(),
            forall|j: int| 0 <= j < i ==> key@[j] == prefix@[j],
        decreases prefix.len() - i,
    {
        if key[i] != prefix[i] {
            assert(key@.subrange(0, prefix@.len() as int)[i as int] == key@[i as int]);
            return false;
        }
        i += 1;
    }
    assert(key@.subrange(0, prefix@.len() as int) =~= prefix@);
    true
}

/// The part of `key` behind its first `n` bytes.
pub fn strip_prefix(key: &[u8], n: usize) -> (rest: Vec<u8>)
    requires
        n <= key@.len(),
    ensures
        rest@ == key@.subrange(n as int, key@.len() as int),
{
    let mut rest: Vec<u8> = Vec::new();
    let mut i: usize = n;
    while i < key.len()
        invariant
            n <= i <= key.len(),
            rest@ == key@.subrange(n as int, i as int),
        decreases key.len() - i,
    {
        rest.push(key[i]);
        assert(rest@ =~= key@.subrange(n as int, i + 1));
        i += 1;
    }
    rest
}

} // verus!
