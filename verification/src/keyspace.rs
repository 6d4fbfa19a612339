//! One key space of the backend: a byte-key/byte-value map that keeps its
//! entries in lexicographic key order, so that the keys under one prefix form
//! one contiguous range.
use vstd::prelude::*;
use crate::bytes::{
    bytes_equal, bytes_less, copy_bytes, has_prefix, lex_lt, lemma_lex_asymmetric,
    lemma_lex_irreflexive, lemma_lex_transitive, lemma_lex_trichotomy,
    lemma_prefix_is_lower_bound, lemma_prefix_range_convex, starts_with,
};

verus! {

/// The entries of a key space as mathematical pairs `(key, value)`.
pub type Pairs = Seq<(Seq<u8>, Seq<u8>)>;

/// The keys of `s` strictly increase.
pub open spec fn sorted(s: Pairs) -> bool {
    forall|i: int, j: int| #![trigger s[i], s[j]] 0 <= i < j < s.len() ==> lex_lt(s[i].0, s[j].0)
}

/// Some entry of `s` has the key `k`.
pub open spec fn has_key(s: Pairs, k: Seq<u8>) -> bool {
    exists|i: int| 0 <= i < s.len() && (#[trigger] s[i]).0 == k
}

/// The position of an entry of `s` with the key `k`.
pub open spec fn index_of_key(s: Pairs, k: Seq<u8>) -> int {
    choose|i: int| 0 <= i < s.len() && (#[trigger] s[i]).0 == k
}

/// The map that the entries `s` stand for.
pub open spec fn entries_map(s: Pairs) -> Map<Seq<u8>, Seq<u8>> {
    Map::new(|k: Seq<u8>| has_key(s, k), |k: Seq<u8>| s[index_of_key(s, k)].1)
}

/// The map `m` without the keys under prefix `p`.
pub open spec fn without_prefix(m: Map<Seq<u8>, Seq<u8>>, p: Seq<u8>) -> Map<Seq<u8>, Seq<u8>> {
    Map::new(|k: Seq<u8>| m.contains_key(k) && !has_prefix(k, p), |k: Seq<u8>| m[k])
}

/// In sorted entries a key occurs once, so the map holds each entry's value.
pub proof fn lemma_sorted_lookup(s: Pairs, i: int)
    requires
        sorted(s),
        0 <= i < s.len(),
    ensures
        has_key(s, s[i].0),
        index_of_key(s, s[i].0) == i,
        entries_map(s).contains_key(s[i].0),
        entries_map(s)[s[i].0] == s[i].1,
{
    let k = s[i].0;
    assert(has_key(s, k));
    let j = index_of_key(s, k);
    if j < i {
        lemma_lex_asymmetric(s[j].0, s[i].0);
    } else if i < j {
        lemma_lex_asymmetric(s[i].0, s[j].0);
    }
}

/// Sorted entries are determined by the map they stand for.
pub proof fn lemma_sorted_unique(s: Pairs, t: Pairs)
    requires
        sorted(s),
        sorted(t),
        entries_map(s) == entries_map(t),
    ensures
        s == t,
{
    lemma_sorted_agree(s, t, if s.len() <= t.len() { s.len() as int } else { t.len() as int });
    lemma_sorted_no_extra(s, t);
    lemma_sorted_no_extra(t, s);
    assert(s =~= t);
}

/// Of two sorted lists for one map that agree as far as both go, the
/// second is no longer than the first.
proof fn lemma_sorted_no_extra(s: Pairs, t: Pairs)
    requires
        sorted(s),
        sorted(t),
        entries_map(s) == entries_map(t),
        forall|j: int| 0 <= j < s.len() && j < t.len() ==> s[j] == t[j],
    ensures
        t.len() <= s.len(),
{
    if s.len() < t.len() {
        let n = s.len() as int;
        lemma_sorted_lookup(t, n);
        assert(entries_map(s).contains_key(t[n].0));
        let j = index_of_key(s, t[n].0);
        assert(s[j] == t[j]);
        lemma_lex_asymmetric(t[j].0, t[n].0);
    }
}

/// Two sorted lists for one map agree on their first `n` entries.
proof fn lemma_sorted_agree(s: Pairs, t: Pairs, n: int)
    requires
        sorted(s),
        sorted(t),
        entries_map(s) == entries_map(t),
        0 <= n <= s.len(),
        n <= t.len(),
    ensures
        forall|j: int| 0 <= j < n ==> s[j] == t[j],
    decreases n,
{
    if n > 0 {
        let i = n - 1;
        lemma_sorted_agree(s, t, i);
        lemma_sorted_lookup(s, i);
        lemma_sorted_lookup(t, i);
        // where does s[i]'s key sit in t, and t[i]'s key in s?
        assert(entries_map(t).contains_key(s[i].0));
        assert(entries_map(s).contains_key(t[i].0));
        let a = index_of_key(t, s[i].0);
        let b = index_of_key(s, t[i].0);
        if a < i {
            assert(s[a] == t[a]);
            lemma_lex_asymmetric(s[a].0, s[i].0);
        }
        if b < i {
            assert(s[b] == t[b]);
            lemma_lex_asymmetric(t[b].0, t[i].0);
        }
        if a > i {
            // t[i] < t[a] = s[i] <= s[b] = t[i]
            if b > i {
                lemma_lex_transitive(t[i].0, t[a].0, s[b].0);
            }
            lemma_lex_irreflexive(t[i].0);
            assert(false);
        }
        assert(s[i].0 == t[i].0);
        assert(entries_map(s)[s[i].0] == entries_map(t)[s[i].0]);
        assert(s[i] == t[i]);
    }
}

/// The entries of `m` under prefix `p`, the prefix taken off their keys.
pub open spec fn subtree_map(m: Map<Seq<u8>, Seq<u8>>, p: Seq<u8>) -> Map<Seq<u8>, Seq<u8>> {
    Map::new(|k: Seq<u8>| m.contains_key(p + k), |k: Seq<u8>| m[p + k])
}

/// The sorted entries that stand for the map `m`.
pub open spec fn canonical_entries(m: Map<Seq<u8>, Seq<u8>>) -> Pairs {
    choose|s: Pairs| sorted(s) && entries_map(s) == m
}

/// Sorted entries are the canonical entries of their map.
pub proof fn lemma_canonical(s: Pairs)
    requires
        sorted(s),
    ensures
        canonical_entries(entries_map(s)) == s,
{
    let c = canonical_entries(entries_map(s));
    lemma_sorted_unique(c, s);
}

/// `pos` is where a cursor that seeks `k` in `s` comes to stand: behind the
/// entries below `k`, before the others.
pub open spec fn is_lower_bound(s: Pairs, k: Seq<u8>, pos: int) -> bool {
    &&& 0 <= pos <= s.len()
    &&& forall|j: int| 0 <= j < pos ==> lex_lt(#[trigger] s[j].0, k)
    &&& forall|j: int| pos <= j < s.len() ==> !lex_lt(#[trigger] s[j].0, k)
}

/// The first position from `i` on whose entry is not under prefix `p`.
pub open spec fn range_end(s: Pairs, p: Seq<u8>, i: int) -> int
    decreases s.len() - i,
{
    if 0 <= i < s.len() && has_prefix(s[i].0, p) {
        range_end(s, p, i + 1)
    } else {
        i
    }
}

/// The entries of `s` from `lo` up to `hi`, the first `n` bytes taken off
/// their keys.
pub open spec fn range_entries(s: Pairs, lo: int, hi: int, n: int) -> Pairs {
    Seq::new(
        (hi - lo) as nat,
        |i: int| (s[lo + i].0.subrange(n, s[lo + i].0.len() as int), s[lo + i].1),
    )
}

/// The positions `lo` up to `hi` hold the entries of `s` under prefix `p`, and no others do.
pub open spec fn is_prefix_range(s: Pairs, p: Seq<u8>, lo: int, hi: int) -> bool {
    &&& 0 <= lo <= hi <= s.len()
    &&& forall|i: int| 0 <= i < s.len() ==> (has_prefix(#[trigger] s[i].0, p) <==> lo <= i < hi)
}

/// From `i` up to `range_end` every entry is under the prefix, and the
/// entry at `range_end`, if there is one, is not.
pub proof fn lemma_range_end(s: Pairs, p: Seq<u8>, i: int)
    requires
        0 <= i <= s.len(),
    ensures
        i <= range_end(s, p, i) <= s.len(),
        forall|j: int| i <= j < range_end(s, p, i) ==> has_prefix(#[trigger] s[j].0, p),
        range_end(s, p, i) == s.len() || !has_prefix(s[range_end(s, p, i)].0, p),
    decreases s.len() - i,
{
    if i < s.len() && has_prefix(s[i].0, p) {
        lemma_range_end(s, p, i + 1);
    }
}

/// In sorted entries the keys under a prefix start where a cursor that seeks
/// the prefix comes to stand, and are contiguous.
pub proof fn lemma_prefix_range(s: Pairs, p: Seq<u8>, lo: int)
    requires
        sorted(s),
        is_lower_bound(s, p, lo),
    ensures
        is_prefix_range(s, p, lo, range_end(s, p, lo)),
{
    let hi = range_end(s, p, lo);
    lemma_range_end(s, p, lo);
    assert forall|i: int| 0 <= i < s.len() implies (has_prefix(#[trigger] s[i].0, p) <==> lo <= i
        < hi) by {
        if i < lo {
            if has_prefix(s[i].0, p) {
                lemma_prefix_is_lower_bound(p, s[i].0);
            }
        } else if i > hi {
            if has_prefix(s[i].0, p) {
                assert(lex_lt(s[hi].0, s[i].0));
                lemma_prefix_range_convex(p, s[hi].0, s[i].0);
            }
        }
    }
}

/// The entries in the range of a prefix, the prefix taken off, are sorted
/// and stand for the map of the entries under the prefix.
pub proof fn lemma_range_is_subtree(s: Pairs, p: Seq<u8>, lo: int, hi: int)
    requires
        sorted(s),
        is_prefix_range(s, p, lo, hi),
    ensures
        sorted(range_entries(s, lo, hi, p.len() as int)),
        entries_map(range_entries(s, lo, hi, p.len() as int)) == subtree_map(entries_map(s), p),
        canonical_entries(subtree_map(entries_map(s), p)) == range_entries(
            s,
            lo,
            hi,
            p.len() as int,
        ),
{
    let n = p.len() as int;
    let t = range_entries(s, lo, hi, n);
    assert forall|i: int| 0 <= i < t.len() implies s[lo + i].0 == p + (#[trigger] t[i]).0 by {
        assert(has_prefix(s[lo + i].0, p));
        assert(s[lo + i].0 =~= p + t[i].0);
    }
    assert forall|i: int, j: int| 0 <= i < j < t.len() implies lex_lt(t[i].0, t[j].0) by {
        assert(s[lo + i].0 == p + t[i].0);
        assert(s[lo + j].0 == p + t[j].0);
        assert(lex_lt(s[lo + i].0, s[lo + j].0));
        crate::bytes::lemma_lex_under_prefix(p, t[i].0, t[j].0);
    }
    let m = subtree_map(entries_map(s), p);
    assert forall|k: Seq<u8>| #[trigger] entries_map(t).contains_key(k) == m.contains_key(k) by {
        if has_key(t, k) {
            let i = index_of_key(t, k);
            assert(s[lo + i].0 == p + t[i].0);
            assert(has_key(s, p + k));
        }
        if has_key(s, p + k) {
            let j = index_of_key(s, p + k);
            assert((p + k).subrange(0, n) =~= p);
            assert(has_prefix(s[j].0, p));
            assert(t[j - lo].0 =~= k);
            assert(has_key(t, k));
        }
    }
    assert forall|k: Seq<u8>| #[trigger] entries_map(t).contains_key(k) implies entries_map(t)[k]
        == m[k] by {
        let i = index_of_key(t, k);
        assert(s[lo + i].0 == p + t[i].0);
        lemma_sorted_lookup(t, i);
        lemma_sorted_lookup(s, lo + i);
    }
    assert(entries_map(t) =~= m);
    lemma_canonical(t);
}

/// The number of entries of `s` that a cursor passes when it seeks `k`.
pub open spec fn lower_bound(s: Pairs, k: Seq<u8>) -> int
    decreases s.len(),
{
    if s.len() == 0 {
        0
    } else if lex_lt(s.last().0, k) {
        s.len() as int
    } else {
        lower_bound(s.drop_last(), k)
    }
}

/// In sorted entries a cursor that seeks `k` comes to stand at `lower_bound`.
pub proof fn lemma_lower_bound(s: Pairs, k: Seq<u8>)
    requires
        sorted(s),
    ensures
        is_lower_bound(s, k, lower_bound(s, k)),
    decreases s.len(),
{
    if s.len() > 0 {
        let rest = s.drop_last();
        if lex_lt(s.last().0, k) {
            assert forall|j: int| 0 <= j < s.len() implies lex_lt(#[trigger] s[j].0, k) by {
                if j < s.len() - 1 {
                    assert(lex_lt(s[j].0, s[s.len() - 1].0));
                    lemma_lex_transitive(s[j].0, s.last().0, k);
                }
            }
        } else {
            assert(sorted(rest)) by {
                assert forall|i: int, j: int| 0 <= i < j < rest.len() implies lex_lt(
                    rest[i].0,
                    rest[j].0,
                ) by {
                    assert(rest[i] == s[i] && rest[j] == s[j]);
                }
            }
            lemma_lower_bound(rest, k);
            let pos = lower_bound(rest, k);
            assert forall|j: int| 0 <= j < pos implies lex_lt(#[trigger] s[j].0, k) by {
                assert(s[j] == rest[j]);
            }
            assert forall|j: int| pos <= j < s.len() implies !lex_lt(#[trigger] s[j].0, k) by {
                if j < rest.len() {
                    assert(s[j] == rest[j]);
                }
            }
        }
    }
}

/// The map `m` is what some key space holds: sorted entries stand for it.
pub open spec fn held(m: Map<Seq<u8>, Seq<u8>>) -> bool {
    sorted(canonical_entries(m)) && entries_map(canonical_entries(m)) == m
}

/// The entries under a prefix of a map that a key space holds are such a
/// map too.
pub proof fn lemma_held_subtree(m: Map<Seq<u8>, Seq<u8>>, p: Seq<u8>)
    requires
        held(m),
    ensures
        held(subtree_map(m, p)),
{
    let s = canonical_entries(m);
    lemma_lower_bound(s, p);
    let lo = lower_bound(s, p);
    lemma_prefix_range(s, p, lo);
    lemma_range_is_subtree(s, p, lo, range_end(s, p, lo));
}

/// Putting a new key in where a cursor that seeks it comes to stand leaves
/// the entries sorted.
pub proof fn lemma_sorted_insert(s: Pairs, pos: int, k: Seq<u8>, v: Seq<u8>)
    requires
        sorted(s),
        is_lower_bound(s, k, pos),
        pos == s.len() || s[pos].0 != k,
    ensures
        sorted(s.insert(pos, (k, v))),
{
    let t = s.insert(pos, (k, v));
    if pos < s.len() {
        lemma_lex_trichotomy(s[pos].0, k);
    }
    assert forall|i: int, j: int| 0 <= i < j < t.len() implies lex_lt(t[i].0, t[j].0) by {
        if j < pos {
            assert(t[i] == s[i] && t[j] == s[j]);
        } else if j == pos {
            assert(t[i] == s[i]);
        } else if i == pos {
            assert(t[j] == s[j - 1]);
            if j - 1 > pos {
                assert(lex_lt(s[pos].0, s[j - 1].0));
                lemma_lex_transitive(k, s[pos].0, s[j - 1].0);
            }
        } else if i < pos {
            assert(t[i] == s[i] && t[j] == s[j - 1]);
        } else {
            assert(t[i] == s[i - 1] && t[j] == s[j - 1]);
        }
    }
}

/// A key space can hold one entry more.
pub proof fn lemma_held_insert(m: Map<Seq<u8>, Seq<u8>>, k: Seq<u8>, v: Seq<u8>)
    requires
        held(m),
    ensures
        held(m.insert(k, v)),
{
    let s = canonical_entries(m);
    lemma_lower_bound(s, k);
    let pos = lower_bound(s, k);
    if pos < s.len() && s[pos].0 == k {
        let t = s.update(pos, (k, v));
        assert forall|i: int, j: int| 0 <= i < j < t.len() implies lex_lt(t[i].0, t[j].0) by {
            assert(t[i].0 == s[i].0 && t[j].0 == s[j].0);
        }
        lemma_update_map(s, t, pos);
        lemma_canonical(t);
    } else {
        let t = s.insert(pos, (k, v));
        lemma_sorted_insert(s, pos, k, v);
        lemma_insert_map(s, t, pos);
        lemma_canonical(t);
    }
}

/// A key space can hold one entry less.
pub proof fn lemma_held_remove(m: Map<Seq<u8>, Seq<u8>>, k: Seq<u8>)
    requires
        held(m),
    ensures
        held(m.remove(k)),
{
    let s = canonical_entries(m);
    if m.contains_key(k) {
        let pos = index_of_key(s, k);
        let t = s.remove(pos);
        lemma_remove_sorted(s, t, pos);
        lemma_remove_map(s, t, pos);
        lemma_canonical(t);
    } else {
        assert(m.remove(k) =~= m);
    }
}

/// Sorted entries without the range of a prefix are sorted and stand for
/// the map without the keys under the prefix.
pub proof fn lemma_cut_range(s: Pairs, p: Seq<u8>, lo: int, hi: int)
    requires
        sorted(s),
        is_prefix_range(s, p, lo, hi),
    ensures
        sorted(s.subrange(0, lo) + s.subrange(hi, s.len() as int)),
        entries_map(s.subrange(0, lo) + s.subrange(hi, s.len() as int)) == without_prefix(
            entries_map(s),
            p,
        ),
{
    let t = s.subrange(0, lo) + s.subrange(hi, s.len() as int);
    let cut = hi - lo;
    assert forall|i: int, j: int| 0 <= i < j < t.len() implies lex_lt(t[i].0, t[j].0) by {
        let a = if i < lo { i } else { i + cut };
        let b = if j < lo { j } else { j + cut };
        assert(t[i] == s[a] && t[j] == s[b]);
    }
    assert forall|k: Seq<u8>| #[trigger]
        entries_map(t).contains_key(k) == without_prefix(entries_map(s), p).contains_key(k) by {
        if has_key(t, k) {
            let i = index_of_key(t, k);
            let j = if i < lo { i } else { i + cut };
            assert(t[i] == s[j]);
            assert(has_key(s, k));
        }
        if has_key(s, k) && !has_prefix(k, p) {
            let j = index_of_key(s, k);
            let i = if j < lo { j } else { j - cut };
            assert(t[i] == s[j]);
            assert(has_key(t, k));
        }
    }
    assert forall|k: Seq<u8>| #[trigger] entries_map(t).contains_key(k) implies entries_map(t)[k]
        == entries_map(s)[k] by {
        let i = index_of_key(t, k);
        let j = if i < lo { i } else { i + cut };
        assert(t[i] == s[j]);
        lemma_sorted_lookup(t, i);
        lemma_sorted_lookup(s, j);
    }
    assert(entries_map(t) =~= without_prefix(entries_map(s), p));
}

/// A key space can do without the keys under a prefix.
pub proof fn lemma_held_without_prefix(m: Map<Seq<u8>, Seq<u8>>, p: Seq<u8>)
    requires
        held(m),
    ensures
        held(without_prefix(m, p)),
{
    let s = canonical_entries(m);
    lemma_lower_bound(s, p);
    let lo = lower_bound(s, p);
    let hi = range_end(s, p, lo);
    lemma_prefix_range(s, p, lo);
    lemma_cut_range(s, p, lo, hi);
    lemma_canonical(s.subrange(0, lo) + s.subrange(hi, s.len() as int));
}

/// One stored entry.
pub struct Entry {
    pub key: Vec<u8>,
    pub value: Vec<u8>,
}

/// The entries `v` as mathematical pairs.
pub open spec fn pairs_of(v: Seq<Entry>) -> Pairs {
    Seq::new(v.len(), |i: int| (v[i].key@, v[i].value@))
}

/// A byte-key/byte-value map with ordered entries.
pub struct KeySpace {
    entries: Vec<Entry>,
}

impl View for KeySpace {
    type V = Map<Seq<u8>, Seq<u8>>;

    /// The map that the key space holds.
    open spec fn view(&self) -> Map<Seq<u8>, Seq<u8>> {
        entries_map(self.entries())
    }
}

impl KeySpace {
    /// The entries in the order in which a cursor meets them.
    pub closed spec fn entries(&self) -> Pairs {
        pairs_of(self.entries@)
    }

    /// The entries are in strictly increasing key order.
    pub open spec fn wf(&self) -> bool {
        sorted(self.entries())
    }

    /// What a key space in order holds is held.
    pub proof fn lemma_held(&self)
        requires
            self.wf(),
        ensures
            held(self@),
    {
        lemma_canonical(self.entries());
    }

    /// An empty key space.
    pub fn new() -> (space: KeySpace)
        ensures
            space.wf(),
            space.entries() == Seq::<(Seq<u8>, Seq<u8>)>::empty(),
            space@ == Map::<Seq<u8>, Seq<u8>>::empty(),
    {
        let space = KeySpace { entries: Vec::new() };
        assert(space.entries() =~= Seq::<(Seq<u8>, Seq<u8>)>::empty());
        assert(space@ =~= Map::<Seq<u8>, Seq<u8>>::empty());
        space
    }

    /// The number of entries.
    pub fn len(&self) -> (n: usize)
        ensures
            n == self.entries().len(),
    {
        self.entries.len()
    }

    /// The key of the entry at position `i`.
    pub fn key_at(&self, i: usize) -> (key: &Vec<u8>)
        requires
            i < self.entries().len(),
        ensures
            key@ == self.entries()[i as int].0,
    {
        &self.entries[i].key
    }

    /// The value of the entry at position `i`.
    pub fn value_at(&self, i: usize) -> (value: &Vec<u8>)
        requires
            i < self.entries().len(),
        ensures
            value@ == self.entries()[i as int].1,
    {
        &self.entries[i].value
    }

    /// The position of the first entry whose key is not below `key`; the
    /// number of entries if there is none.
    pub fn seek(&self, key: &[u8]) -> (pos: usize)
        requires
            self.wf(),
        ensures
            pos <= self.entries().len(),
            forall|j: int| 0 <= j < pos ==> lex_lt(#[trigger] self.entries()[j].0, key@),
            forall|j: int|
                pos <= j < self.entries().len() ==> !lex_lt(#[trigger] self.entries()[j].0, key@),
    {
        let ghost s = self.entries();
        let mut lo: usize = 0;
        let mut hi: usize = self.entries.len();
        while lo < hi
            invariant
                s == self.entries(),
                sorted(s),
                lo <= hi <= s.len(),
                forall|j: int| 0 <= j < lo ==> lex_lt(#[trigger] s[j].0, key@),
                forall|j: int| hi <= j < s.len() ==> !lex_lt(#[trigger] s[j].0, key@),
            decreases hi - lo,
        {
            let mid = lo + (hi - lo) / 2;
            if bytes_less(self.entries[mid].key.as_slice(), key) {
                proof {
                    assert forall|j: int| 0 <= j < mid + 1 implies lex_lt(
                        #[trigger] s[j].0,
                        key@,
                    ) by {
                        if j < mid {
                            assert(lex_lt(s[j].0, s[mid as int].0));
                            lemma_lex_transitive(s[j].0, s[mid as int].0, key@);
                        }
                    }
                }
                lo = mid + 1;
            } else {
                proof {
                    assert forall|j: int| mid <= j < s.len() implies !lex_lt(
                        #[trigger] s[j].0,
                        key@,
                    ) by {
                        if j > mid && lex_lt(s[j].0, key@) {
                            assert(lex_lt(s[mid as int].0, s[j].0));
                            lemma_lex_transitive(s[mid as int].0, s[j].0, key@);
                        }
                    }
                }
                hi = mid;
            }
        }
        lo
    }

    /// The value stored under `key`, if there is one.
    pub fn get(&self, key: &[u8]) -> (value: Option<Vec<u8>>)
        requires
            self.wf(),
        ensures
            value is Some <==> self@.contains_key(key@),
            value is Some ==> value.unwrap()@ == self@[key@],
    {
        let pos = self.seek(key);
        if pos < self.entries.len() && bytes_equal(self.entries[pos].key.as_slice(), key) {
            proof {
                lemma_sorted_lookup(self.entries(), pos as int);
            }
            Some(copy_bytes(self.entries[pos].value.as_slice()))
        } else {
            proof {
                let s = self.entries();
                if has_key(s, key@) {
                    let j = index_of_key(s, key@);
                    lemma_lex_irreflexive(key@);
                    assert(!lex_lt(s[j].0, key@));
                    assert(j >= pos);
                    if j > pos {
                        assert(lex_lt(s[pos as int].0, s[j].0));
                        lemma_lex_trichotomy(s[pos as int].0, key@);
                        assert(false);
                    }
                    assert(false);
                }
            }
            None
        }
    }

    /// Stores `value` under `key`, in place of what was there.
    pub fn put(&mut self, key: Vec<u8>, value: Vec<u8>)
        requires
            old(self).wf(),
        ensures
            final(self).wf(),
            final(self)@ == old(self)@.insert(key@, value@),
    {
        let pos = self.seek(key.as_slice());
        let ghost s = self.entries();
        let ghost k = key@;
        let ghost v = value@;
        if pos < self.entries.len() && bytes_equal(
            self.entries[pos].key.as_slice(),
            key.as_slice(),
        ) {
            self.entries.set(pos, Entry { key, value });
            proof {
                let t = self.entries();
                assert(t =~= s.update(pos as int, (k, v)));
                assert(sorted(t)) by {
                    assert forall|i: int, j: int| 0 <= i < j < t.len() implies lex_lt(
                        t[i].0,
                        t[j].0,
                    ) by {
                        assert(t[i].0 == s[i].0 && t[j].0 == s[j].0);
                    }
                }
                lemma_update_map(s, t, pos as int);
            }
        } else {
            self.entries.insert(pos, Entry { key, value });
            proof {
                let t = self.entries();
                assert(t =~= s.insert(pos as int, (k, v)));
                lemma_sorted_insert(s, pos as int, k, v);
                lemma_insert_map(s, t, pos as int);
            }
        }
    }

    /// Removes the entry under `key`, if there is one.
    pub fn delete(&mut self, key: &[u8])
        requires
            old(self).wf(),
        ensures
            final(self).wf(),
            final(self)@ == old(self)@.remove(key@),
    {
        let pos = self.seek(key);
        let ghost s = self.entries();
        if pos < self.entries.len() && bytes_equal(self.entries[pos].key.as_slice(), key) {
            self.entries.remove(pos);
            proof {
                let t = self.entries();
                assert(t =~= s.remove(pos as int));
                lemma_remove_sorted(s, t, pos as int);
                lemma_remove_map(s, t, pos as int);
            }
        } else {
            proof {
                if has_key(s, key@) {
                    let j = index_of_key(s, key@);
                    lemma_lex_irreflexive(key@);
                    if j > pos {
                        assert(lex_lt(s[pos as int].0, s[j].0));
                        lemma_lex_trichotomy(s[pos as int].0, key@);
                    }
                    assert(false);
                }
                assert(self@ =~= old(self)@.remove(key@));
            }
        }
    }

    /// Removes every entry whose key begins with `prefix`.
    pub fn clear_prefix(&mut self, prefix: &[u8])
        requires
            old(self).wf(),
        ensures
            final(self).wf(),
            final(self)@ == without_prefix(old(self)@, prefix@),
    {
        let pos = self.seek(prefix);
        let ghost s = self.entries();
        let ghost p = prefix@;
        let ghost mut cut: int = 0;
        let mut more = true;
        while more
            invariant
                self.wf(),
                p == prefix@,
                pos + cut <= s.len(),
                0 <= cut,
                sorted(s),
                self.entries() == s.subrange(0, pos as int) + s.subrange(
                    pos + cut,
                    s.len() as int,
                ),
                forall|j: int| pos <= j < pos + cut ==> has_prefix(#[trigger] s[j].0, p),
                !more ==> (pos + cut == s.len() || !has_prefix(s[pos + cut].0, p)),
            decreases s.len() - pos - cut + if more { 1int } else { 0int },
        {
            if pos < self.entries.len() && starts_with(self.entries[pos].key.as_slice(), prefix) {
                let ghost before = self.entries();
                assert(before[pos as int].0 == self.entries@[pos as int].key@);
                self.entries.remove(pos);
                proof {
                    assert(before[pos as int] == s[pos + cut]);
                    assert(self.entries() =~= before.remove(pos as int));
                    assert(self.entries() =~= s.subrange(0, pos as int) + s.subrange(
                        pos + cut + 1,
                        s.len() as int,
                    ));
                    lemma_remove_sorted(before, self.entries(), pos as int);
                    cut = cut + 1;
                }
            } else {
                proof {
                    if pos < self.entries().len() {
                        assert(self.entries()[pos as int] == s[pos + cut]);
                        assert(self.entries()[pos as int].0 == self.entries@[pos as int].key@);
                    }
                }
                more = false;
            }
        }
        proof {
            let hi = pos + cut;
            // no entry outside the cut range is under the prefix
            assert forall|j: int| 0 <= j < s.len() implies (has_prefix(#[trigger] s[j].0, p) <==> pos
                <= j < hi) by {
                if j < pos {
                    if has_prefix(s[j].0, p) {
                        lemma_prefix_is_lower_bound(p, s[j].0);
                    }
                } else if j > hi {
                    if has_prefix(s[j].0, p) {
                        assert(lex_lt(s[hi].0, s[j].0));
                        lemma_prefix_range_convex(p, s[hi].0, s[j].0);
                    }
                }
            }
            lemma_cut_range(s, p, pos as int, hi);
        }
    }

    /// An independent copy of the key space.
    pub fn snapshot(&self) -> (copy: KeySpace)
        ensures
            copy.entries() == self.entries(),
            copy@ == self@,
            copy.wf() == self.wf(),
    {
        let mut entries: Vec<Entry> = Vec::new();
        let mut i: usize = 0;
        while i < self.entries.len()
            invariant
                i <= self.entries@.len(),
                entries@.len() == i,
                forall|j: int|
                    0 <= j < i ==> (#[trigger] entries@[j]).key@ == self.entries@[j].key@
                        && entries@[j].value@ == self.entries@[j].value@,
            decreases self.entries.len() - i,
        {
            let key = copy_bytes(self.entries[i].key.as_slice());
            let value = copy_bytes(self.entries[i].value.as_slice());
            entries.push(Entry { key, value });
            i += 1;
        }
        assert(pairs_of(entries@) =~= pairs_of(self.entries@));
        KeySpace { entries }
    }
}

/// Taking one entry out of sorted entries leaves them sorted.
pub proof fn lemma_remove_sorted(s: Pairs, t: Pairs, pos: int)
    requires
        sorted(s),
        0 <= pos < s.len(),
        t == s.remove(pos),
    ensures
        sorted(t),
{
    assert forall|i: int, j: int| 0 <= i < j < t.len() implies lex_lt(t[i].0, t[j].0) by {
        let a = if i < pos { i } else { i + 1 };
        let b = if j < pos { j } else { j + 1 };
        assert(t[i] == s[a] && t[j] == s[b]);
    }
}

/// Taking the entry at `pos` out of sorted entries removes its key from the map.
pub proof fn lemma_remove_map(s: Pairs, t: Pairs, pos: int)
    requires
        sorted(s),
        0 <= pos < s.len(),
        t == s.remove(pos),
    ensures
        entries_map(t) == entries_map(s).remove(s[pos].0),
{
    lemma_remove_sorted(s, t, pos);
    let k0 = s[pos].0;
    assert forall|k: Seq<u8>| #[trigger]
        entries_map(t).contains_key(k) == entries_map(s).remove(k0).contains_key(k) by {
        if has_key(t, k) {
            let i = index_of_key(t, k);
            let j = if i < pos { i } else { i + 1 };
            assert(t[i] == s[j]);
            assert(has_key(s, k));
            if j < pos {
                lemma_lex_asymmetric(s[j].0, s[pos].0);
            } else {
                lemma_lex_asymmetric(s[pos].0, s[j].0);
            }
        }
        if has_key(s, k) && k != k0 {
            let j = index_of_key(s, k);
            let i = if j < pos { j } else { j - 1 };
            assert(t[i] == s[j]);
            assert(has_key(t, k));
        }
    }
    assert forall|k: Seq<u8>| #[trigger] entries_map(t).contains_key(k) implies entries_map(t)[k]
        == entries_map(s)[k] by {
        let i = index_of_key(t, k);
        let j = if i < pos { i } else { i + 1 };
        assert(t[i] == s[j]);
        lemma_sorted_lookup(t, i);
        lemma_sorted_lookup(s, j);
    }
    assert(entries_map(t) =~= entries_map(s).remove(k0));
}

/// Replacing the value of the entry at `pos` updates the map at its key.
pub proof fn lemma_update_map(s: Pairs, t: Pairs, pos: int)
    requires
        sorted(s),
        sorted(t),
        0 <= pos < s.len(),
        t == s.update(pos, (s[pos].0, t[pos].1)),
    ensures
        entries_map(t) == entries_map(s).insert(s[pos].0, t[pos].1),
{
    let k0 = s[pos].0;
    assert forall|k: Seq<u8>| #[trigger]
        entries_map(t).contains_key(k) == entries_map(s).insert(k0, t[pos].1).contains_key(
            k,
        ) by {
        if has_key(t, k) {
            let i = index_of_key(t, k);
            assert(t[i].0 == s[i].0);
            assert(has_key(s, k));
        }
        if has_key(s, k) {
            let j = index_of_key(s, k);
            assert(t[j].0 == s[j].0);
            assert(has_key(t, k));
        }
        if k == k0 {
            assert(t[pos].0 == k0);
            assert(has_key(t, k));
        }
    }
    assert forall|k: Seq<u8>| #[trigger] entries_map(t).contains_key(k) implies entries_map(t)[k]
        == entries_map(s).insert(k0, t[pos].1)[k] by {
        let i = index_of_key(t, k);
        lemma_sorted_lookup(t, i);
        lemma_sorted_lookup(s, i);
        if i != pos {
            assert(t[i] == s[i]);
            if i < pos {
                lemma_lex_asymmetric(s[i].0, s[pos].0);
            } else {
                lemma_lex_asymmetric(s[pos].0, s[i].0);
            }
        }
    }
    assert(entries_map(t) =~= entries_map(s).insert(k0, t[pos].1));
}

/// Putting a new entry in at `pos` adds its key to the map.
pub proof fn lemma_insert_map(s: Pairs, t: Pairs, pos: int)
    requires
        sorted(s),
        sorted(t),
        0 <= pos <= s.len(),
        t == s.insert(pos, t[pos]),
    ensures
        entries_map(t) == entries_map(s).insert(t[pos].0, t[pos].1),
{
    let k0 = t[pos].0;
    assert forall|k: Seq<u8>| #[trigger]
        entries_map(t).contains_key(k) == entries_map(s).insert(k0, t[pos].1).contains_key(
            k,
        ) by {
        if has_key(t, k) && k != k0 {
            let i = index_of_key(t, k);
            let j = if i < pos { i } else { i - 1 };
            assert(t[i] == s[j]);
            assert(has_key(s, k));
        }
        if has_key(s, k) {
            let j = index_of_key(s, k);
            let i = if j < pos { j } else { j + 1 };
            assert(t[i] == s[j]);
            assert(has_key(t, k));
        }
        if k == k0 {
            assert(t[pos].0 == k0);
            assert(has_key(t, k));
        }
    }
    assert forall|k: Seq<u8>| #[trigger] entries_map(t).contains_key(k) implies entries_map(t)[k]
        == entries_map(s).insert(k0, t[pos].1)[k] by {
        let i = index_of_key(t, k);
        lemma_sorted_lookup(t, i);
        if i != pos {
            let j = if i < pos { i } else { i - 1 };
            assert(t[i] == s[j]);
            lemma_sorted_lookup(s, j);
            if i < pos {
                lemma_lex_asymmetric(t[i].0, t[pos].0);
            } else {
                lemma_lex_asymmetric(t[pos].0, t[i].0);
            }
        }
    }
    assert(entries_map(t) =~= entries_map(s).insert(k0, t[pos].1));
}

} // verus!
