//! Subtrees in the flat key spaces: the root hash of a subtree's entries, the
//! root state persisted in the *roots* space, the cache of loaded handles, and
//! the writes that keep the three in step.
use vstd::prelude::*;
use crate::bytes::{copy_bytes, has_prefix};
use crate::context::{stored, PrefixedRocksDbTransactionContext};
use crate::hash::{hash, hash_from_bytes, hash_of, root_view, HASH_LENGTH};
use crate::keyspace::{
    canonical_entries, entries_map, held, is_prefix_range, lemma_canonical, lemma_prefix_range,
    lemma_range_is_subtree, range_end, range_entries, sorted, subtree_map, without_prefix,
    KeySpace, Pairs,
};
use crate::path::{encode_segment, push_segment};
use crate::storage::{StorageView, Transaction};

verus! {

/// The key, under a subtree's prefix, of its root state in the *roots* space.
pub const ROOT_MARKER: u8 = 114;

/// The stored key of the root state of the subtree under prefix `p`.
pub open spec fn root_key(p: Seq<u8>) -> Seq<u8> {
    p + seq![ROOT_MARKER]
}

/// The entries `s`, each key and each value behind its length.
pub open spec fn encode_entries(s: Pairs) -> Seq<u8>
    decreases s.len(),
{
    if s.len() == 0 {
        Seq::empty()
    } else {
        encode_entries(s.drop_last()) + encode_segment(s.last().0) + encode_segment(s.last().1)
    }
}

/// The root hash of a subtree that holds the entries `m`: none while it is
/// empty, else the hash of its entries in key order.
pub open spec fn root_hash_of(m: Map<Seq<u8>, Seq<u8>>) -> Option<Seq<u8>> {
    let s = canonical_entries(m);
    if s.len() == 0 {
        None
    } else {
        Some(hash_of(encode_entries(s)))
    }
}

/// The root hash of the subtree under prefix `p`.
pub open spec fn subtree_root(s: StorageView, p: Seq<u8>) -> Option<Seq<u8>> {
    root_hash_of(subtree_map(s.main, p))
}

/// The root state as it is persisted and cached: the root hash, or nothing
/// for an empty subtree.
pub open spec fn root_state(root: Option<Seq<u8>>) -> Seq<u8> {
    match root {
        Some(hash) => hash,
        None => Seq::empty(),
    }
}

/// The *roots* space holds the root hash of the subtree under `p`.
pub open spec fn roots_consistent_at(s: StorageView, p: Seq<u8>) -> bool {
    stored(s.roots, root_key(p)) == subtree_root(s, p)
}

/// The *roots* space holds the root hash of every subtree that is not empty,
/// and nothing for an empty one.
pub open spec fn roots_consistent(s: StorageView) -> bool {
    forall|p: Seq<u8>| p.len() == HASH_LENGTH ==> #[trigger] roots_consistent_at(s, p)
}

/// The state of `s` with the persisted root of the subtree under `p` brought
/// up to date.
pub open spec fn refresh_root(s: StorageView, p: Seq<u8>) -> StorageView {
    match subtree_root(s, p) {
        Some(hash) => StorageView { roots: s.roots.insert(root_key(p), hash), ..s },
        None => StorageView { roots: s.roots.remove(root_key(p)), ..s },
    }
}

/// The state of `s` after `value` is put under `key` in the subtree under `p`.
pub open spec fn put_in_subtree(s: StorageView, p: Seq<u8>, key: Seq<u8>, value: Seq<u8>) ->
    StorageView {
    refresh_root(StorageView { main: s.main.insert(p + key, value), ..s }, p)
}

/// The state of `s` after `key` is deleted from the subtree under `p`.
pub open spec fn delete_in_subtree(s: StorageView, p: Seq<u8>, key: Seq<u8>) -> StorageView {
    refresh_root(StorageView { main: s.main.remove(p + key), ..s }, p)
}

/// The state of `s` after the ranges of prefix `p` are cleared from the
/// *main*, *aux* and *roots* spaces.
pub open spec fn clear_subtree(s: StorageView, p: Seq<u8>) -> StorageView {
    StorageView {
        main: without_prefix(s.main, p),
        aux: without_prefix(s.aux, p),
        roots: without_prefix(s.roots, p),
        meta: s.meta,
    }
}

/// A key under one prefix is under no other prefix of the same width.
pub proof fn lemma_prefixes_disjoint(p: Seq<u8>, q: Seq<u8>, k: Seq<u8>)
    requires
        p.len() == q.len(),
        has_prefix(p + k, q),
    ensures
        p == q,
{
    assert((p + k).subrange(0, q.len() as int) =~= p);
}

/// A write under one prefix leaves the entries under another prefix of the
/// same width as they were.
pub proof fn lemma_insert_elsewhere(
    m: Map<Seq<u8>, Seq<u8>>,
    q: Seq<u8>,
    key: Seq<u8>,
    value: Seq<u8>,
    p: Seq<u8>,
)
    requires
        p.len() == q.len(),
        p != q,
    ensures
        subtree_map(m.insert(q + key, value), p) == subtree_map(m, p),
{
    assert forall|k: Seq<u8>| p + k != q + key by {
        if p + k == q + key {
            assert((p + k).subrange(0, q.len() as int) =~= p);
            assert((q + key).subrange(0, q.len() as int) =~= q);
        }
    }
    assert(subtree_map(m.insert(q + key, value), p) =~= subtree_map(m, p));
}

/// A removal under one prefix leaves the entries under another prefix of
/// the same width as they were.
pub proof fn lemma_remove_elsewhere(m: Map<Seq<u8>, Seq<u8>>, q: Seq<u8>, key: Seq<u8>, p: Seq<u8>)
    requires
        p.len() == q.len(),
        p != q,
    ensures
        subtree_map(m.remove(q + key), p) == subtree_map(m, p),
{
    assert forall|k: Seq<u8>| p + k != q + key by {
        if p + k == q + key {
            assert((p + k).subrange(0, q.len() as int) =~= p);
            assert((q + key).subrange(0, q.len() as int) =~= q);
        }
    }
    assert(subtree_map(m.remove(q + key), p) =~= subtree_map(m, p));
}

/// Clearing the range of one prefix empties it and leaves the entries under
/// another prefix of the same width as they were.
pub proof fn lemma_clear_ranges(m: Map<Seq<u8>, Seq<u8>>, q: Seq<u8>, p: Seq<u8>)
    requires
        p.len() == q.len(),
    ensures
        p != q ==> subtree_map(without_prefix(m, q), p) == subtree_map(m, p),
        subtree_map(without_prefix(m, q), q) == Map::<Seq<u8>, Seq<u8>>::empty(),
{
    assert forall|k: Seq<u8>| has_prefix(q + k, q) by {
        assert((q + k).subrange(0, q.len() as int) =~= q);
    }
    assert(subtree_map(without_prefix(m, q), q) =~= Map::<Seq<u8>, Seq<u8>>::empty());
    if p != q {
        assert forall|k: Seq<u8>| !has_prefix(p + k, q) by {
            if has_prefix(p + k, q) {
                lemma_prefixes_disjoint(p, q, k);
            }
        }
        assert(subtree_map(without_prefix(m, q), p) =~= subtree_map(m, p));
    }
}

/// An empty subtree has no root hash.
pub proof fn lemma_empty_root()
    ensures
        root_hash_of(Map::<Seq<u8>, Seq<u8>>::empty()) is None,
{
    let none = Seq::<(Seq<u8>, Seq<u8>)>::empty();
    assert(entries_map(none) =~= Map::<Seq<u8>, Seq<u8>>::empty());
    lemma_canonical(none);
}

/// A root hash, where there is one, has the width of a hash.
pub proof fn lemma_root_width(m: Map<Seq<u8>, Seq<u8>>)
    ensures
        root_hash_of(m) is Some ==> root_hash_of(m).unwrap().len() == HASH_LENGTH,
{
}

/// The root keys of two prefixes differ as the prefixes do, and the root
/// key of one prefix is under no other prefix of the same width.
pub proof fn lemma_root_keys(p: Seq<u8>, q: Seq<u8>)
    ensures
        root_key(p) == root_key(q) ==> p == q,
        p.len() == q.len() && has_prefix(root_key(p), q) ==> p == q,
        has_prefix(root_key(p), p),
{
    if root_key(p) == root_key(q) {
        assert(root_key(p).subrange(0, p.len() as int) =~= p);
        assert(root_key(q).subrange(0, q.len() as int) =~= q);
        assert(root_key(p).len() == p.len() + 1);
        assert(root_key(q).len() == q.len() + 1);
    }
    if p.len() == q.len() && has_prefix(root_key(p), q) {
        lemma_prefixes_disjoint(p, q, seq![ROOT_MARKER]);
    }
    assert(root_key(p).subrange(0, p.len() as int) =~= p);
}

/// The root hash of the entries under the context's prefix, from a scan of
/// the *main* space.
pub fn compute_root(context: &PrefixedRocksDbTransactionContext) -> (root: Option<[u8; 32]>)
    requires
        context.wf(),
    ensures
        root_view(root) == subtree_root(context.storage(), context.prefix@),
{
    let mut cursor = context.raw_iter();
    cursor.seek_to_first();
    let ghost s = cursor.space.entries();
    let ghost p = cursor.prefix@;
    let ghost n = p.len() as int;
    let ghost lo = cursor.position as int;
    let ghost hi = range_end(s, p, lo);
    proof {
        lemma_prefix_range(s, p, lo);
        assert(range_entries(s, lo, lo, n) =~= Seq::<(Seq<u8>, Seq<u8>)>::empty());
    }
    let mut buffer: Vec<u8> = Vec::new();
    let mut any = false;
    while cursor.valid()
        invariant
            cursor.space.entries() == s,
            cursor.prefix@ == p,
            n == p.len(),
            sorted(s),
            is_prefix_range(s, p, lo, hi),
            lo <= cursor.position <= hi,
            buffer@ == encode_entries(range_entries(s, lo, cursor.position as int, n)),
            any == (cursor.position > lo),
        decreases hi - cursor.position,
    {
        let ghost pos = cursor.position as int;
        let key = cursor.key().unwrap();
        let value = cursor.value().unwrap();
        push_segment(&mut buffer, key.as_slice());
        push_segment(&mut buffer, value.as_slice());
        proof {
            let before = range_entries(s, lo, pos, n);
            let after = range_entries(s, lo, pos + 1, n);
            assert(after.drop_last() =~= before);
            assert(key@ =~= s[pos].0.subrange(n, s[pos].0.len() as int)) by {
                assert((p + key@).subrange(n, (p + key@).len() as int) =~= key@);
            }
            assert(after.last() == (key@, value@));
            assert(buffer@ =~= encode_entries(after));
        }
        cursor.next();
        any = true;
    }
    proof {
        assert(cursor.position == hi);
        lemma_range_is_subtree(s, p, lo, hi);
    }
    if any {
        Some(hash(buffer.as_slice()))
    } else {
        None
    }
}

/// The handles of the subtrees loaded so far, found by prefix. A handle
/// holds the root state of its subtree.
pub struct SubtreeCache {
    pub handles: KeySpace,
}

impl SubtreeCache {
    /// The cache is in order, and every handle stands for a prefix.
    pub open spec fn wf(&self) -> bool {
        &&& self.handles.wf()
        &&& forall|p: Seq<u8>| #[trigger] self.handles@.contains_key(p) ==> p.len() == HASH_LENGTH
    }

    /// The handle of the subtree under `p`, if it is loaded, holds the root
    /// state that `s` persists.
    pub open spec fn coherent_at(&self, s: StorageView, p: Seq<u8>) -> bool {
        self.handles@.contains_key(p) ==> self.handles@[p] == root_state(
            stored(s.roots, root_key(p)),
        )
    }

    /// Every loaded handle holds the root state that `s` persists.
    pub open spec fn coherent(&self, s: StorageView) -> bool {
        forall|p: Seq<u8>| #[trigger] self.coherent_at(s, p)
    }

    /// A cache without handles.
    pub fn new() -> (cache: SubtreeCache)
        ensures
            cache.wf(),
            cache.handles@ == Map::<Seq<u8>, Seq<u8>>::empty(),
    {
        SubtreeCache { handles: KeySpace::new() }
    }
}

impl Transaction {
    /// The key spaces are in order, the *roots* space holds the root hash of
    /// every subtree, and every loaded handle agrees with it.
    pub open spec fn wf(&self) -> bool {
        &&& self.storage.wf()
        &&& roots_consistent(self@)
        &&& self.subtrees.wf()
        &&& self.subtrees.coherent(self@)
    }

    /// The prefixes of the subtrees whose handles are loaded.
    pub open spec fn loaded(&self) -> Set<Seq<u8>> {
        self.subtrees.handles@.dom()
    }

    /// The *main* space of a transaction in order is what a key space holds.
    pub proof fn lemma_main_held(&self)
        requires
            self.wf(),
        ensures
            held(self@.main),
    {
        self.storage.main.lemma_held();
    }
}

/// The root state as bytes to persist or cache.
fn root_state_bytes(root: &Option<[u8; 32]>) -> (bytes: Vec<u8>)
    ensures
        bytes@ == root_state(root_view(*root)),
{
    match root {
        Some(hash) => copy_bytes(hash.as_slice()),
        None => Vec::new(),
    }
}

/// The key of the root state inside a context.
pub fn root_marker() -> (key: Vec<u8>)
    ensures
        key@ == seq![ROOT_MARKER],
{
    let mut key: Vec<u8> = Vec::new();
    key.push(ROOT_MARKER);
    assert(key@ =~= seq![ROOT_MARKER]);
    key
}

/// Brings the persisted root state and the handle of the subtree under
/// `prefix` up to date with its entries.
fn refresh(transaction: &mut Transaction, prefix: &[u8])
    requires
        old(transaction).storage.wf(),
        old(transaction).subtrees.wf(),
        prefix@.len() == HASH_LENGTH,
        forall|p: Seq<u8>|
            p.len() == HASH_LENGTH && p != prefix@ ==> #[trigger] roots_consistent_at(
                old(transaction)@,
                p,
            ),
        forall|p: Seq<u8>|
            p != prefix@ ==> #[trigger] old(transaction).subtrees.coherent_at(old(transaction)@, p),
    ensures
        final(transaction).wf(),
        final(transaction)@ == refresh_root(old(transaction)@, prefix@),
        final(transaction).loaded() == old(transaction).loaded().insert(prefix@),
        final(transaction).base_epoch == old(transaction).base_epoch,
{
    let ghost before = transaction@;
    let ghost target = prefix@;
    let marker = root_marker();
    let mut context = PrefixedRocksDbTransactionContext::new(transaction, copy_bytes(prefix));
    let root = compute_root(&context);
    match root {
        Some(hash) => {
            let _ = context.put_root(marker.as_slice(), hash.as_slice());
        },
        None => {
            let _ = context.delete_root(marker.as_slice());
        },
    }
    let state = root_state_bytes(&root);
    transaction.subtrees.handles.put(copy_bytes(prefix), state);
    proof {
        let after = transaction@;
        assert(transaction.loaded() =~= old(transaction).loaded().insert(target));
        assert(after == refresh_root(before, target));
        assert forall|p: Seq<u8>| p.len() == HASH_LENGTH implies #[trigger] roots_consistent_at(
            after,
            p,
        ) by {
            if p != target {
                lemma_root_keys(p, target);
                assert(roots_consistent_at(before, p));
            }
        }
        assert forall|p: Seq<u8>| #[trigger] transaction.subtrees.coherent_at(after, p) by {
            if p != target {
                lemma_root_keys(p, target);
                assert(old(transaction).subtrees.coherent_at(before, p));
            }
        }
    }
}

/// Puts `value` under `key` in the subtree under `prefix`.
pub fn put_entry(transaction: &mut Transaction, prefix: &[u8], key: &[u8], value: &[u8])
    requires
        old(transaction).wf(),
        prefix@.len() == HASH_LENGTH,
    ensures
        final(transaction).wf(),
        final(transaction)@ == put_in_subtree(old(transaction)@, prefix@, key@, value@),
        final(transaction).loaded() == old(transaction).loaded().insert(prefix@),
        final(transaction).base_epoch == old(transaction).base_epoch,
{
    let ghost before = transaction@;
    let mut context = PrefixedRocksDbTransactionContext::new(transaction, copy_bytes(prefix));
    let _ = context.put(key, value);
    proof {
        let s = transaction@;
        assert forall|p: Seq<u8>| p.len() == HASH_LENGTH && p != prefix@ implies
            #[trigger] roots_consistent_at(s, p) by {
            lemma_insert_elsewhere(before.main, prefix@, key@, value@, p);
            assert(roots_consistent_at(before, p));
        }
        assert forall|p: Seq<u8>| p != prefix@ implies #[trigger] transaction.subtrees.coherent_at(
            s,
            p,
        ) by {
            assert(old(transaction).subtrees.coherent_at(before, p));
        }
    }
    refresh(transaction, prefix);
}

/// Deletes `key` from the subtree under `prefix`.
pub fn delete_entry(transaction: &mut Transaction, prefix: &[u8], key: &[u8])
    requires
        old(transaction).wf(),
        prefix@.len() == HASH_LENGTH,
    ensures
        final(transaction).wf(),
        final(transaction)@ == delete_in_subtree(old(transaction)@, prefix@, key@),
        final(transaction).loaded() == old(transaction).loaded().insert(prefix@),
        final(transaction).base_epoch == old(transaction).base_epoch,
{
    let ghost before = transaction@;
    let mut context = PrefixedRocksDbTransactionContext::new(transaction, copy_bytes(prefix));
    let _ = context.delete(key);
    proof {
        let s = transaction@;
        assert forall|p: Seq<u8>| p.len() == HASH_LENGTH && p != prefix@ implies
            #[trigger] roots_consistent_at(s, p) by {
            lemma_remove_elsewhere(before.main, prefix@, key@, p);
            assert(roots_consistent_at(before, p));
        }
        assert forall|p: Seq<u8>| p != prefix@ implies #[trigger] transaction.subtrees.coherent_at(
            s,
            p,
        ) by {
            assert(old(transaction).subtrees.coherent_at(before, p));
        }
    }
    refresh(transaction, prefix);
}

/// What is stored under `key` in the subtree under `prefix`.
pub fn get_entry(transaction: &mut Transaction, prefix: &[u8], key: &[u8]) -> (value: Option<
    Vec<u8>,
>)
    requires
        old(transaction).storage.wf(),
    ensures
        *final(transaction) == *old(transaction),
        crate::context::bytes_view(value) == stored(old(transaction)@.main, prefix@ + key@),
{
    let context = PrefixedRocksDbTransactionContext::new(transaction, copy_bytes(prefix));
    match context.get(key) {
        Ok(value) => value,
        Err(_) => None,
    }
}

/// Clears the ranges of `prefix` from the *main*, *aux* and *roots* spaces
/// and evicts the subtree's handle.
pub fn clear(transaction: &mut Transaction, prefix: &[u8])
    requires
        old(transaction).wf(),
        prefix@.len() == HASH_LENGTH,
    ensures
        final(transaction).wf(),
        final(transaction)@ == clear_subtree(old(transaction)@, prefix@),
        final(transaction).loaded() == old(transaction).loaded().remove(prefix@),
        final(transaction).base_epoch == old(transaction).base_epoch,
{
    let ghost before = transaction@;
    let ghost q = prefix@;
    transaction.storage.main.clear_prefix(prefix);
    transaction.storage.aux.clear_prefix(prefix);
    transaction.storage.roots.clear_prefix(prefix);
    transaction.subtrees.handles.delete(prefix);
    proof {
        let after = transaction@;
        assert(transaction.loaded() =~= old(transaction).loaded().remove(q));
        assert(after == clear_subtree(before, q));
        assert forall|p: Seq<u8>| p.len() == HASH_LENGTH implies #[trigger] roots_consistent_at(
            after,
            p,
        ) by {
            lemma_clear_ranges(before.main, q, p);
            lemma_root_keys(p, q);
            if p == q {
                lemma_empty_root();
            } else {
                assert(roots_consistent_at(before, p));
            }
        }
        assert forall|p: Seq<u8>| #[trigger] transaction.subtrees.coherent_at(after, p) by {
            if transaction.subtrees.handles@.contains_key(p) {
                assert(old(transaction).subtrees.handles@.contains_key(p));
                lemma_root_keys(p, q);
                assert(old(transaction).subtrees.coherent_at(before, p));
            }
        }
    }
}

/// The root hash of the subtree under `prefix`, from its handle. A subtree
/// whose handle is not loaded gets one, from the root state in the *roots*
/// space.
pub fn root(transaction: &mut Transaction, prefix: &[u8]) -> (root: Option<[u8; 32]>)
    requires
        old(transaction).wf(),
        prefix@.len() == HASH_LENGTH,
    ensures
        final(transaction).wf(),
        final(transaction)@ == old(transaction)@,
        final(transaction).loaded() == old(transaction).loaded().insert(prefix@),
        final(transaction).base_epoch == old(transaction).base_epoch,
        root_view(root) == subtree_root(old(transaction)@, prefix@),
{
    let ghost s = transaction@;
    proof {
        assert(roots_consistent_at(s, prefix@));
        assert(transaction.subtrees.coherent_at(s, prefix@));
        lemma_root_width(subtree_map(s.main, prefix@));
    }
    match transaction.subtrees.handles.get(prefix) {
        Some(state) => {
            assert(transaction.loaded() =~= old(transaction).loaded().insert(prefix@));
            hash_from_bytes(state.as_slice())
        },
        None => {
            let marker = root_marker();
            let context = PrefixedRocksDbTransactionContext::new(transaction, copy_bytes(prefix));
            let persisted = match context.get_root(marker.as_slice()) {
                Ok(value) => value,
                Err(_) => None,
            };
            let root = match persisted {
                Some(bytes) => hash_from_bytes(bytes.as_slice()),
                None => None,
            };
            let state = root_state_bytes(&root);
            transaction.subtrees.handles.put(copy_bytes(prefix), state);
            proof {
                assert(transaction.loaded() =~= old(transaction).loaded().insert(prefix@));
                assert forall|p: Seq<u8>| #[trigger] transaction.subtrees.coherent_at(s, p) by {
                    if p != prefix@ {
                        assert(old(transaction).subtrees.coherent_at(s, p));
                    }
                }
            }
            root
        },
    }
}

/// Closes the subtree under `prefix`: its handle is evicted, and loaded
/// again from the *roots* space when the subtree is next opened.
pub fn close(transaction: &mut Transaction, prefix: &[u8])
    requires
        old(transaction).wf(),
    ensures
        final(transaction).wf(),
        final(transaction)@ == old(transaction)@,
        final(transaction).loaded() == old(transaction).loaded().remove(prefix@),
        final(transaction).base_epoch == old(transaction).base_epoch,
{
    transaction.subtrees.handles.delete(prefix);
    proof {
        assert(transaction.loaded() =~= old(transaction).loaded().remove(prefix@));
        assert forall|p: Seq<u8>| #[trigger] transaction.subtrees.coherent_at(transaction@, p) by {
            assert(old(transaction).subtrees.coherent_at(transaction@, p));
        }
    }
}

} // verus!
