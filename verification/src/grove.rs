//! The grove: the committed state and the transactions over it.
use vstd::prelude::*;
use vstd::slice::slice_subrange;
use crate::bytes::{copy_bytes, has_prefix, starts_with};
use crate::context::{stored, PrefixedRocksDbTransactionContext};
use crate::error::Error;
use crate::hash::{root_view, HASH_LENGTH};
use crate::keyspace::{
    index_of_key, lemma_sorted_unique, sorted, subtree_map, KeySpace, Pairs,
};
use crate::model::top_prefix;
use crate::operations::aux::top_level_prefix;
use crate::path::{path_prefix, path_view, prefix_of, to_owned_path};
use crate::storage::{Storage, StorageView, Transaction};
use crate::subtree::{
    close, compute_root, lemma_empty_root, lemma_root_keys, root, root_key, root_marker,
    roots_consistent, roots_consistent_at, subtree_root, SubtreeCache, ROOT_MARKER,
};

verus! {

/// Some entry of `entries` before position `i` lies under prefix `p`.
pub open spec fn covered(entries: Pairs, p: Seq<u8>, i: int) -> bool {
    exists|j: int| 0 <= j < i && j < entries.len() && has_prefix(#[trigger] entries[j].0, p)
}

/// The epoch after a direct write in epoch `epoch`. The last epoch stays.
pub open spec fn next_epoch(epoch: u64) -> u64 {
    if epoch < u64::MAX {
        (epoch + 1) as u64
    } else {
        epoch
    }
}

/// The grove: the hierarchy of subtrees in the four key spaces of one
/// backend. An operation runs in the transaction that it is given. Without
/// one it is a transaction of its own on the committed state: it makes all
/// its checks before its first write, so that it completes or leaves the
/// committed state as it was.
pub struct GroveDb {
    /// The committed state, kept as the session that direct operations run
    /// in; its epoch counts the direct writes and commits.
    pub committed: Transaction,
}

impl View for GroveDb {
    type V = StorageView;

    /// The committed key spaces.
    open spec fn view(&self) -> StorageView {
        self.committed@
    }
}

impl GroveDb {
    /// The committed state is in order.
    pub open spec fn wf(&self) -> bool {
        self.committed.wf()
    }

    /// The number of direct writes and commits so far, up to the last epoch.
    pub open spec fn epoch(&self) -> u64 {
        self.committed.base_epoch
    }

    /// An empty grove: the top-level subtree, without entries.
    pub fn new() -> (db: GroveDb)
        ensures
            db.wf(),
            db.epoch() == 0,
            db@.main == Map::<Seq<u8>, Seq<u8>>::empty(),
            db@.aux == Map::<Seq<u8>, Seq<u8>>::empty(),
            db@.roots == Map::<Seq<u8>, Seq<u8>>::empty(),
            db@.meta == Map::<Seq<u8>, Seq<u8>>::empty(),
    {
        let db = GroveDb {
            committed: Transaction {
                storage: Storage::new(),
                subtrees: SubtreeCache::new(),
                base_epoch: 0,
            },
        };
        proof {
            assert forall|p: Seq<u8>| #[trigger] roots_consistent_at(db@, p) by {
                assert(subtree_map(db@.main, p) =~= Map::<Seq<u8>, Seq<u8>>::empty());
                lemma_empty_root();
            }
            assert(roots_consistent(db@));
            assert forall|p: Seq<u8>| #[trigger] db.committed.subtrees.coherent_at(db@, p) by {}
            assert(db.committed.subtrees.wf());
        }
        db
    }

    /// Counts a direct write.
    pub(crate) fn advance(&mut self)
        ensures
            final(self).committed.storage == old(self).committed.storage,
            final(self).committed.subtrees == old(self).committed.subtrees,
            final(self).epoch() == next_epoch(old(self).epoch()),
    {
        if self.committed.base_epoch < u64::MAX {
            self.committed.base_epoch = self.committed.base_epoch + 1;
        }
    }

    /// Begins a transaction: it sees the committed state as it is now, and
    /// from then on only its own writes.
    pub fn start_transaction(&self) -> (transaction: Transaction)
        requires
            self.wf(),
        ensures
            transaction.wf(),
            transaction@ == self@,
            transaction.base_epoch == self.epoch(),
    {
        let transaction = Transaction {
            storage: self.committed.storage.snapshot(),
            subtrees: SubtreeCache::new(),
            base_epoch: self.committed.base_epoch,
        };
        proof {
            assert forall|p: Seq<u8>| #[trigger] transaction.subtrees.coherent_at(
                transaction@,
                p,
            ) by {}
            assert forall|p: Seq<u8>| p.len() == HASH_LENGTH implies #[trigger] roots_consistent_at(
                transaction@,
                p,
            ) by {
                assert(roots_consistent_at(self@, p));
            }
        }
        transaction
    }

    /// Commits `transaction`: its key spaces become the committed state. The
    /// commit is rejected as a conflict if the committed state was written
    /// since the transaction began, and in the last epoch.
    pub fn commit_transaction(&mut self, transaction: Transaction) -> (r: Result<(), Error>)
        requires
            old(self).wf(),
            transaction.wf(),
        ensures
            final(self).wf(),
            r is Ok <==> transaction.base_epoch == old(self).epoch() && old(self).epoch()
                < u64::MAX,
            r is Ok ==> final(self)@ == transaction@ && final(self).epoch() == old(self).epoch()
                + 1,
            r is Err ==> r == Err::<(), Error>(Error::TransactionConflict) && *final(self) == *old(
                self,
            ),
    {
        if transaction.base_epoch != self.committed.base_epoch || self.committed.base_epoch
            == u64::MAX {
            return Err(Error::TransactionConflict);
        }
        let epoch = self.committed.base_epoch + 1;
        self.committed = transaction;
        self.committed.base_epoch = epoch;
        Ok(())
    }

    /// Abandons `transaction`: none of its writes has reached the committed
    /// state, which stays as it is, root hash and all.
    pub fn rollback_transaction(&mut self, transaction: Transaction)
        ensures
            *final(self) == *old(self),
    {
    }

    /// The grove over key spaces read from the backend. The *roots* space
    /// is built anew: it gets the root state of every subtree with entries.
    pub fn load(main: KeySpace, aux: KeySpace, meta: KeySpace) -> (db: GroveDb)
        requires
            main.wf(),
            aux.wf(),
            meta.wf(),
        ensures
            db.wf(),
            db.epoch() == 0,
            db@.main == main@,
            db@.aux == aux@,
            db@.meta == meta@,
            forall|k: Seq<u8>| #[trigger]
                db@.roots.contains_key(k) ==> exists|p: Seq<u8>|
                    p.len() == HASH_LENGTH && k == #[trigger] root_key(p),
    {
        let ghost entries = main.entries();
        let mut transaction = Transaction {
            storage: Storage { main, aux, roots: KeySpace::new(), meta },
            subtrees: SubtreeCache::new(),
            base_epoch: 0,
        };
        let ghost start = transaction@;
        let marker = root_marker();
        let n = transaction.storage.main.len();
        let mut i: usize = 0;
        while i < n
            invariant
                i <= n,
                n == entries.len(),
                sorted(entries),
                marker@ == seq![ROOT_MARKER],
                transaction.storage.wf(),
                transaction.storage.main.entries() == entries,
                transaction@.main == start.main,
                transaction@.aux == start.aux,
                transaction@.meta == start.meta,
                transaction.base_epoch == 0,
                transaction.subtrees.wf(),
                transaction.subtrees.handles@ == Map::<Seq<u8>, Seq<u8>>::empty(),
                forall|k: Seq<u8>| #[trigger]
                    transaction@.roots.contains_key(k) ==> exists|p: Seq<u8>|
                        p.len() == HASH_LENGTH && k == #[trigger] root_key(p),
                forall|p: Seq<u8>|
                    p.len() == HASH_LENGTH ==> stored(transaction@.roots, #[trigger] root_key(p))
                        == if covered(entries, p, i as int) {
                        subtree_root(start, p)
                    } else {
                        None
                    },
            decreases n - i,
        {
            let ghost roots_before = transaction@.roots;
            let key = copy_bytes(transaction.storage.main.key_at(i).as_slice());
            let mut wrote = false;
            if key.len() >= HASH_LENGTH {
                let prefix = copy_bytes(slice_subrange(key.as_slice(), 0, HASH_LENGTH));
                let first = i == 0 || !starts_with(
                    transaction.storage.main.key_at(i - 1).as_slice(),
                    prefix.as_slice(),
                );
                if first {
                    let ghost target = prefix@;
                    let mut context = PrefixedRocksDbTransactionContext::new(
                        &mut transaction,
                        prefix,
                    );
                    let root = compute_root(&context);
                    match root {
                        Some(hash) => {
                            let _ = context.put_root(marker.as_slice(), hash.as_slice());
                        },
                        None => {
                            let _ = context.delete_root(marker.as_slice());
                        },
                    }
                    proof {
                        lemma_sorted_unique(transaction.storage.main.entries(), entries);
                        assert(stored(transaction@.roots, root_key(target)) == subtree_root(
                            start,
                            target,
                        ));
                        assert forall|k: Seq<u8>| #[trigger]
                            transaction@.roots.contains_key(k) implies exists|p: Seq<u8>|
                            p.len() == HASH_LENGTH && k == #[trigger] root_key(p) by {
                            if k != root_key(target) {
                                assert(roots_before.contains_key(k));
                            }
                        }
                        assert forall|p: Seq<u8>| p.len() == HASH_LENGTH && p != target implies stored(
                            transaction@.roots,
                            #[trigger] root_key(p),
                        ) == stored(roots_before, root_key(p)) by {
                            lemma_root_keys(p, target);
                        }
                    }
                    wrote = true;
                }
            }
            proof {
                let k = entries[i as int].0;
                assert forall|p: Seq<u8>| p.len() == HASH_LENGTH implies stored(
                    transaction@.roots,
                    #[trigger] root_key(p),
                ) == if covered(entries, p, i + 1) {
                    subtree_root(start, p)
                } else {
                    None
                } by {
                    if covered(entries, p, i as int) {
                        let j = choose|j: int| 0 <= j < i && has_prefix(entries[j].0, p);
                        assert(has_prefix(entries[j].0, p));
                        assert(covered(entries, p, i + 1));
                    }
                    if has_prefix(k, p) {
                        assert(covered(entries, p, i + 1));
                        assert(k.subrange(0, HASH_LENGTH as int) == p);
                        if !wrote {
                            assert(has_prefix(entries[i - 1].0, p));
                            assert(covered(entries, p, i as int));
                        }
                    } else {
                        if covered(entries, p, i + 1) {
                            let j = choose|j: int| 0 <= j < i + 1 && has_prefix(entries[j].0, p);
                            assert(j < i);
                            assert(covered(entries, p, i as int));
                        }
                        if wrote {
                            assert(k.subrange(0, HASH_LENGTH as int) != p);
                        }
                    }
                }
            }
            i += 1;
        }
        let db = GroveDb { committed: transaction };
        proof {
            assert forall|p: Seq<u8>| p.len() == HASH_LENGTH implies #[trigger] roots_consistent_at(
                db@,
                p,
            ) by {
                assert(stored(db@.roots, root_key(p)) == if covered(entries, p, n as int) {
                    subtree_root(start, p)
                } else {
                    None
                });
                if !covered(entries, p, n as int) {
                    assert forall|k: Seq<u8>| !start.main.contains_key(p + k) by {
                        if start.main.contains_key(p + k) {
                            let j = index_of_key(entries, p + k);
                            assert((p + k).subrange(0, p.len() as int) =~= p);
                            assert(has_prefix(entries[j].0, p));
                        }
                    }
                    assert(subtree_map(start.main, p) =~= Map::<Seq<u8>, Seq<u8>>::empty());
                    lemma_empty_root();
                }
            }
            assert forall|p: Seq<u8>| #[trigger] db.committed.subtrees.coherent_at(db@, p) by {}
        }
        db
    }

    /// Closes the subtree at `path`: its handle is evicted from the cache of
    /// the transaction where one is given, else of the committed state. The
    /// key spaces stay as they are.
    pub fn close_subtree(&mut self, path: &[&[u8]], transaction: Option<&mut Transaction>)
        requires
            old(self).wf(),
            match transaction {
                Some(t) => t.wf(),
                None => true,
            },
        ensures
            final(self).wf(),
            final(self)@ == old(self)@,
            final(self).epoch() == old(self).epoch(),
            match transaction {
                Some(t) => *final(self) == *old(self) && final(t).wf() && final(t)@ == t@
                    && final(t).base_epoch == t.base_epoch && final(t).loaded()
                    == t.loaded().remove(prefix_of(path_view(path@))),
                None => final(self).committed.loaded() == old(self).committed.loaded().remove(
                    prefix_of(path_view(path@)),
                ),
            },
    {
        let owned = to_owned_path(path);
        let prefix = path_prefix(owned.as_slice());
        match transaction {
            Some(t) => close(t, prefix.as_slice()),
            None => close(&mut self.committed, prefix.as_slice()),
        }
    }

    /// The root hash of the top-level subtree, which stands for the whole
    /// grove; none while the grove is empty.
    pub fn root_hash(&mut self, transaction: Option<&mut Transaction>) -> (hash: Option<[u8; 32]>)
        requires
            old(self).wf(),
            match transaction {
                Some(t) => t.wf(),
                None => true,
            },
        ensures
            final(self).wf(),
            final(self)@ == old(self)@,
            final(self).epoch() == old(self).epoch(),
            match transaction {
                Some(t) => *final(self) == *old(self) && final(t).wf() && final(t)@ == t@
                    && final(t).base_epoch == t.base_epoch && final(t).loaded()
                    == t.loaded().insert(top_prefix()) && root_view(hash) == subtree_root(
                    t@,
                    top_prefix(),
                ),
                None => final(self).committed.loaded() == old(self).committed.loaded().insert(
                    top_prefix(),
                ) && root_view(hash) == subtree_root(old(self)@, top_prefix()),
            },
    {
        let prefix = top_level_prefix();
        match transaction {
            Some(t) => root(t, prefix.as_slice()),
            None => root(&mut self.committed, prefix.as_slice()),
        }
    }
}

} // verus!
