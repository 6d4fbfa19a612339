//! Storage contexts: the backend seen under one prefix.
use vstd::prelude::*;
use crate::bytes::{copy_bytes, has_prefix, make_prefixed_key, starts_with, strip_prefix};
use crate::error::Error;
use crate::keyspace::{is_lower_bound, KeySpace};
use crate::storage::{StorageView, Transaction};

verus! {

/// A cursor over the entries of the *main* key space under one prefix. It
/// shows each key without the prefix, and is valid only inside the prefix's
/// range.
pub struct PrefixedRawIterator<'a> {
    pub space: &'a KeySpace,
    pub prefix: Vec<u8>,
    pub position: usize,
}

impl<'a> PrefixedRawIterator<'a> {
    /// The cursor stands on an entry under the prefix.
    pub open spec fn is_valid(&self) -> bool {
        self.position < self.space.entries().len() && has_prefix(
            self.space.entries()[self.position as int].0,
            self.prefix@,
        )
    }

    /// Puts the cursor on the first entry that is not below the prefix.
    pub fn seek_to_first(&mut self)
        requires
            old(self).space.wf(),
        ensures
            final(self).space == old(self).space,
            final(self).prefix == old(self).prefix,
            is_lower_bound(
                final(self).space.entries(),
                final(self).prefix@,
                final(self).position as int,
            ),
    {
        self.position = self.space.seek(self.prefix.as_slice());
    }

    /// Puts the cursor on the first entry that is not below `key` under the prefix.
    pub fn seek(&mut self, key: &[u8])
        requires
            old(self).space.wf(),
        ensures
            final(self).space == old(self).space,
            final(self).prefix == old(self).prefix,
            is_lower_bound(
                final(self).space.entries(),
                final(self).prefix@ + key@,
                final(self).position as int,
            ),
    {
        let target = make_prefixed_key(copy_bytes(self.prefix.as_slice()), key);
        self.position = self.space.seek(target.as_slice());
    }

    /// Moves the cursor to the next entry, if it stands on one.
    pub fn next(&mut self)
        ensures
            final(self).space == old(self).space,
            final(self).prefix == old(self).prefix,
            final(self).position == if old(self).position < old(self).space.entries().len() {
                old(self).position + 1
            } else {
                old(self).position as int
            },
    {
        if self.position < self.space.len() {
            self.position = self.position + 1;
        }
    }

    /// Whether the cursor stands on an entry under the prefix.
    pub fn valid(&self) -> (valid: bool)
        ensures
            valid == self.is_valid(),
    {
        self.position < self.space.len() && starts_with(
            self.space.key_at(self.position).as_slice(),
            self.prefix.as_slice(),
        )
    }

    /// The key under the cursor, without the prefix.
    pub fn key(&self) -> (key: Option<Vec<u8>>)
        ensures
            key is Some == self.is_valid(),
            key is Some ==> self.prefix@ + key.unwrap()@
                == self.space.entries()[self.position as int].0,
    {
        if self.valid() {
            let stored = self.space.key_at(self.position);
            let key = strip_prefix(stored.as_slice(), self.prefix.len());
            assert(self.prefix@ + key@ =~= stored@);
            Some(key)
        } else {
            None
        }
    }

    /// The value under the cursor.
    pub fn value(&self) -> (value: Option<Vec<u8>>)
        ensures
            value is Some == self.is_valid(),
            value is Some ==> value.unwrap()@ == self.space.entries()[self.position as int].1,
    {
        if self.valid() {
            Some(copy_bytes(self.space.value_at(self.position).as_slice()))
        } else {
            None
        }
    }
}

/// The batch of a transactional context. The transaction is the atomic
/// unit, so the batch holds nothing.
pub struct TransactionBatch {}

/// A storage context in a transaction: every operation goes through the
/// open transaction, and every key but a *meta* key gets the context's
/// prefix in front.
pub struct PrefixedRocksDbTransactionContext<'db> {
    pub transaction: &'db mut Transaction,
    pub prefix: Vec<u8>,
}

/// What `m` holds under `key`, if anything.
pub open spec fn stored(m: Map<Seq<u8>, Seq<u8>>, key: Seq<u8>) -> Option<Seq<u8>> {
    if m.contains_key(key) {
        Some(m[key])
    } else {
        None
    }
}

/// The view of a value that may be absent.
pub open spec fn bytes_view(value: Option<Vec<u8>>) -> Option<Seq<u8>> {
    match value {
        Some(bytes) => Some(bytes@),
        None => None,
    }
}

impl<'db> PrefixedRocksDbTransactionContext<'db> {
    /// The key spaces behind the context are in order.
    pub open spec fn wf(&self) -> bool {
        self.transaction.storage.wf()
    }

    /// The key spaces as the context's transaction sees them.
    pub open spec fn storage(&self) -> StorageView {
        self.transaction.storage@
    }

    /// The *main* key space as the context's transaction sees it.
    pub open spec fn main_space(&self) -> KeySpace {
        self.transaction.storage.main
    }

    /// Between `before` and `self` only the key spaces changed, to `storage`.
    pub open spec fn wrote(&self, before: &Self, storage: StorageView) -> bool {
        &&& self.wf()
        &&& self.storage() == storage
        &&& self.prefix == before.prefix
        &&& self.transaction.subtrees == before.transaction.subtrees
        &&& self.transaction.base_epoch == before.transaction.base_epoch
    }

    /// A context for `prefix` in `transaction`.
    pub fn new(transaction: &'db mut Transaction, prefix: Vec<u8>) -> (context: Self)
        ensures
            *context.transaction == *old(transaction),
            context.prefix == prefix,
            *final(transaction) == *final(context.transaction),
    {
        PrefixedRocksDbTransactionContext { transaction, prefix }
    }

    /// Stores `value` under `key` in the *main* space.
    pub fn put(&mut self, key: &[u8], value: &[u8]) -> (r: Result<(), Error>)
        requires
            old(self).wf(),
        ensures
            r is Ok,
            final(self).wrote(
                old(self),
                StorageView {
                    main: old(self).storage().main.insert(old(self).prefix@ + key@, value@),
                    ..old(self).storage()
                },
            ),
            *final(final(self).transaction) == *final(old(self).transaction),
    {
        let stored_key = make_prefixed_key(copy_bytes(self.prefix.as_slice()), key);
        self.transaction.storage.main.put(stored_key, copy_bytes(value));
        Ok(())
    }

    /// Stores `value` under `key` in the *aux* space.
    pub fn put_aux(&mut self, key: &[u8], value: &[u8]) -> (r: Result<(), Error>)
        requires
            old(self).wf(),
        ensures
            r is Ok,
            final(self).wrote(
                old(self),
                StorageView {
                    aux: old(self).storage().aux.insert(old(self).prefix@ + key@, value@),
                    ..old(self).storage()
                },
            ),
            *final(final(self).transaction) == *final(old(self).transaction),
    {
        let stored_key = make_prefixed_key(copy_bytes(self.prefix.as_slice()), key);
        self.transaction.storage.aux.put(stored_key, copy_bytes(value));
        Ok(())
    }

    /// Stores `value` under `key` in the *roots* space.
    pub fn put_root(&mut self, key: &[u8], value: &[u8]) -> (r: Result<(), Error>)
        requires
            old(self).wf(),
        ensures
            r is Ok,
            final(self).wrote(
                old(self),
                StorageView {
                    roots: old(self).storage().roots.insert(old(self).prefix@ + key@, value@),
                    ..old(self).storage()
                },
            ),
            *final(final(self).transaction) == *final(old(self).transaction),
    {
        let stored_key = make_prefixed_key(copy_bytes(self.prefix.as_slice()), key);
        self.transaction.storage.roots.put(stored_key, copy_bytes(value));
        Ok(())
    }

    /// Stores `value` under `key` in the *meta* space, whose keys carry no prefix.
    pub fn put_meta(&mut self, key: &[u8], value: &[u8]) -> (r: Result<(), Error>)
        requires
            old(self).wf(),
        ensures
            r is Ok,
            final(self).wrote(
                old(self),
                StorageView {
                    meta: old(self).storage().meta.insert(key@, value@),
                    ..old(self).storage()
                },
            ),
            *final(final(self).transaction) == *final(old(self).transaction),
    {
        let stored_key = copy_bytes(key);
        self.transaction.storage.meta.put(stored_key, copy_bytes(value));
        Ok(())
    }

    /// Removes what is under `key` in the *main* space.
    pub fn delete(&mut self, key: &[u8]) -> (r: Result<(), Error>)
        requires
            old(self).wf(),
        ensures
            r is Ok,
            final(self).wrote(
                old(self),
                StorageView {
                    main: old(self).storage().main.remove(old(self).prefix@ + key@),
                    ..old(self).storage()
                },
            ),
            *final(final(self).transaction) == *final(old(self).transaction),
    {
        let stored_key = make_prefixed_key(copy_bytes(self.prefix.as_slice()), key);
        self.transaction.storage.main.delete(stored_key.as_slice());
        Ok(())
    }

    /// Removes what is under `key` in the *aux* space.
    pub fn delete_aux(&mut self, key: &[u8]) -> (r: Result<(), Error>)
        requires
            old(self).wf(),
        ensures
            r is Ok,
            final(self).wrote(
                old(self),
                StorageView {
                    aux: old(self).storage().aux.remove(old(self).prefix@ + key@),
                    ..old(self).storage()
                },
            ),
            *final(final(self).transaction) == *final(old(self).transaction),
    {
        let stored_key = make_prefixed_key(copy_bytes(self.prefix.as_slice()), key);
        self.transaction.storage.aux.delete(stored_key.as_slice());
        Ok(())
    }

    /// Removes what is under `key` in the *roots* space.
    pub fn delete_root(&mut self, key: &[u8]) -> (r: Result<(), Error>)
        requires
            old(self).wf(),
        ensures
            r is Ok,
            final(self).wrote(
                old(self),
                StorageView {
                    roots: old(self).storage().roots.remove(old(self).prefix@ + key@),
                    ..old(self).storage()
                },
            ),
            *final(final(self).transaction) == *final(old(self).transaction),
    {
        let stored_key = make_prefixed_key(copy_bytes(self.prefix.as_slice()), key);
        self.transaction.storage.roots.delete(stored_key.as_slice());
        Ok(())
    }

    /// Removes what is under `key` in the *meta* space, whose keys carry no prefix.
    pub fn delete_meta(&mut self, key: &[u8]) -> (r: Result<(), Error>)
        requires
            old(self).wf(),
        ensures
            r is Ok,
            final(self).wrote(
                old(self),
                StorageView {
                    meta: old(self).storage().meta.remove(key@),
                    ..old(self).storage()
                },
            ),
            *final(final(self).transaction) == *final(old(self).transaction),
    {
        let stored_key = copy_bytes(key);
        self.transaction.storage.meta.delete(stored_key.as_slice());
        Ok(())
    }

    /// The value under `key` in the *main* space; none if the key is absent.
    pub fn get(&self, key: &[u8]) -> (r: Result<Option<Vec<u8>>, Error>)
        requires
            self.wf(),
        ensures
            r is Ok,
            bytes_view(r.unwrap()) == stored(self.storage().main, self.prefix@ + key@),
    {
        let stored_key = make_prefixed_key(copy_bytes(self.prefix.as_slice()), key);
        Ok(self.transaction.storage.main.get(stored_key.as_slice()))
    }

    /// The value under `key` in the *aux* space; none if the key is absent.
    pub fn get_aux(&self, key: &[u8]) -> (r: Result<Option<Vec<u8>>, Error>)
        requires
            self.wf(),
        ensures
            r is Ok,
            bytes_view(r.unwrap()) == stored(self.storage().aux, self.prefix@ + key@),
    {
        let stored_key = make_prefixed_key(copy_bytes(self.prefix.as_slice()), key);
        Ok(self.transaction.storage.aux.get(stored_key.as_slice()))
    }

    /// The value under `key` in the *roots* space; none if the key is absent.
    pub fn get_root(&self, key: &[u8]) -> (r: Result<Option<Vec<u8>>, Error>)
        requires
            self.wf(),
        ensures
            r is Ok,
            bytes_view(r.unwrap()) == stored(self.storage().roots, self.prefix@ + key@),
    {
        let stored_key = make_prefixed_key(copy_bytes(self.prefix.as_slice()), key);
        Ok(self.transaction.storage.roots.get(stored_key.as_slice()))
    }

    /// The value under `key` in the *meta* space, whose keys carry no prefix.
    pub fn get_meta(&self, key: &[u8]) -> (r: Result<Option<Vec<u8>>, Error>)
        requires
            self.wf(),
        ensures
            r is Ok,
            bytes_view(r.unwrap()) == stored(self.storage().meta, key@),
    {
        let stored_key = copy_bytes(key);
        Ok(self.transaction.storage.meta.get(stored_key.as_slice()))
    }

    /// A batch for this context. It holds nothing: what is written through
    /// the context is already part of the transaction.
    pub fn new_batch(&self) -> (batch: TransactionBatch) {
        TransactionBatch {  }
    }

    /// Commits a batch of this context, which has nothing left to do.
    pub fn commit_batch(&self, batch: TransactionBatch) -> (r: Result<(), Error>)
        ensures
            r is Ok,
    {
        Ok(())
    }

    /// A cursor over the entries of the *main* space under the prefix.
    pub fn raw_iter(&self) -> (cursor: PrefixedRawIterator<'_>)
        ensures
            *cursor.space == self.main_space(),
            cursor.prefix@ == self.prefix@,
            cursor.position == 0,
    {
        PrefixedRawIterator {
            space: &self.transaction.storage.main,
            prefix: copy_bytes(self.prefix.as_slice()),
            position: 0,
        }
    }
}

} // verus!
