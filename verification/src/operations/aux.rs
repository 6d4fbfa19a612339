//! Auxiliary data: a flat key-value space beside the grove, kept in the
//! *aux* space under the top-level prefix. It is part of no root hash.
use vstd::prelude::*;
use crate::context::{bytes_view, stored, PrefixedRocksDbTransactionContext};
use crate::error::Error;
use crate::grove::{next_epoch, GroveDb};
use crate::hash::HASH_LENGTH;
use crate::model::top_prefix;
use crate::path::{owned_path_view, path_prefix};
use crate::storage::{StorageView, Transaction};
use crate::subtree::roots_consistent_at;

verus! {

/// The prefix of the top-level subtree.
pub fn top_level_prefix() -> (prefix: Vec<u8>)
    ensures
        prefix@ == top_prefix(),
        prefix@.len() == HASH_LENGTH,
{
    let top: Vec<Vec<u8>> = Vec::new();
    assert(owned_path_view(top@) =~= Seq::<Seq<u8>>::empty());
    path_prefix(top.as_slice())
}

/// The state `s` with the *aux* space `aux`.
pub open spec fn with_aux(s: StorageView, aux: Map<Seq<u8>, Seq<u8>>) -> StorageView {
    StorageView { aux: aux, ..s }
}

/// A change of the *aux* space alone keeps a transaction in order.
proof fn lemma_aux_keeps_wf(before: Transaction, after: Transaction)
    requires
        before.wf(),
        after.storage.wf(),
        after.subtrees == before.subtrees,
        after@ == with_aux(before@, after@.aux),
    ensures
        after.wf(),
{
    assert forall|p: Seq<u8>| p.len() == HASH_LENGTH implies #[trigger] roots_consistent_at(
        after@,
        p,
    ) by {
        assert(roots_consistent_at(before@, p));
    }
    assert forall|p: Seq<u8>| #[trigger] after.subtrees.coherent_at(after@, p) by {
        assert(before.subtrees.coherent_at(before@, p));
    }
}

/// Stores `value` under `key` in the auxiliary space.
pub fn put_aux_in(transaction: &mut Transaction, key: &[u8], value: &[u8])
    requires
        old(transaction).wf(),
    ensures
        final(transaction).wf(),
        final(transaction)@ == with_aux(
            old(transaction)@,
            old(transaction)@.aux.insert(top_prefix() + key@, value@),
        ),
        final(transaction).subtrees == old(transaction).subtrees,
        final(transaction).base_epoch == old(transaction).base_epoch,
{
    let mut context = PrefixedRocksDbTransactionContext::new(transaction, top_level_prefix());
    let _ = context.put_aux(key, value);
    proof {
        lemma_aux_keeps_wf(*old(transaction), *transaction);
    }
}

/// Removes what is under `key` in the auxiliary space.
pub fn delete_aux_in(transaction: &mut Transaction, key: &[u8])
    requires
        old(transaction).wf(),
    ensures
        final(transaction).wf(),
        final(transaction)@ == with_aux(
            old(transaction)@,
            old(transaction)@.aux.remove(top_prefix() + key@),
        ),
        final(transaction).subtrees == old(transaction).subtrees,
        final(transaction).base_epoch == old(transaction).base_epoch,
{
    let mut context = PrefixedRocksDbTransactionContext::new(transaction, top_level_prefix());
    let _ = context.delete_aux(key);
    proof {
        lemma_aux_keeps_wf(*old(transaction), *transaction);
    }
}

/// What is under `key` in the auxiliary space.
pub fn get_aux_in(transaction: &mut Transaction, key: &[u8]) -> (value: Option<Vec<u8>>)
    requires
        old(transaction).storage.wf(),
    ensures
        *final(transaction) == *old(transaction),
        bytes_view(value) == stored(old(transaction)@.aux, top_prefix() + key@),
{
    let context = PrefixedRocksDbTransactionContext::new(transaction, top_level_prefix());
    match context.get_aux(key) {
        Ok(value) => value,
        Err(_) => None,
    }
}

impl GroveDb {
    /// Stores `value` under `key` in the auxiliary space: of the
    /// transaction where one is given, else of the committed state.
    pub fn put_aux(
        &mut self,
        key: &[u8],
        value: &[u8],
        transaction: Option<&mut Transaction>,
    ) -> (r: Result<(), Error>)
        requires
            old(self).wf(),
            match transaction {
                Some(t) => t.wf(),
                None => true,
            },
        ensures
            r is Ok,
            final(self).wf(),
            match transaction {
                Some(t) => *final(self) == *old(self) && final(t).wf() && final(t).base_epoch
                    == t.base_epoch && final(t).subtrees == t.subtrees && final(t)@ == with_aux(
                    t@,
                    t@.aux.insert(top_prefix() + key@, value@),
                ),
                None => final(self)@ == with_aux(
                    old(self)@,
                    old(self)@.aux.insert(top_prefix() + key@, value@),
                ) && final(self).committed.subtrees == old(self).committed.subtrees
                    && final(self).epoch() == next_epoch(old(self).epoch()),
            },
    {
        match transaction {
            Some(t) => {
                put_aux_in(t, key, value);
            },
            None => {
                put_aux_in(&mut self.committed, key, value);
                self.advance();
            },
        }
        Ok(())
    }

    /// Removes what is under `key` in the auxiliary space: of the
    /// transaction where one is given, else of the committed state.
    pub fn delete_aux(&mut self, key: &[u8], transaction: Option<&mut Transaction>) -> (r: Result<
        (),
        Error,
    >)
        requires
            old(self).wf(),
            match transaction {
                Some(t) => t.wf(),
                None => true,
            },
        ensures
            r is Ok,
            final(self).wf(),
            match transaction {
                Some(t) => *final(self) == *old(self) && final(t).wf() && final(t).base_epoch
                    == t.base_epoch && final(t).subtrees == t.subtrees && final(t)@ == with_aux(
                    t@,
                    t@.aux.remove(top_prefix() + key@),
                ),
                None => final(self)@ == with_aux(
                    old(self)@,
                    old(self)@.aux.remove(top_prefix() + key@),
                ) && final(self).committed.subtrees == old(self).committed.subtrees
                    && final(self).epoch() == next_epoch(old(self).epoch()),
            },
    {
        match transaction {
            Some(t) => {
                delete_aux_in(t, key);
            },
            None => {
                delete_aux_in(&mut self.committed, key);
                self.advance();
            },
        }
        Ok(())
    }

    /// What is under `key` in the auxiliary space, none if the key is
    /// absent: as the transaction sees it where one is given, else as
    /// committed.
    pub fn get_aux(&mut self, key: &[u8], transaction: Option<&mut Transaction>) -> (r: Result<
        Option<Vec<u8>>,
        Error,
    >)
        requires
            old(self).committed.storage.wf(),
            match transaction {
                Some(t) => t.storage.wf(),
                None => true,
            },
        ensures
            r is Ok,
            *final(self) == *old(self),
            match transaction {
                Some(t) => *final(t) == *t && bytes_view(r.unwrap()) == stored(
                    t@.aux,
                    top_prefix() + key@,
                ),
                None => bytes_view(r.unwrap()) == stored(old(self)@.aux, top_prefix() + key@),
            },
    {
        match transaction {
            Some(t) => Ok(get_aux_in(t, key)),
            None => Ok(get_aux_in(&mut self.committed, key)),
        }
    }
}

} // verus!
