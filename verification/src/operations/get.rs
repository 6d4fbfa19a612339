//! Reads: whether a path leads to a subtree, and what is stored under a key.
use vstd::prelude::*;
use vstd::slice::slice_subrange;
use crate::bytes::copy_bytes;
use crate::element::Element;
use crate::error::Error;
use crate::grove::GroveDb;
use crate::model::{
    get_raw_spec, get_spec, is_subtree, is_tree_bytes, names_tree, read_view, resolve, MAX_REF_HOPS,
};
use crate::path::{clone_path, owned_path_view, path_prefix, path_view, to_owned_path};
use crate::storage::Transaction;
use crate::subtree::get_entry;

verus! {

/// Whether the bytes stored under a key are the stored form of a tree.
pub fn holds_tree(value: &Option<Vec<u8>>) -> (tree: bool)
    ensures
        tree == is_tree_bytes(crate::context::bytes_view(*value)),
{
    match value {
        Some(bytes) => match Element::decode(bytes.as_slice()) {
            Ok(Element::Tree(_)) => true,
            _ => false,
        },
        None => false,
    }
}

/// Whether `path` leads from the top-level subtree through trees only.
pub fn check_subtree(transaction: &mut Transaction, path: &[Vec<u8>]) -> (found: bool)
    requires
        old(transaction).storage.wf(),
    ensures
        *final(transaction) == *old(transaction),
        found == is_subtree(old(transaction)@, owned_path_view(path@)),
{
    let ghost s = transaction@;
    let ghost whole = owned_path_view(path@);
    let mut i: usize = 0;
    while i < path.len()
        invariant
            i <= path.len(),
            *transaction == *old(transaction),
            s == transaction@,
            transaction.storage.wf(),
            whole == owned_path_view(path@),
            forall|j: int| 0 <= j < i ==> #[trigger] names_tree(s, whole, j),
        decreases path.len() - i,
    {
        let parent = slice_subrange(path, 0, i);
        assert(owned_path_view(parent@) =~= whole.subrange(0, i as int));
        let prefix = path_prefix(parent);
        let value = get_entry(transaction, prefix.as_slice(), path[i].as_slice());
        if !holds_tree(&value) {
            assert(!names_tree(s, whole, i as int));
            return false;
        }
        i += 1;
    }
    true
}

/// What is stored under `key` in the subtree at `path`, references not followed.
pub fn get_raw_in(transaction: &mut Transaction, path: &[Vec<u8>], key: &[u8]) -> (r: Result<
    Element,
    Error,
>)
    requires
        old(transaction).storage.wf(),
    ensures
        *final(transaction) == *old(transaction),
        read_view(r) == get_raw_spec(old(transaction)@, owned_path_view(path@), key@),
{
    if !check_subtree(transaction, path) {
        return Err(Error::InvalidPath);
    }
    let prefix = path_prefix(path);
    match get_entry(transaction, prefix.as_slice(), key) {
        Some(bytes) => Element::decode(bytes.as_slice()),
        None => Err(Error::InvalidPath),
    }
}

/// What is stored under `key` in the subtree at `path`, references followed
/// up to the hop bound.
pub fn get_in(transaction: &mut Transaction, path: &[Vec<u8>], key: &[u8]) -> (r: Result<
    Element,
    Error,
>)
    requires
        old(transaction).storage.wf(),
    ensures
        *final(transaction) == *old(transaction),
        read_view(r) == get_spec(old(transaction)@, owned_path_view(path@), key@),
{
    let ghost s = transaction@;
    let mut current_path = clone_path(path);
    let mut current_key = copy_bytes(key);
    let mut hops: usize = MAX_REF_HOPS;
    loop
        invariant
            *transaction == *old(transaction),
            s == transaction@,
            transaction.storage.wf(),
            hops <= MAX_REF_HOPS,
            get_spec(s, owned_path_view(path@), key@) == resolve(
                s,
                owned_path_view(current_path@),
                current_key@,
                hops as nat,
            ),
        decreases hops,
    {
        match get_raw_in(transaction, current_path.as_slice(), current_key.as_slice()) {
            Ok(Element::Reference(target_path, target_key)) => {
                if hops == 0 {
                    return Err(Error::ReferenceLimit);
                }
                current_path = target_path;
                current_key = target_key;
                hops = hops - 1;
            },
            other => {
                return other;
            },
        }
    }
}

impl GroveDb {
    /// The element under `key` in the subtree at `path`; a reference is
    /// followed to what it points to, up to `MAX_REF_HOPS` references in a
    /// row. In a transaction the read sees the transaction's own writes.
    pub fn get(&mut self, path: &[&[u8]], key: &[u8], transaction: Option<&mut Transaction>) -> (r:
        Result<Element, Error>)
        requires
            old(self).committed.storage.wf(),
            match transaction {
                Some(t) => t.storage.wf(),
                None => true,
            },
        ensures
            *final(self) == *old(self),
            match transaction {
                Some(t) => *final(t) == *t && read_view(r) == get_spec(t@, path_view(path@), key@),
                None => read_view(r) == get_spec(old(self)@, path_view(path@), key@),
            },
    {
        let owned = to_owned_path(path);
        match transaction {
            Some(t) => get_in(t, owned.as_slice(), key),
            None => get_in(&mut self.committed, owned.as_slice(), key),
        }
    }

    /// The element under `key` in the subtree at `path`, a reference as it
    /// is stored.
    pub fn get_raw(
        &mut self,
        path: &[&[u8]],
        key: &[u8],
        transaction: Option<&mut Transaction>,
    ) -> (r: Result<Element, Error>)
        requires
            old(self).committed.storage.wf(),
            match transaction {
                Some(t) => t.storage.wf(),
                None => true,
            },
        ensures
            *final(self) == *old(self),
            match transaction {
                Some(t) => *final(t) == *t && read_view(r) == get_raw_spec(
                    t@,
                    path_view(path@),
                    key@,
                ),
                None => read_view(r) == get_raw_spec(old(self)@, path_view(path@), key@),
            },
    {
        let owned = to_owned_path(path);
        match transaction {
            Some(t) => get_raw_in(t, owned.as_slice(), key),
            None => get_raw_in(&mut self.committed, owned.as_slice(), key),
        }
    }
}

} // verus!
