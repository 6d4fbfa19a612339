//! Inserts, and the propagation of root hashes that follows every change.
use vstd::prelude::*;
use vstd::slice::slice_subrange;
use crate::bytes::copy_bytes;
use crate::element::Element;
use crate::error::Error;
use crate::grove::{next_epoch, GroveDb};
use crate::model::{chain_prefixes, insert_error, insert_spec, loaded_after_insert, propagate};
use crate::operations::get::{check_subtree, holds_tree};
use crate::path::{
    clone_path, owned_path_view, path_prefix, path_view, prefix_of, to_owned_path,
};
use crate::storage::Transaction;
use crate::subtree::{clear, get_entry, put_entry, root};

verus! {

/// Writes the root hash of the subtree at `path` into its parent as the
/// tree under the path's last segment, then the parent's into its own
/// parent, and so on up to the top-level subtree.
pub fn propagate_changes(transaction: &mut Transaction, path: &[Vec<u8>])
    requires
        old(transaction).wf(),
    ensures
        final(transaction).wf(),
        final(transaction)@ == propagate(old(transaction)@, owned_path_view(path@)),
        final(transaction).loaded() == old(transaction).loaded().union(
            chain_prefixes(owned_path_view(path@)),
        ),
        final(transaction).base_epoch == old(transaction).base_epoch,
{
    let ghost start = transaction@;
    let ghost whole = owned_path_view(path@);
    let mut i: usize = path.len();
    assert(whole.subrange(0, i as int) =~= whole);
    while i > 0
        invariant
            i <= path.len(),
            transaction.wf(),
            transaction.base_epoch == old(transaction).base_epoch,
            whole == owned_path_view(path@),
            propagate(start, whole) == propagate(transaction@, whole.subrange(0, i as int)),
            forall|p: Seq<u8>|
                transaction.loaded().contains(p) <==> old(transaction).loaded().contains(p) || (i
                    < path.len() && exists|j: int|
                    i <= j <= path.len() && p == #[trigger] prefix_of(whole.subrange(0, j))),
        decreases i,
    {
        let ghost loaded_before = transaction.loaded();
        let child = slice_subrange(path, 0, i);
        let parent = slice_subrange(path, 0, i - 1);
        proof {
            let current = whole.subrange(0, i as int);
            assert(owned_path_view(child@) =~= current);
            assert(owned_path_view(parent@) =~= current.drop_last());
            assert(current.drop_last() =~= whole.subrange(0, i - 1));
            assert(current.last() == path@[i - 1]@);
        }
        let child_prefix = path_prefix(child);
        let parent_prefix = path_prefix(parent);
        let hash = root(transaction, child_prefix.as_slice());
        let bytes = Element::Tree(hash).encode();
        put_entry(transaction, parent_prefix.as_slice(), path[i - 1].as_slice(), bytes.as_slice());
        proof {
            let child_p = prefix_of(whole.subrange(0, i as int));
            let parent_p = prefix_of(whole.subrange(0, i - 1));
            assert(transaction.loaded() == loaded_before.insert(child_p).insert(parent_p));
            assert forall|p: Seq<u8>|
                transaction.loaded().contains(p) <==> old(transaction).loaded().contains(p) || (
                exists|j: int|
                    i - 1 <= j <= path.len() && p == #[trigger] prefix_of(whole.subrange(0, j))) by {
                if exists|j: int|
                    i - 1 <= j <= path.len() && p == #[trigger] prefix_of(whole.subrange(0, j)) {
                    let j = choose|j: int|
                        i - 1 <= j <= path.len() && p == #[trigger] prefix_of(
                            whole.subrange(0, j),
                        );
                    if j > i {
                        assert(i < path.len());
                        assert(loaded_before.contains(p));
                    }
                }
                if i < path.len() && exists|j: int|
                    i <= j <= path.len() && p == #[trigger] prefix_of(whole.subrange(0, j)) {
                    let j = choose|j: int|
                        i <= j <= path.len() && p == #[trigger] prefix_of(whole.subrange(0, j));
                    assert(i - 1 <= j <= path.len() && p == prefix_of(whole.subrange(0, j)));
                }
                if p == child_p {
                    assert(i - 1 <= i <= path.len() && p == prefix_of(whole.subrange(0, i as int)));
                }
                if p == parent_p {
                    assert(i - 1 <= i - 1 <= path.len() && p == prefix_of(
                        whole.subrange(0, i - 1),
                    ));
                }
            }
        }
        i = i - 1;
    }
    proof {
        let chain = chain_prefixes(whole);
        assert forall|p: Seq<u8>|
            transaction.loaded().contains(p) <==> old(transaction).loaded().union(chain).contains(
                p,
            ) by {
            if path.len() > 0 {
                if exists|j: int|
                    0 <= j <= path.len() && p == #[trigger] prefix_of(whole.subrange(0, j)) {
                    let j = choose|j: int|
                        0 <= j <= path.len() && p == #[trigger] prefix_of(whole.subrange(0, j));
                    assert(chain.contains(p));
                }
                if chain.contains(p) {
                    let j = choose|j: int|
                        0 <= j <= whole.len() && p == #[trigger] prefix_of(whole.subrange(0, j));
                    assert(0 <= j <= path.len() && p == prefix_of(whole.subrange(0, j)));
                }
            }
        }
        assert(transaction.loaded() =~= old(transaction).loaded().union(chain));
    }
}

/// Inserts `element` under `key` in the subtree at `path`.
pub fn insert_in(
    transaction: &mut Transaction,
    path: &[Vec<u8>],
    key: &[u8],
    element: Element,
) -> (r: Result<(), Error>)
    requires
        old(transaction).wf(),
    ensures
        final(transaction).wf(),
        final(transaction).base_epoch == old(transaction).base_epoch,
        match r {
            Ok(_) => insert_error(old(transaction)@, owned_path_view(path@), key@) is None
                && final(transaction)@ == insert_spec(
                old(transaction)@,
                owned_path_view(path@),
                key@,
                element@,
            ) && final(transaction).loaded() == loaded_after_insert(
                old(transaction).loaded(),
                owned_path_view(path@),
                key@,
                element@,
            ),
            Err(error) => insert_error(old(transaction)@, owned_path_view(path@), key@) == Some(
                error,
            ) && *final(transaction) == *old(transaction),
        },
{
    if !check_subtree(transaction, path) {
        return Err(Error::InvalidPath);
    }
    let prefix = path_prefix(path);
    let existing = get_entry(transaction, prefix.as_slice(), key);
    if holds_tree(&existing) {
        return Err(Error::InvalidElement);
    }
    let stored = match element {
        Element::Tree(_) => {
            let mut child = clone_path(path);
            child.push(copy_bytes(key));
            assert(owned_path_view(child@) =~= owned_path_view(path@).push(key@));
            let child_prefix = path_prefix(child.as_slice());
            clear(transaction, child_prefix.as_slice());
            Element::Tree(None)
        },
        other => other,
    };
    let bytes = stored.encode();
    put_entry(transaction, prefix.as_slice(), key, bytes.as_slice());
    propagate_changes(transaction, path);
    Ok(())
}

impl GroveDb {
    /// Inserts `element` under `key` in the subtree at `path`, which must
    /// exist. A tree starts a fresh, empty subtree; any other element is
    /// stored as it is. The root hashes up to the top-level subtree follow.
    /// A key that holds a tree is not overwritten.
    pub fn insert(
        &mut self,
        path: &[&[u8]],
        key: Vec<u8>,
        element: Element,
        transaction: Option<&mut Transaction>,
    ) -> (r: Result<(), Error>)
        requires
            old(self).wf(),
            match transaction {
                Some(t) => t.wf(),
                None => true,
            },
        ensures
            final(self).wf(),
            match transaction {
                Some(t) => *final(self) == *old(self) && final(t).wf() && final(t).base_epoch
                    == t.base_epoch && match r {
                    Ok(_) => insert_error(t@, path_view(path@), key@) is None && final(t)@
                        == insert_spec(t@, path_view(path@), key@, element@) && final(t).loaded()
                        == loaded_after_insert(t.loaded(), path_view(path@), key@, element@),
                    Err(error) => insert_error(t@, path_view(path@), key@) == Some(error)
                        && *final(t) == *t,
                },
                None => match r {
                    Ok(_) => insert_error(old(self)@, path_view(path@), key@) is None
                        && final(self)@ == insert_spec(
                        old(self)@,
                        path_view(path@),
                        key@,
                        element@,
                    ) && final(self).committed.loaded() == loaded_after_insert(
                        old(self).committed.loaded(),
                        path_view(path@),
                        key@,
                        element@,
                    ) && final(self).epoch() == next_epoch(old(self).epoch()),
                    Err(error) => insert_error(old(self)@, path_view(path@), key@) == Some(error)
                        && *final(self) == *old(self),
                },
            },
    {
        let owned = to_owned_path(path);
        match transaction {
            Some(t) => insert_in(t, owned.as_slice(), key.as_slice(), element),
            None => {
                let r = insert_in(&mut self.committed, owned.as_slice(), key.as_slice(), element);
                if r.is_ok() {
                    self.advance();
                }
                r
            },
        }
    }
}

} // verus!
