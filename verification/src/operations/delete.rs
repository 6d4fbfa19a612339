//! Deletes: the entry goes, and with a tree every subtree below it.
use vstd::prelude::*;
use crate::bytes::copy_bytes;
use crate::context::PrefixedRocksDbTransactionContext;
use crate::element::Element;
use crate::error::Error;
use crate::grove::{next_epoch, GroveDb};
use crate::keyspace::{
    canonical_entries, is_prefix_range, lemma_canonical, lemma_prefix_range, lemma_range_is_subtree,
    range_end, range_entries, sorted, subtree_map, Pairs,
};
use crate::model::{
    child_paths, children, clear_all, delete_error, delete_spec, doomed, find_subtrees_error,
    find_subtrees_spec, loaded_after_delete, paths_view, prefixes_of, tree_keys, visit_limit,
    walk,
};
use crate::operations::get::{check_subtree, get_raw_in};
use crate::operations::insert::propagate_changes;
use crate::path::{
    clone_path, owned_path_view, path_prefix, path_view, prefix_of, to_owned_path, PathView,
};
use crate::storage::Transaction;
use crate::subtree::{clear, delete_entry};

verus! {

/// Entries that do not decode stay so when more entries follow.
proof fn lemma_tree_keys_none(entries: Pairs, j: int)
    requires
        0 <= j <= entries.len(),
        tree_keys(entries.subrange(0, j)) is None,
    ensures
        tree_keys(entries) is None,
    decreases entries.len() - j,
{
    if j == entries.len() {
        assert(entries.subrange(0, j) =~= entries);
    } else {
        assert(entries.drop_last().subrange(0, j) =~= entries.subrange(0, j));
        lemma_tree_keys_none(entries.drop_last(), j);
    }
}

/// The paths of the trees among the entries under the context's prefix,
/// which is the prefix of `path`, in key order.
fn scan_children(context: &PrefixedRocksDbTransactionContext, path: &[Vec<u8>]) -> (r: Result<
    Vec<Vec<Vec<u8>>>,
    Error,
>)
    requires
        context.wf(),
        context.prefix@ == prefix_of(owned_path_view(path@)),
    ensures
        match r {
            Ok(list) => children(context.storage(), owned_path_view(path@)) == Some(
                paths_view(list@),
            ),
            Err(error) => error == Error::CorruptedData && children(
                context.storage(),
                owned_path_view(path@),
            ) is None,
        },
{
    let ghost whole = owned_path_view(path@);
    let mut cursor = context.raw_iter();
    cursor.seek_to_first();
    let ghost s = cursor.space.entries();
    let ghost p = cursor.prefix@;
    let ghost n = p.len() as int;
    let ghost lo = cursor.position as int;
    let ghost hi = range_end(s, p, lo);
    let ghost mut keys: Seq<Seq<u8>> = Seq::empty();
    let mut list: Vec<Vec<Vec<u8>>> = Vec::new();
    proof {
        lemma_prefix_range(s, p, lo);
        lemma_range_is_subtree(s, p, lo, hi);
        assert(range_entries(s, lo, lo, n) =~= Seq::<(Seq<u8>, Seq<u8>)>::empty());
        assert(paths_view(list@) =~= child_paths(whole, keys));
    }
    while cursor.valid()
        invariant
            cursor.space.entries() == s,
            cursor.prefix@ == p,
            n == p.len(),
            sorted(s),
            is_prefix_range(s, p, lo, hi),
            lo <= cursor.position <= hi,
            whole == owned_path_view(path@),
            tree_keys(range_entries(s, lo, cursor.position as int, n)) == Some(keys),
            paths_view(list@) == child_paths(whole, keys),
            canonical_entries(subtree_map(context.storage().main, prefix_of(whole)))
                == range_entries(s, lo, hi, n),
        decreases hi - cursor.position,
    {
        let ghost pos = cursor.position as int;
        let key = cursor.key().unwrap();
        let value = cursor.value().unwrap();
        proof {
            let before = range_entries(s, lo, pos, n);
            let after = range_entries(s, lo, pos + 1, n);
            assert(after.drop_last() =~= before);
            assert(key@ =~= s[pos].0.subrange(n, s[pos].0.len() as int)) by {
                assert((p + key@).subrange(n, (p + key@).len() as int) =~= key@);
            }
            assert(after.last() == (key@, value@));
            assert(after =~= range_entries(s, lo, hi, n).subrange(0, pos + 1 - lo));
        }
        match Element::decode(value.as_slice()) {
            Ok(Element::Tree(_)) => {
                let mut child = clone_path(path);
                child.push(key);
                proof {
                    assert(owned_path_view(child@) =~= whole.push(key@));
                    let longer = paths_view(list@.push(child));
                    let wanted = child_paths(whole, keys.push(key@));
                    assert(paths_view(list@).len() == list@.len());
                    assert(child_paths(whole, keys).len() == keys.len());
                    assert forall|i: int| 0 <= i < longer.len() implies longer[i] == wanted[i] by {
                        if i < list@.len() {
                            assert(paths_view(list@)[i] == child_paths(whole, keys)[i]);
                        }
                    }
                    assert(longer =~= wanted);
                    keys = keys.push(key@);
                }
                list.push(child);
            },
            Ok(_) => {},
            Err(_) => {
                proof {
                    lemma_tree_keys_none(range_entries(s, lo, hi, n), pos + 1 - lo);
                }
                return Err(Error::CorruptedData);
            },
        }
        cursor.next();
    }
    assert(cursor.position == hi);
    Ok(list)
}

/// The paths of the trees in the subtree at `path`, in key order.
pub fn tree_children(transaction: &mut Transaction, path: &[Vec<u8>]) -> (r: Result<
    Vec<Vec<Vec<u8>>>,
    Error,
>)
    requires
        old(transaction).storage.wf(),
    ensures
        *final(transaction) == *old(transaction),
        match r {
            Ok(list) => children(old(transaction)@, owned_path_view(path@)) == Some(
                paths_view(list@),
            ),
            Err(error) => error == Error::CorruptedData && children(
                old(transaction)@,
                owned_path_view(path@),
            ) is None,
        },
{
    let prefix = path_prefix(path);
    let context = PrefixedRocksDbTransactionContext::new(transaction, prefix);
    scan_children(&context, path)
}

/// Puts copies of the paths of `source` at the end of `target`.
fn append_copies(target: &mut Vec<Vec<Vec<u8>>>, source: &Vec<Vec<Vec<u8>>>)
    ensures
        paths_view(final(target)@) == paths_view(old(target)@) + paths_view(source@),
{
    let mut i: usize = 0;
    assert(paths_view(target@) =~= paths_view(old(target)@) + paths_view(source@).subrange(0, 0));
    while i < source.len()
        invariant
            i <= source.len(),
            paths_view(target@) == paths_view(old(target)@) + paths_view(source@).subrange(
                0,
                i as int,
            ),
        decreases source.len() - i,
    {
        let copy = clone_path(source[i].as_slice());
        proof {
            let longer = paths_view(target@.push(copy));
            let so_far = paths_view(old(target)@) + paths_view(source@).subrange(0, i as int);
            let wanted = paths_view(old(target)@) + paths_view(source@).subrange(0, i + 1);
            assert(paths_view(target@).len() == target@.len());
            assert(so_far.len() == old(target)@.len() + i);
            assert forall|j: int| 0 <= j < longer.len() implies longer[j] == wanted[j] by {
                if j < target@.len() {
                    assert(paths_view(target@)[j] == so_far[j]);
                }
            }
            assert(longer =~= wanted);
        }
        target.push(copy);
        i += 1;
    }
    assert(paths_view(source@).subrange(0, i as int) =~= paths_view(source@));
}

/// The subtree at `path` and every subtree below it, found by a worklist
/// traversal of the trees in each visited subtree.
pub fn find_subtrees_in(transaction: &mut Transaction, path: Vec<Vec<u8>>) -> (r: Result<
    Vec<Vec<Vec<u8>>>,
    Error,
>)
    requires
        old(transaction).storage.wf(),
    ensures
        *final(transaction) == *old(transaction),
        match r {
            Ok(found) => find_subtrees_spec(old(transaction)@, owned_path_view(path@)) == Some(
                paths_view(found@),
            ),
            Err(error) => error == Error::CorruptedData && find_subtrees_spec(
                old(transaction)@,
                owned_path_view(path@),
            ) is None,
        },
{
    let ghost s = transaction@;
    let ghost start = owned_path_view(path@);
    let mut queue: Vec<Vec<Vec<u8>>> = Vec::new();
    queue.push(clone_path(path.as_slice()));
    let mut found: Vec<Vec<Vec<u8>>> = Vec::new();
    found.push(clone_path(path.as_slice()));
    let mut fuel: u128 = transaction.storage.main.len() as u128 + 1;
    proof {
        lemma_canonical(transaction.storage.main.entries());
        assert(fuel == visit_limit(s));
        assert(paths_view(queue@) =~= seq![start]);
        assert(paths_view(found@) =~= seq![start]);
    }
    while queue.len() > 0
        invariant
            *transaction == *old(transaction),
            s == transaction@,
            transaction.storage.wf(),
            start == owned_path_view(path@),
            find_subtrees_spec(s, start) == walk(
                s,
                paths_view(queue@),
                paths_view(found@),
                fuel as nat,
            ),
        decreases fuel,
    {
        assert(paths_view(queue@).len() == queue@.len());
        if fuel == 0 {
            return Err(Error::CorruptedData);
        }
        let ghost queue_before = paths_view(queue@);
        let ghost found_before = paths_view(found@);
        let current = queue.pop().unwrap();
        proof {
            assert(paths_view(queue@) =~= queue_before.drop_last());
            assert(owned_path_view(current@) == queue_before.last());
        }
        match tree_children(transaction, current.as_slice()) {
            Ok(mut below) => {
                append_copies(&mut queue, &below);
                let ghost below_view = paths_view(below@);
                found.append(&mut below);
                proof {
                    assert(paths_view(found@) =~= found_before + below_view);
                }
            },
            Err(error) => {
                assert(children(s, queue_before.last()) is None);
                assert(walk(s, queue_before, found_before, fuel as nat) is None);
                return Err(error);
            },
        }
        fuel = fuel - 1;
    }
    Ok(found)
}

/// Clears the ranges of the prefix of each of `paths` and evicts its handle.
pub fn clear_subtrees(transaction: &mut Transaction, paths: &Vec<Vec<Vec<u8>>>)
    requires
        old(transaction).wf(),
    ensures
        final(transaction).wf(),
        final(transaction)@ == clear_all(old(transaction)@, paths_view(paths@)),
        final(transaction).loaded() == old(transaction).loaded().difference(
            prefixes_of(paths_view(paths@)),
        ),
        final(transaction).base_epoch == old(transaction).base_epoch,
{
    let ghost start = transaction@;
    let ghost all = paths_view(paths@);
    let mut i: usize = 0;
    assert(all.subrange(0, 0) =~= Seq::<PathView>::empty());
    assert(transaction.loaded() =~= old(transaction).loaded().difference(
        prefixes_of(all.subrange(0, 0)),
    ));
    while i < paths.len()
        invariant
            i <= paths.len(),
            all == paths_view(paths@),
            transaction.wf(),
            transaction.base_epoch == old(transaction).base_epoch,
            transaction@ == clear_all(start, all.subrange(0, i as int)),
            transaction.loaded() == old(transaction).loaded().difference(
                prefixes_of(all.subrange(0, i as int)),
            ),
        decreases paths.len() - i,
    {
        let prefix = path_prefix(paths[i].as_slice());
        clear(transaction, prefix.as_slice());
        proof {
            let so_far = all.subrange(0, i as int);
            let next = all.subrange(0, i + 1);
            assert(next.drop_last() =~= so_far);
            assert(next.last() == owned_path_view(paths@[i as int]@));
            assert forall|p: Seq<u8>|
                prefixes_of(next).contains(p) <==> prefixes_of(so_far).contains(p) || p
                    == prefix@ by {
                if prefixes_of(so_far).contains(p) {
                    let j = choose|j: int| 0 <= j < so_far.len() && p == prefix_of(so_far[j]);
                    assert(next[j] == so_far[j]);
                }
                if p == prefix@ {
                    assert(next[i as int] == next.last());
                }
                if prefixes_of(next).contains(p) {
                    let j = choose|j: int| 0 <= j < next.len() && p == prefix_of(next[j]);
                    if j < i {
                        assert(so_far[j] == next[j]);
                    }
                }
            }
            assert(transaction.loaded() =~= old(transaction).loaded().difference(
                prefixes_of(next),
            ));
        }
        i += 1;
    }
    assert(all.subrange(0, i as int) =~= all);
}

/// Deletes `key` from the subtree at `path`.
pub fn delete_in(transaction: &mut Transaction, path: &[Vec<u8>], key: &[u8]) -> (r: Result<
    (),
    Error,
>)
    requires
        old(transaction).wf(),
    ensures
        final(transaction).wf(),
        final(transaction).base_epoch == old(transaction).base_epoch,
        match r {
            Ok(_) => delete_error(old(transaction)@, owned_path_view(path@), key@) is None
                && final(transaction)@ == delete_spec(
                old(transaction)@,
                owned_path_view(path@),
                key@,
            ) && final(transaction).loaded() == loaded_after_delete(
                old(transaction).loaded(),
                owned_path_view(path@),
                doomed(old(transaction)@, owned_path_view(path@), key@).unwrap(),
            ),
            Err(error) => delete_error(old(transaction)@, owned_path_view(path@), key@) == Some(
                error,
            ) && *final(transaction) == *old(transaction),
        },
{
    let element = match get_raw_in(transaction, path, key) {
        Ok(element) => element,
        Err(error) => {
            return Err(error);
        },
    };
    if path.len() == 0 {
        return Err(Error::InvalidPath);
    }
    let below = match element {
        Element::Tree(_) => {
            let mut child = clone_path(path);
            child.push(copy_bytes(key));
            assert(owned_path_view(child@) =~= owned_path_view(path@).push(key@));
            match find_subtrees_in(transaction, child) {
                Ok(found) => found,
                Err(error) => {
                    return Err(error);
                },
            }
        },
        _ => {
            let none: Vec<Vec<Vec<u8>>> = Vec::new();
            assert(paths_view(none@) =~= Seq::<PathView>::empty());
            none
        },
    };
    let prefix = path_prefix(path);
    delete_entry(transaction, prefix.as_slice(), key);
    clear_subtrees(transaction, &below);
    propagate_changes(transaction, path);
    Ok(())
}

/// The subtree at `path`, which must be one that a path leads to, and
/// every subtree below it.
pub fn find_existing_subtrees(transaction: &mut Transaction, path: Vec<Vec<u8>>) -> (r: Result<
    Vec<Vec<Vec<u8>>>,
    Error,
>)
    requires
        old(transaction).storage.wf(),
    ensures
        *final(transaction) == *old(transaction),
        match r {
            Ok(found) => find_subtrees_error(old(transaction)@, owned_path_view(path@)) is None
                && find_subtrees_spec(old(transaction)@, owned_path_view(path@)) == Some(
                paths_view(found@),
            ),
            Err(error) => find_subtrees_error(old(transaction)@, owned_path_view(path@)) == Some(
                error,
            ),
        },
{
    if !check_subtree(transaction, path.as_slice()) {
        return Err(Error::InvalidPath);
    }
    find_subtrees_in(transaction, path)
}

impl GroveDb {
    /// Deletes `key` from the subtree at `path`. With a tree every subtree
    /// below it goes too: the ranges of their prefixes are cleared from the
    /// *main*, *aux* and *roots* spaces, and their handles evicted. The root
    /// hashes up to the top-level subtree follow. An entry of the top-level
    /// subtree stays, and so does the whole state when the delete fails.
    pub fn delete(
        &mut self,
        path: &[&[u8]],
        key: Vec<u8>,
        transaction: Option<&mut Transaction>,
    ) -> (r: Result<(), Error>)
        requires
            old(self).wf(),
            match transaction {
                Some(t) => t.wf(),
                None => true,
            },
        ensures
            final(self).wf(),
            match transaction {
                Some(t) => *final(self) == *old(self) && final(t).wf() && final(t).base_epoch
                    == t.base_epoch && match r {
                    Ok(_) => delete_error(t@, path_view(path@), key@) is None && final(t)@
                        == delete_spec(t@, path_view(path@), key@) && final(t).loaded()
                        == loaded_after_delete(
                        t.loaded(),
                        path_view(path@),
                        doomed(t@, path_view(path@), key@).unwrap(),
                    ),
                    Err(error) => delete_error(t@, path_view(path@), key@) == Some(error)
                        && *final(t) == *t,
                },
                None => match r {
                    Ok(_) => delete_error(old(self)@, path_view(path@), key@) is None
                        && final(self)@ == delete_spec(old(self)@, path_view(path@), key@)
                        && final(self).committed.loaded() == loaded_after_delete(
                        old(self).committed.loaded(),
                        path_view(path@),
                        doomed(old(self)@, path_view(path@), key@).unwrap(),
                    ) && final(self).epoch() == next_epoch(old(self).epoch()),
                    Err(error) => delete_error(old(self)@, path_view(path@), key@) == Some(error)
                        && *final(self) == *old(self),
                },
            },
    {
        let owned = to_owned_path(path);
        match transaction {
            Some(t) => delete_in(t, owned.as_slice(), key.as_slice()),
            None => {
                let r = delete_in(&mut self.committed, owned.as_slice(), key.as_slice());
                if r.is_ok() {
                    self.advance();
                }
                r
            },
        }
    }

    /// The subtree at `path` and every subtree below it: the paths that a
    /// worklist traversal finds, which takes a path off the worklist and
    /// puts the trees of its subtree on it. A path that leads to no subtree
    /// is an invalid path. An entry that does not decode, or more subtrees
    /// than the *main* space has entries, is corrupted data.
    pub fn find_subtrees(
        &mut self,
        path: Vec<Vec<u8>>,
        transaction: Option<&mut Transaction>,
    ) -> (r: Result<Vec<Vec<Vec<u8>>>, Error>)
        requires
            old(self).committed.storage.wf(),
            match transaction {
                Some(t) => t.storage.wf(),
                None => true,
            },
        ensures
            *final(self) == *old(self),
            match transaction {
                Some(t) => *final(t) == *t && match r {
                    Ok(found) => find_subtrees_error(t@, owned_path_view(path@)) is None
                        && find_subtrees_spec(t@, owned_path_view(path@)) == Some(
                        paths_view(found@),
                    ),
                    Err(error) => find_subtrees_error(t@, owned_path_view(path@)) == Some(error),
                },
                None => match r {
                    Ok(found) => find_subtrees_error(old(self)@, owned_path_view(path@)) is None
                        && find_subtrees_spec(old(self)@, owned_path_view(path@)) == Some(
                        paths_view(found@),
                    ),
                    Err(error) => find_subtrees_error(old(self)@, owned_path_view(path@)) == Some(
                        error,
                    ),
                },
            },
    {
        match transaction {
            Some(t) => find_existing_subtrees(t, path),
            None => find_existing_subtrees(&mut self.committed, path),
        }
    }
}

} // verus!
