//! What the coordinator's operations mean, over the four key spaces as maps.
use vstd::prelude::*;
use crate::context::stored;
use crate::element::{decode_element, encode_element, Element, ElementView};
use crate::error::Error;
use crate::keyspace::{canonical_entries, subtree_map, Pairs};
use crate::path::{owned_path_view, prefix_of, PathView};
use crate::storage::StorageView;
use crate::subtree::{clear_subtree, delete_in_subtree, put_in_subtree, subtree_root};

verus! {

/// How many references a read follows before it gives up.
pub const MAX_REF_HOPS: usize = 10;

/// The prefix of the top-level subtree.
pub open spec fn top_prefix() -> Seq<u8> {
    prefix_of(Seq::<Seq<u8>>::empty())
}

/// The bytes stored under `key` in the subtree at `path`.
pub open spec fn stored_at(s: StorageView, path: PathView, key: Seq<u8>) -> Option<Seq<u8>> {
    stored(s.main, prefix_of(path) + key)
}

/// `value` is the stored form of a tree.
pub open spec fn is_tree_bytes(value: Option<Seq<u8>>) -> bool {
    match value {
        Some(bytes) => decode_element(bytes) matches Some(ElementView::Tree(_)),
        None => false,
    }
}

/// Segment `i` of `path` names a tree in the subtree that the segments before it lead to.
pub open spec fn names_tree(s: StorageView, path: PathView, i: int) -> bool {
    is_tree_bytes(stored_at(s, path.subrange(0, i), path[i]))
}

/// `path` leads from the top-level subtree through trees only; the empty
/// path always does.
pub open spec fn is_subtree(s: StorageView, path: PathView) -> bool {
    forall|i: int| 0 <= i < path.len() ==> #[trigger] names_tree(s, path, i)
}

/// What a read of `key` in the subtree at `path` gives, references not followed.
pub open spec fn get_raw_spec(s: StorageView, path: PathView, key: Seq<u8>) -> Result<
    ElementView,
    Error,
> {
    if !is_subtree(s, path) {
        Err(Error::InvalidPath)
    } else {
        match stored_at(s, path, key) {
            None => Err(Error::InvalidPath),
            Some(bytes) => match decode_element(bytes) {
                Some(element) => Ok(element),
                None => Err(Error::CorruptedData),
            },
        }
    }
}

/// What a read of `key` in the subtree at `path` gives when at most `hops`
/// references are followed.
pub open spec fn resolve(s: StorageView, path: PathView, key: Seq<u8>, hops: nat) -> Result<
    ElementView,
    Error,
>
    decreases hops,
{
    match get_raw_spec(s, path, key) {
        Ok(ElementView::Reference(target_path, target_key)) => if hops == 0 {
            Err(Error::ReferenceLimit)
        } else {
            resolve(s, target_path, target_key, (hops - 1) as nat)
        },
        other => other,
    }
}

/// What a read of `key` in the subtree at `path` gives, references followed.
pub open spec fn get_spec(s: StorageView, path: PathView, key: Seq<u8>) -> Result<
    ElementView,
    Error,
> {
    resolve(s, path, key, MAX_REF_HOPS as nat)
}

/// The result of a read as a mathematical value.
pub open spec fn read_view(r: Result<Element, Error>) -> Result<ElementView, Error> {
    match r {
        Ok(element) => Ok(element@),
        Err(error) => Err(error),
    }
}

/// The state after the root hash of the subtree at `path` is written into
/// its parent, and so on up to the top-level subtree: each step sees the
/// root hash that the step before it made.
pub open spec fn propagate(s: StorageView, path: PathView) -> StorageView
    decreases path.len(),
{
    if path.len() == 0 {
        s
    } else {
        let tree = ElementView::Tree(subtree_root(s, prefix_of(path)));
        propagate(
            put_in_subtree(s, prefix_of(path.drop_last()), path.last(), encode_element(tree)),
            path.drop_last(),
        )
    }
}

/// The keys of the trees among `entries`, in order; nothing if an entry
/// does not decode.
pub open spec fn tree_keys(entries: Pairs) -> Option<Seq<Seq<u8>>>
    decreases entries.len(),
{
    if entries.len() == 0 {
        Some(Seq::empty())
    } else {
        match (tree_keys(entries.drop_last()), decode_element(entries.last().1)) {
            (Some(keys), Some(ElementView::Tree(_))) => Some(keys.push(entries.last().0)),
            (Some(keys), Some(_)) => Some(keys),
            _ => None,
        }
    }
}

/// The paths `path` with each of `keys` at its end.
pub open spec fn child_paths(path: PathView, keys: Seq<Seq<u8>>) -> Seq<PathView> {
    Seq::new(keys.len(), |i: int| path.push(keys[i]))
}

/// The paths of the trees in the subtree under the prefix of `path`, in key
/// order; nothing if an entry there does not decode.
pub open spec fn children(s: StorageView, path: PathView) -> Option<Seq<PathView>> {
    match tree_keys(canonical_entries(subtree_map(s.main, prefix_of(path)))) {
        Some(keys) => Some(child_paths(path, keys)),
        None => None,
    }
}

/// The worklist traversal: takes the last path off `queue`, puts its
/// children on `queue` and `found`, and goes on until the queue is empty.
/// Nothing if an entry met on the way does not decode, or if more than
/// `fuel` paths are visited.
pub open spec fn walk(s: StorageView, queue: Seq<PathView>, found: Seq<PathView>, fuel: nat) ->
    Option<Seq<PathView>>
    decreases fuel,
{
    if queue.len() == 0 {
        Some(found)
    } else if fuel == 0 {
        None
    } else {
        match children(s, queue.last()) {
            Some(below) => walk(s, queue.drop_last() + below, found + below, (fuel - 1) as nat),
            None => None,
        }
    }
}

/// How many subtrees a traversal of `s` may visit: one more than the *main*
/// space has entries.
pub open spec fn visit_limit(s: StorageView) -> nat {
    canonical_entries(s.main).len() + 1
}

/// The subtree at `path` and the subtrees below it, as the traversal finds them.
pub open spec fn find_subtrees_spec(s: StorageView, path: PathView) -> Option<Seq<PathView>> {
    walk(s, seq![path], seq![path], visit_limit(s))
}

/// Why the traversal from `path` fails, if it does: the path leads to no
/// subtree, or the traversal meets corrupted data.
pub open spec fn find_subtrees_error(s: StorageView, path: PathView) -> Option<Error> {
    if !is_subtree(s, path) {
        Some(Error::InvalidPath)
    } else if find_subtrees_spec(s, path) is None {
        Some(Error::CorruptedData)
    } else {
        None
    }
}

/// The state after the ranges of the prefixes of `paths` are cleared.
pub open spec fn clear_all(s: StorageView, paths: Seq<PathView>) -> StorageView
    decreases paths.len(),
{
    if paths.len() == 0 {
        s
    } else {
        clear_subtree(clear_all(s, paths.drop_last()), prefix_of(paths.last()))
    }
}

/// What an insert stores: a tree starts without a root hash.
pub open spec fn stored_form(element: ElementView) -> ElementView {
    match element {
        ElementView::Tree(_) => ElementView::Tree(None),
        other => other,
    }
}

/// Why an insert of an element under `key` in the subtree at `path` fails, if it does.
pub open spec fn insert_error(s: StorageView, path: PathView, key: Seq<u8>) -> Option<Error> {
    if !is_subtree(s, path) {
        Some(Error::InvalidPath)
    } else if is_tree_bytes(stored_at(s, path, key)) {
        Some(Error::InvalidElement)
    } else {
        None
    }
}

/// The state after `element` is inserted under `key` in the subtree at
/// `path`: for a tree the ranges of the new subtree are cleared first; the
/// element is stored, and the change is propagated.
pub open spec fn insert_spec(s: StorageView, path: PathView, key: Seq<u8>, element: ElementView) ->
    StorageView {
    let fresh = match element {
        ElementView::Tree(_) => clear_subtree(s, prefix_of(path.push(key))),
        _ => s,
    };
    propagate(
        put_in_subtree(fresh, prefix_of(path), key, encode_element(stored_form(element))),
        path,
    )
}

/// The paths whose ranges a delete of `key` in the subtree at `path`
/// clears: those of the subtree below a tree, none below another element.
pub open spec fn doomed(s: StorageView, path: PathView, key: Seq<u8>) -> Option<Seq<PathView>> {
    match get_raw_spec(s, path, key) {
        Ok(ElementView::Tree(_)) => find_subtrees_spec(s, path.push(key)),
        _ => Some(Seq::empty()),
    }
}

/// Why a delete of `key` in the subtree at `path` fails, if it does.
pub open spec fn delete_error(s: StorageView, path: PathView, key: Seq<u8>) -> Option<Error> {
    match get_raw_spec(s, path, key) {
        Err(error) => Some(error),
        Ok(_) => if path.len() == 0 {
            Some(Error::InvalidPath)
        } else if doomed(s, path, key) is None {
            Some(Error::CorruptedData)
        } else {
            None
        },
    }
}

/// The state after `key` is deleted from the subtree at `path`: the entry
/// is removed, the ranges of every subtree below it are cleared, and the
/// change is propagated.
pub open spec fn delete_spec(s: StorageView, path: PathView, key: Seq<u8>) -> StorageView {
    propagate(
        clear_all(delete_in_subtree(s, prefix_of(path), key), doomed(s, path, key).unwrap()),
        path,
    )
}

/// The views of a list of paths.
pub open spec fn paths_view(paths: Seq<Vec<Vec<u8>>>) -> Seq<PathView> {
    Seq::new(paths.len(), |i: int| owned_path_view(paths[i]@))
}

/// The prefixes of the subtree at `path` and of the subtrees above it,
/// which propagation from `path` opens; none for the top-level path, from
/// which nothing is propagated.
pub open spec fn chain_prefixes(path: PathView) -> Set<Seq<u8>> {
    Set::new(
        |p: Seq<u8>|
            path.len() > 0 && exists|i: int|
                0 <= i <= path.len() && p == #[trigger] prefix_of(path.subrange(0, i)),
    )
}

/// The prefixes of `paths`.
pub open spec fn prefixes_of(paths: Seq<PathView>) -> Set<Seq<u8>> {
    Set::new(
        |p: Seq<u8>| exists|j: int| 0 <= j < paths.len() && p == prefix_of(#[trigger] paths[j]),
    )
}

/// The handles loaded after an insert, from those loaded before: the new
/// subtree of a tree is closed, the subtree at `path` and those above it
/// are open.
pub open spec fn loaded_after_insert(
    loaded: Set<Seq<u8>>,
    path: PathView,
    key: Seq<u8>,
    element: ElementView,
) -> Set<Seq<u8>> {
    let fresh = match element {
        ElementView::Tree(_) => loaded.remove(prefix_of(path.push(key))),
        _ => loaded,
    };
    fresh.insert(prefix_of(path)).union(chain_prefixes(path))
}

/// The handles loaded after a delete, from those loaded before: the
/// handles of the cleared subtrees are evicted, the subtree at `path` and
/// those above it are open.
pub open spec fn loaded_after_delete(loaded: Set<Seq<u8>>, path: PathView, below: Seq<PathView>) ->
    Set<Seq<u8>> {
    loaded.insert(prefix_of(path)).difference(prefixes_of(below)).union(chain_prefixes(path))
}

} // verus!
