//! What holds of the coordinator's operations, proved from their meaning.
use vstd::prelude::*;
use crate::bytes::has_prefix;
use crate::context::stored;
use crate::element::ElementView;
use crate::error::Error;
use crate::hash::HASH_LENGTH;
use crate::keyspace::{
    canonical_entries, has_key, held, index_of_key, lemma_held_subtree, lemma_sorted_lookup,
    subtree_map, Pairs,
};
use crate::model::{
    children, clear_all, delete_error, delete_spec, doomed, find_subtrees_spec, get_raw_spec,
    is_tree_bytes, names_tree, propagate, resolve, stored_at, tree_keys, visit_limit, walk,
};
use crate::path::{lemma_prefix_length, prefix_of, PathView};
use crate::storage::StorageView;
use crate::subtree::{delete_in_subtree, lemma_root_keys, put_in_subtree};

verus! {

/// Two prefixes over one key are the same prefix.
pub proof fn lemma_one_prefix(key: Seq<u8>, a: PathView, b: PathView)
    requires
        has_prefix(key, prefix_of(a)),
        has_prefix(key, prefix_of(b)),
    ensures
        prefix_of(a) == prefix_of(b),
{
    lemma_prefix_length(a);
    lemma_prefix_length(b);
    assert(key.subrange(0, HASH_LENGTH as int) == prefix_of(a));
    assert(key.subrange(0, HASH_LENGTH as int) == prefix_of(b));
}

/// A put in the subtree under `p` changes, in the *main* and *roots*
/// spaces, only what lies under `p`.
pub proof fn lemma_put_frame(s: StorageView, p: Seq<u8>, k: Seq<u8>, v: Seq<u8>, key: Seq<u8>)
    requires
        !has_prefix(key, p),
    ensures
        stored(put_in_subtree(s, p, k, v).main, key) == stored(s.main, key),
        stored(put_in_subtree(s, p, k, v).roots, key) == stored(s.roots, key),
        put_in_subtree(s, p, k, v).aux == s.aux,
        put_in_subtree(s, p, k, v).meta == s.meta,
{
    assert((p + k).subrange(0, p.len() as int) =~= p);
    lemma_root_keys(p, p);
}

/// Propagation from the subtree at `path` writes only under the prefixes of
/// the subtrees above it, and nothing in the *aux* and *meta* spaces.
pub proof fn lemma_propagate_frame(s: StorageView, path: PathView, key: Seq<u8>)
    requires
        forall|i: int|
            0 <= i < path.len() ==> !has_prefix(key, #[trigger] prefix_of(path.subrange(0, i))),
    ensures
        stored(propagate(s, path).main, key) == stored(s.main, key),
        stored(propagate(s, path).roots, key) == stored(s.roots, key),
        propagate(s, path).aux == s.aux,
        propagate(s, path).meta == s.meta,
    decreases path.len(),
{
    if path.len() > 0 {
        let parent = path.drop_last();
        let tree = crate::element::ElementView::Tree(
            crate::subtree::subtree_root(s, prefix_of(path)),
        );
        let bytes = crate::element::encode_element(tree);
        let next = put_in_subtree(s, prefix_of(parent), path.last(), bytes);
        assert(parent =~= path.subrange(0, path.len() - 1));
        assert(!has_prefix(key, prefix_of(path.subrange(0, path.len() - 1))));
        lemma_put_frame(s, prefix_of(parent), path.last(), bytes, key);
        assert forall|i: int| 0 <= i < parent.len() implies !has_prefix(
            key,
            #[trigger] prefix_of(parent.subrange(0, i)),
        ) by {
            assert(parent.subrange(0, i) =~= path.subrange(0, i));
        }
        lemma_propagate_frame(next, parent, key);
    }
}

/// Clearing the ranges of the prefixes of `paths` keeps, in the *main*,
/// *aux* and *roots* spaces, exactly what lies under none of them.
pub proof fn lemma_clear_all(s: StorageView, paths: Seq<PathView>, key: Seq<u8>)
    ensures
        stored(clear_all(s, paths).main, key) == if exists|j: int|
            0 <= j < paths.len() && has_prefix(key, prefix_of(#[trigger] paths[j])) {
            None
        } else {
            stored(s.main, key)
        },
        stored(clear_all(s, paths).aux, key) == if exists|j: int|
            0 <= j < paths.len() && has_prefix(key, prefix_of(#[trigger] paths[j])) {
            None
        } else {
            stored(s.aux, key)
        },
        stored(clear_all(s, paths).roots, key) == if exists|j: int|
            0 <= j < paths.len() && has_prefix(key, prefix_of(#[trigger] paths[j])) {
            None
        } else {
            stored(s.roots, key)
        },
        clear_all(s, paths).meta == s.meta,
    decreases paths.len(),
{
    if paths.len() > 0 {
        let rest = paths.drop_last();
        lemma_clear_all(s, rest, key);
        let hit_rest = exists|j: int|
            0 <= j < rest.len() && has_prefix(key, prefix_of(#[trigger] rest[j]));
        let hit = exists|j: int|
            0 <= j < paths.len() && has_prefix(key, prefix_of(#[trigger] paths[j]));
        if hit_rest {
            let j = choose|j: int|
                0 <= j < rest.len() && has_prefix(key, prefix_of(#[trigger] rest[j]));
            assert(paths[j] == rest[j]);
            assert(hit);
        }
        if has_prefix(key, prefix_of(paths.last())) {
            assert(paths[paths.len() - 1] == paths.last());
            assert(hit);
        }
        if hit {
            let j = choose|j: int|
                0 <= j < paths.len() && has_prefix(key, prefix_of(#[trigger] paths[j]));
            if j < rest.len() {
                assert(paths[j] == rest[j]);
                assert(hit_rest);
            }
        }
    }
}

/// Recursive closure. After the delete of a tree nothing is left, in the
/// *main*, *aux* and *roots* spaces, under the prefix of a subtree that the
/// traversal found below it. The one exception is a prefix that is also the
/// prefix of a subtree above the deleted entry: propagation writes there.
pub proof fn lemma_delete_clears_subtrees(
    s: StorageView,
    path: PathView,
    key: Seq<u8>,
    below: PathView,
    stored_key: Seq<u8>,
)
    requires
        delete_error(s, path, key) is None,
        doomed(s, path, key).unwrap().contains(below),
        has_prefix(stored_key, prefix_of(below)),
        forall|i: int|
            0 <= i < path.len() ==> #[trigger] prefix_of(path.subrange(0, i)) != prefix_of(below),
    ensures
        !delete_spec(s, path, key).main.contains_key(stored_key),
        !delete_spec(s, path, key).aux.contains_key(stored_key),
        !delete_spec(s, path, key).roots.contains_key(stored_key),
{
    let paths = doomed(s, path, key).unwrap();
    let removed = delete_in_subtree(s, prefix_of(path), key);
    let cleared = clear_all(removed, paths);
    let j = choose|j: int| 0 <= j < paths.len() && paths[j] == below;
    lemma_clear_all(removed, paths, stored_key);
    assert(has_prefix(stored_key, prefix_of(paths[j])));
    assert forall|i: int| 0 <= i < path.len() implies !has_prefix(
        stored_key,
        #[trigger] prefix_of(path.subrange(0, i)),
    ) by {
        if has_prefix(stored_key, prefix_of(path.subrange(0, i))) {
            lemma_one_prefix(stored_key, path.subrange(0, i), below);
        }
    }
    lemma_propagate_frame(cleared, path, stored_key);
}

/// The subtree at `q` is the subtree at `root` or lies below it: `q`
/// begins with `root`, and each further segment names a tree.
pub open spec fn is_below(s: StorageView, root: PathView, q: PathView) -> bool {
    &&& root.len() <= q.len()
    &&& q.subrange(0, root.len() as int) == root
    &&& forall|i: int| root.len() <= i < q.len() ==> #[trigger] names_tree(s, q, i)
}

/// `found` holds, with each path that is not waiting in `queue`, the paths
/// of the trees in its subtree.
pub open spec fn closed_under_trees(s: StorageView, found: Seq<PathView>, queue: Seq<PathView>) ->
    bool {
    forall|p: PathView, k: Seq<u8>|
        #![trigger stored_at(s, p, k)]
        found.contains(p) && !queue.contains(p) && is_tree_bytes(stored_at(s, p, k))
            ==> found.contains(p.push(k))
}

/// A tree in a subtree below `root` names a subtree below `root`.
pub proof fn lemma_below_push(s: StorageView, root: PathView, p: PathView, k: Seq<u8>)
    requires
        is_below(s, root, p),
        is_tree_bytes(stored_at(s, p, k)),
    ensures
        is_below(s, root, p.push(k)),
{
    let q = p.push(k);
    assert(q.subrange(0, root.len() as int) =~= p.subrange(0, root.len() as int));
    assert forall|i: int| root.len() <= i < q.len() implies #[trigger] names_tree(s, q, i) by {
        if i < p.len() {
            assert(q.subrange(0, i) =~= p.subrange(0, i));
            assert(names_tree(s, p, i));
        } else {
            assert(q.subrange(0, i) =~= p);
        }
    }
}

/// A subtree strictly below `root` is named by a tree in a subtree below `root`.
pub proof fn lemma_below_parent(s: StorageView, root: PathView, q: PathView)
    requires
        is_below(s, root, q),
        root.len() < q.len(),
    ensures
        is_below(s, root, q.drop_last()),
        is_tree_bytes(stored_at(s, q.drop_last(), q.last())),
        q == q.drop_last().push(q.last()),
{
    let p = q.drop_last();
    assert(p.subrange(0, root.len() as int) =~= q.subrange(0, root.len() as int));
    assert forall|i: int| root.len() <= i < p.len() implies #[trigger] names_tree(s, p, i) by {
        assert(q.subrange(0, i) =~= p.subrange(0, i));
        assert(names_tree(s, q, i));
    }
    assert(names_tree(s, q, q.len() - 1));
    assert(q.subrange(0, q.len() - 1) =~= p);
    assert(q =~= p.push(q.last()));
}

/// What the keys of the trees among `entries` are.
pub proof fn lemma_tree_keys(entries: Pairs)
    requires
        tree_keys(entries) is Some,
    ensures
        forall|k: Seq<u8>|
            tree_keys(entries).unwrap().contains(k) <==> exists|i: int|
                0 <= i < entries.len() && (#[trigger] entries[i]).0 == k && is_tree_bytes(
                    Some(entries[i].1),
                ),
    decreases entries.len(),
{
    let keys = tree_keys(entries).unwrap();
    if entries.len() == 0 {
        assert forall|k: Seq<u8>| !keys.contains(k) by {}
    } else {
        let rest = entries.drop_last();
        let last = entries.last();
        lemma_tree_keys(rest);
        let rest_keys = tree_keys(rest).unwrap();
        assert forall|k: Seq<u8>|
            keys.contains(k) <==> exists|i: int|
                0 <= i < entries.len() && (#[trigger] entries[i]).0 == k && is_tree_bytes(
                    Some(entries[i].1),
                ) by {
            let right = exists|i: int|
                0 <= i < entries.len() && (#[trigger] entries[i]).0 == k && is_tree_bytes(
                    Some(entries[i].1),
                );
            let right_rest = exists|i: int|
                0 <= i < rest.len() && (#[trigger] rest[i]).0 == k && is_tree_bytes(
                    Some(rest[i].1),
                );
            if keys.contains(k) {
                let j = choose|j: int| 0 <= j < keys.len() && keys[j] == k;
                if j < rest_keys.len() {
                    assert(rest_keys[j] == k);
                    assert(rest_keys.contains(k));
                    let i = choose|i: int|
                        0 <= i < rest.len() && (#[trigger] rest[i]).0 == k && is_tree_bytes(
                            Some(rest[i].1),
                        );
                    assert(entries[i] == rest[i]);
                } else {
                    assert(entries[entries.len() - 1] == last);
                }
                assert(right);
            }
            if right {
                let i = choose|i: int|
                    0 <= i < entries.len() && (#[trigger] entries[i]).0 == k && is_tree_bytes(
                        Some(entries[i].1),
                    );
                if i < rest.len() {
                    assert(rest[i] == entries[i]);
                    assert(right_rest);
                    assert(rest_keys.contains(k));
                    let j = choose|j: int| 0 <= j < rest_keys.len() && rest_keys[j] == k;
                    assert(keys[j] == k);
                } else {
                    assert(keys[keys.len() - 1] == k);
                }
                assert(keys.contains(k));
            }
        }
    }
}

/// The children of a subtree are the paths of the trees in it.
pub proof fn lemma_children(s: StorageView, p: PathView, q: PathView)
    requires
        held(s.main),
        children(s, p) is Some,
    ensures
        children(s, p).unwrap().contains(q) <==> exists|k: Seq<u8>|
            #![trigger stored_at(s, p, k)]
            q == p.push(k) && is_tree_bytes(stored_at(s, p, k)),
{
    let prefix = prefix_of(p);
    let m = subtree_map(s.main, prefix);
    let entries = canonical_entries(m);
    let keys = tree_keys(entries).unwrap();
    let below = children(s, p).unwrap();
    lemma_held_subtree(s.main, prefix);
    lemma_tree_keys(entries);
    if below.contains(q) {
        let j = choose|j: int| 0 <= j < below.len() && below[j] == q;
        let k = keys[j];
        assert(keys.contains(k));
        let i = choose|i: int|
            0 <= i < entries.len() && (#[trigger] entries[i]).0 == k && is_tree_bytes(
                Some(entries[i].1),
            );
        lemma_sorted_lookup(entries, i);
        assert(m.contains_key(k));
        assert(is_tree_bytes(stored_at(s, p, k)));
    }
    if exists|k: Seq<u8>|
        #![trigger stored_at(s, p, k)]
        q == p.push(k) && is_tree_bytes(stored_at(s, p, k)) {
        let k = choose|k: Seq<u8>|
            #![trigger stored_at(s, p, k)]
            q == p.push(k) && is_tree_bytes(stored_at(s, p, k));
        assert(m.contains_key(k));
        assert(has_key(entries, k));
        let i = index_of_key(entries, k);
        lemma_sorted_lookup(entries, i);
        assert(keys.contains(k));
        let j = choose|j: int| 0 <= j < keys.len() && keys[j] == k;
        assert(below[j] == q);
    }
}

/// What two lists of paths hold, put together.
pub proof fn lemma_contains_both(a: Seq<PathView>, b: Seq<PathView>, q: PathView)
    ensures
        (a + b).contains(q) <==> a.contains(q) || b.contains(q),
{
    if (a + b).contains(q) {
        let i = choose|i: int| 0 <= i < (a + b).len() && (a + b)[i] == q;
        if i < a.len() {
            assert(a[i] == q);
        } else {
            assert(b[i - a.len()] == q);
        }
    }
    if a.contains(q) {
        let i = choose|i: int| 0 <= i < a.len() && a[i] == q;
        assert((a + b)[i] == q);
    }
    if b.contains(q) {
        let i = choose|i: int| 0 <= i < b.len() && b[i] == q;
        assert((a + b)[a.len() + i] == q);
    }
}

/// The traversal keeps what it found below `root`, and ends with the trees
/// of every found subtree found too.
proof fn lemma_walk(
    s: StorageView,
    root: PathView,
    queue: Seq<PathView>,
    found: Seq<PathView>,
    fuel: nat,
)
    requires
        held(s.main),
        walk(s, queue, found, fuel) is Some,
        found.contains(root),
        forall|q: PathView| #[trigger] found.contains(q) ==> is_below(s, root, q),
        forall|q: PathView| #[trigger] queue.contains(q) ==> found.contains(q),
        closed_under_trees(s, found, queue),
    ensures
        walk(s, queue, found, fuel).unwrap().contains(root),
        forall|q: PathView| #[trigger]
            walk(s, queue, found, fuel).unwrap().contains(q) ==> is_below(s, root, q),
        closed_under_trees(s, walk(s, queue, found, fuel).unwrap(), Seq::empty()),
    decreases fuel,
{
    if queue.len() == 0 {
        assert forall|p: PathView| !queue.contains(p) by {}
        assert(queue =~= Seq::<PathView>::empty());
    } else {
        let current = queue.last();
        let below = children(s, current).unwrap();
        let next_queue = queue.drop_last() + below;
        let next_found = found + below;
        assert(queue[queue.len() - 1] == current);
        assert(queue.contains(current));
        assert forall|q: PathView| #[trigger] next_found.contains(q) implies is_below(
            s,
            root,
            q,
        ) by {
            lemma_contains_both(found, below, q);
            if !found.contains(q) {
                lemma_children(s, current, q);
                let k = choose|k: Seq<u8>|
                    #![trigger stored_at(s, current, k)]
                    q == current.push(k) && is_tree_bytes(stored_at(s, current, k));
                lemma_below_push(s, root, current, k);
            }
        }
        assert forall|q: PathView| #[trigger] next_queue.contains(q) implies next_found.contains(
            q,
        ) by {
            lemma_contains_both(queue.drop_last(), below, q);
            lemma_contains_both(found, below, q);
            if queue.drop_last().contains(q) {
                let i = choose|i: int| 0 <= i < queue.drop_last().len() && queue.drop_last()[i] == q;
                assert(queue[i] == q);
                assert(queue.contains(q));
            }
        }
        assert(closed_under_trees(s, next_found, next_queue)) by {
            assert forall|p: PathView, k: Seq<u8>|
                #![trigger stored_at(s, p, k)]
                next_found.contains(p) && !next_queue.contains(p) && is_tree_bytes(
                    stored_at(s, p, k),
                ) implies next_found.contains(p.push(k)) by {
                lemma_contains_both(found, below, p);
                lemma_contains_both(queue.drop_last(), below, p);
                lemma_contains_both(found, below, p.push(k));
                if p == current {
                    lemma_children(s, current, p.push(k));
                } else {
                    if queue.contains(p) {
                        let i = choose|i: int| 0 <= i < queue.len() && queue[i] == p;
                        assert(queue.drop_last()[i] == p);
                        assert(queue.drop_last().contains(p));
                    }
                    assert(found.contains(p) && !queue.contains(p));
                }
            }
        }
        lemma_contains_both(found, below, root);
        lemma_walk(s, root, next_queue, next_found, (fuel - 1) as nat);
    }
}

/// A list that holds `root` and, with each path, the paths of the trees in
/// its subtree, holds every subtree below `root`.
proof fn lemma_closed_holds_all(s: StorageView, root: PathView, found: Seq<PathView>, q: PathView)
    requires
        found.contains(root),
        closed_under_trees(s, found, Seq::empty()),
        is_below(s, root, q),
    ensures
        found.contains(q),
    decreases q.len(),
{
    if q.len() == root.len() {
        assert(q =~= q.subrange(0, root.len() as int));
    } else {
        lemma_below_parent(s, root, q);
        lemma_closed_holds_all(s, root, found, q.drop_last());
        assert(!Seq::<PathView>::empty().contains(q.drop_last()));
        assert(is_tree_bytes(stored_at(s, q.drop_last(), q.last())));
    }
}

/// Reachability by traversal. Where the traversal from `root` succeeds, it
/// finds the subtree at `root` and exactly the subtrees below it: the paths
/// that begin with `root` and go on through trees only.
pub proof fn lemma_find_subtrees_exact(s: StorageView, root: PathView, q: PathView)
    requires
        held(s.main),
        find_subtrees_spec(s, root) is Some,
    ensures
        find_subtrees_spec(s, root).unwrap().contains(q) <==> is_below(s, root, q),
{
    let start = seq![root];
    assert(start[0] == root);
    assert(root.subrange(0, root.len() as int) =~= root);
    assert forall|p: PathView| #[trigger] start.contains(p) implies is_below(s, root, p) by {
        let i = choose|i: int| 0 <= i < start.len() && start[i] == p;
        assert(p == root);
    }
    lemma_walk(s, root, start, start, visit_limit(s));
    if is_below(s, root, q) {
        lemma_closed_holds_all(s, root, find_subtrees_spec(s, root).unwrap(), q);
    }
}

/// A chain of references without end, as a cycle is one, fails at the hop
/// bound: where every element of `chain` is a reference to the next, a read
/// of any of them that follows references ends in `ReferenceLimit`.
pub proof fn lemma_endless_references(
    s: StorageView,
    chain: spec_fn(nat) -> (PathView, Seq<u8>),
    from: nat,
    hops: nat,
)
    requires
        forall|i: nat|
            get_raw_spec(s, (#[trigger] chain(i)).0, chain(i).1) == Ok::<ElementView, Error>(
                ElementView::Reference(chain(i + 1).0, chain(i + 1).1),
            ),
    ensures
        resolve(s, chain(from).0, chain(from).1, hops) == Err::<ElementView, Error>(
            Error::ReferenceLimit,
        ),
    decreases hops,
{
    assert(get_raw_spec(s, chain(from).0, chain(from).1) == Ok::<ElementView, Error>(
        ElementView::Reference(chain(from + 1).0, chain(from + 1).1),
    ));
    if hops > 0 {
        lemma_endless_references(s, chain, from + 1, (hops - 1) as nat);
    }
}

/// Propagation from the subtree at `path` writes, in the *main* space, only
/// the trees that name the subtree at `path` and the subtrees above it.
pub proof fn lemma_propagate_writes(s: StorageView, path: PathView, stored_key: Seq<u8>)
    requires
        forall|i: int|
            0 <= i < path.len() ==> stored_key != #[trigger] prefix_of(path.subrange(0, i))
                + path[i],
    ensures
        stored(propagate(s, path).main, stored_key) == stored(s.main, stored_key),
    decreases path.len(),
{
    if path.len() > 0 {
        let parent = path.drop_last();
        let tree = ElementView::Tree(crate::subtree::subtree_root(s, prefix_of(path)));
        let bytes = crate::element::encode_element(tree);
        let next = put_in_subtree(s, prefix_of(parent), path.last(), bytes);
        assert(parent =~= path.subrange(0, path.len() - 1));
        assert(stored_key != prefix_of(path.subrange(0, path.len() - 1)) + path[path.len() - 1]);
        assert(next.main == s.main.insert(prefix_of(parent) + path.last(), bytes));
        assert forall|i: int| 0 <= i < parent.len() implies stored_key != #[trigger] prefix_of(
            parent.subrange(0, i),
        ) + parent[i] by {
            assert(parent.subrange(0, i) =~= path.subrange(0, i));
        }
        lemma_propagate_writes(next, parent, stored_key);
    }
}

} // verus!
