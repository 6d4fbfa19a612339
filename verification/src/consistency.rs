//! The invariant of the grove: every tree holds the root hash of its
//! subtree, every stored entry belongs to a subtree that a path leads to,
//! and every value decodes. It holds of the empty grove and is kept by
//! inserts and deletes.
//!
//! A prefix is a hash, and nothing keeps two paths from having the same
//! one. The invariant is therefore stated for a *universe*: a set of paths,
//! chosen beforehand, that holds every path in use and no two paths with the
//! same prefix. For the paths of a real grove there is such a universe
//! unless the hash has collided.
use vstd::prelude::*;
use crate::bytes::has_prefix;
use crate::context::stored;
use crate::element::{
    decode_element, encode_element, lemma_decode_encode, valid_element, ElementView,
};
use crate::hash::HASH_LENGTH;
use crate::keyspace::{held, subtree_map};
use crate::laws::{
    is_below, lemma_below_parent, lemma_below_push, lemma_clear_all,
    lemma_delete_clears_subtrees, lemma_find_subtrees_exact, lemma_one_prefix,
};
use crate::model::{
    clear_all, delete_error, delete_spec, doomed, find_subtrees_spec, insert_error, insert_spec,
    is_subtree, is_tree_bytes, names_tree, propagate, stored_at,
};
use crate::path::{lemma_prefix_length, prefix_of, PathView};
use crate::storage::StorageView;
use crate::subtree::{
    clear_subtree, delete_in_subtree, lemma_clear_ranges, lemma_empty_root,
    lemma_insert_elsewhere, lemma_root_width, put_in_subtree, subtree_root,
};

verus! {

/// The root hash that the tree under `k` in the subtree at `p` holds.
pub open spec fn tree_hash_at(s: StorageView, p: PathView, k: Seq<u8>) -> Option<Seq<u8>> {
    match stored_at(s, p, k) {
        Some(bytes) => match decode_element(bytes) {
            Some(ElementView::Tree(hash)) => hash,
            _ => None,
        },
        None => None,
    }
}

/// If a tree is stored under `k` in the subtree at `p`, it holds the root
/// hash of the subtree that it names.
pub open spec fn consistent_at(s: StorageView, p: PathView, k: Seq<u8>) -> bool {
    is_tree_bytes(stored_at(s, p, k)) ==> tree_hash_at(s, p, k) == subtree_root(
        s,
        prefix_of(p.push(k)),
    )
}

/// Hash consistency: every tree that a path leads to holds the root hash of
/// its subtree.
pub open spec fn hash_consistent(s: StorageView) -> bool {
    forall|p: PathView, k: Seq<u8>|
        #![trigger stored_at(s, p, k)]
        is_subtree(s, p) ==> consistent_at(s, p, k)
}

/// Reachability: every entry of the *main* space lies under the prefix of a
/// subtree that a path leads to.
pub open spec fn all_reachable(s: StorageView) -> bool {
    forall|stored_key: Seq<u8>| #[trigger]
        s.main.contains_key(stored_key) ==> exists|q: PathView|
            is_subtree(s, q) && has_prefix(stored_key, #[trigger] prefix_of(q))
}

/// No two paths of `universe` have the same prefix; the universe holds the
/// top-level path and, with a path, the paths of the subtrees above it.
pub open spec fn collision_free(universe: Set<PathView>) -> bool {
    &&& universe.contains(Seq::empty())
    &&& forall|a: PathView, b: PathView|
        #![trigger prefix_of(a), prefix_of(b)]
        universe.contains(a) && universe.contains(b) && prefix_of(a) == prefix_of(b) ==> a == b
    &&& forall|a: PathView, i: int|
        #![trigger a.subrange(0, i)]
        universe.contains(a) && 0 <= i <= a.len() ==> universe.contains(a.subrange(0, i))
}

/// The top-level path alone is a universe without collisions.
pub proof fn lemma_top_level_universe()
    ensures
        collision_free(set![Seq::<Seq<u8>>::empty()]),
{
    let universe = set![Seq::<Seq<u8>>::empty()];
    assert forall|a: PathView, i: int|
        #![trigger a.subrange(0, i)]
        universe.contains(a) && 0 <= i <= a.len() implies universe.contains(a.subrange(0, i)) by {
        assert(a.subrange(0, i) =~= Seq::<Seq<u8>>::empty());
    }
}

/// Every path that leads to a subtree of `s` is in `universe`.
pub open spec fn live_within(s: StorageView, universe: Set<PathView>) -> bool {
    forall|q: PathView| #[trigger] is_subtree(s, q) ==> universe.contains(q)
}

/// Every value of the *main* space is the stored form of an element.
pub open spec fn all_decodable(s: StorageView) -> bool {
    forall|stored_key: Seq<u8>| #[trigger]
        s.main.contains_key(stored_key) ==> decode_element(s.main[stored_key]) is Some
}

/// Hash consistency in a universe of paths without collisions: every path
/// that leads to a subtree is in the universe, and every tree that a path
/// leads to holds the root hash of its subtree.
pub open spec fn hash_invariant(s: StorageView, universe: Set<PathView>) -> bool {
    &&& collision_free(universe)
    &&& live_within(s, universe)
    &&& hash_consistent(s)
}

/// The invariant of the grove in a universe of paths without collisions.
pub open spec fn grove_invariant(s: StorageView, universe: Set<PathView>) -> bool {
    &&& collision_free(universe)
    &&& live_within(s, universe)
    &&& hash_consistent(s)
    &&& all_reachable(s)
    &&& all_decodable(s)
}

/// A put of the stored form of an element keeps every value decodable.
pub proof fn lemma_put_decodable(s: StorageView, p: Seq<u8>, k: Seq<u8>, v: Seq<u8>)
    requires
        all_decodable(s),
        decode_element(v) is Some,
    ensures
        all_decodable(put_in_subtree(s, p, k, v)),
{
    let next = put_in_subtree(s, p, k, v);
    assert(next.main == s.main.insert(p + k, v));
    assert forall|stored_key: Seq<u8>| #[trigger]
        next.main.contains_key(stored_key) implies decode_element(next.main[stored_key])
        is Some by {
        if stored_key != p + k {
            assert(s.main.contains_key(stored_key));
        }
    }
}

/// `q` is the path of the subtree at `path` or of a subtree above it, the
/// top-level subtree left out.
pub open spec fn on_path(path: PathView, q: PathView) -> bool {
    1 <= q.len() <= path.len() && path.subrange(0, q.len() as int) == q
}

/// Every tree that a path leads to holds the root hash of its subtree,
/// but for the trees that name the subtree at `path` and those above it.
pub open spec fn consistent_except(s: StorageView, path: PathView) -> bool {
    forall|p: PathView, k: Seq<u8>|
        #![trigger stored_at(s, p, k)]
        is_subtree(s, p) && !on_path(path, p.push(k)) ==> consistent_at(s, p, k)
}

/// In a universe without collisions a stored key belongs to one path and
/// one key only.
pub proof fn lemma_flat_key(
    universe: Set<PathView>,
    a: PathView,
    ka: Seq<u8>,
    b: PathView,
    kb: Seq<u8>,
)
    requires
        collision_free(universe),
        universe.contains(a),
        universe.contains(b),
        prefix_of(a) + ka == prefix_of(b) + kb,
    ensures
        a == b,
        ka == kb,
{
    lemma_prefix_length(a);
    lemma_prefix_length(b);
    let pa = prefix_of(a);
    let pb = prefix_of(b);
    assert((pa + ka).subrange(0, HASH_LENGTH as int) =~= pa);
    assert((pb + kb).subrange(0, HASH_LENGTH as int) =~= pb);
    assert(pa == pb);
    assert((pa + ka).subrange(HASH_LENGTH as int, (pa + ka).len() as int) =~= ka);
    assert((pb + kb).subrange(HASH_LENGTH as int, (pb + kb).len() as int) =~= kb);
}

/// The empty path leads to a subtree, and `is_below` from it is `is_subtree`.
pub proof fn lemma_below_top(s: StorageView, q: PathView)
    ensures
        is_below(s, Seq::empty(), q) == is_subtree(s, q),
{
    assert(q.subrange(0, 0) =~= Seq::<Seq<u8>>::empty());
}

/// A tree in a subtree that a path leads to names a subtree that a path leads to.
pub proof fn lemma_live_push(s: StorageView, p: PathView, k: Seq<u8>)
    requires
        is_subtree(s, p),
        is_tree_bytes(stored_at(s, p, k)),
    ensures
        is_subtree(s, p.push(k)),
{
    lemma_below_top(s, p);
    lemma_below_top(s, p.push(k));
    lemma_below_push(s, Seq::empty(), p, k);
}

/// A path that leads to a subtree leads to it through a subtree and a tree in it.
pub proof fn lemma_live_parent(s: StorageView, q: PathView)
    requires
        is_subtree(s, q),
        q.len() > 0,
    ensures
        is_subtree(s, q.drop_last()),
        is_tree_bytes(stored_at(s, q.drop_last(), q.last())),
        q == q.drop_last().push(q.last()),
{
    lemma_below_top(s, q);
    lemma_below_top(s, q.drop_last());
    lemma_below_parent(s, Seq::empty(), q);
}

/// Two states with trees under the same keys have the same subtrees.
pub proof fn lemma_same_trees(a: StorageView, b: StorageView, q: PathView)
    requires
        forall|p: PathView, k: Seq<u8>|
            #![trigger stored_at(a, p, k)]
            is_tree_bytes(stored_at(a, p, k)) == is_tree_bytes(stored_at(b, p, k)),
    ensures
        is_subtree(a, q) == is_subtree(b, q),
{
    assert forall|i: int| 0 <= i < q.len() implies names_tree(a, q, i) == names_tree(b, q, i) by {
        let p = q.subrange(0, i);
        assert(is_tree_bytes(stored_at(a, p, q[i])) == is_tree_bytes(stored_at(b, p, q[i])));
    }
    if is_subtree(a, q) {
        assert forall|i: int| 0 <= i < q.len() implies #[trigger] names_tree(b, q, i) by {
            assert(names_tree(a, q, i));
        }
    }
    if is_subtree(b, q) {
        assert forall|i: int| 0 <= i < q.len() implies #[trigger] names_tree(a, q, i) by {
            assert(names_tree(b, q, i));
        }
    }
}

/// The stored form of a tree with a root hash of a subtree decodes to that tree.
pub proof fn lemma_tree_bytes(s: StorageView, p: Seq<u8>)
    ensures
        decode_element(encode_element(ElementView::Tree(subtree_root(s, p)))) == Some(
            ElementView::Tree(subtree_root(s, p)),
        ),
{
    lemma_root_width(subtree_map(s.main, p));
    lemma_decode_encode(ElementView::Tree(subtree_root(s, p)));
}

/// One step of propagation keeps what propagation needs.
pub proof fn lemma_propagate_step(s: StorageView, path: PathView, universe: Set<PathView>)
    requires
        path.len() > 0,
        collision_free(universe),
        live_within(s, universe),
        is_subtree(s, path),
        consistent_except(s, path),
    ensures
        ({
            let next = put_in_subtree(
                s,
                prefix_of(path.drop_last()),
                path.last(),
                encode_element(ElementView::Tree(subtree_root(s, prefix_of(path)))),
            );
            &&& live_within(next, universe)
            &&& is_subtree(next, path.drop_last())
            &&& all_reachable(s) ==> all_reachable(next)
            &&& consistent_except(next, path.drop_last())
            &&& forall|q: PathView| is_subtree(next, q) == is_subtree(s, q)
        }),
{
    let parent = path.drop_last();
    let last = path.last();
    let pp = prefix_of(parent);
    let bytes = encode_element(ElementView::Tree(subtree_root(s, prefix_of(path))));
    let next = put_in_subtree(s, pp, last, bytes);
    lemma_tree_bytes(s, prefix_of(path));
    lemma_live_parent(s, path);
    assert(next.main == s.main.insert(pp + last, bytes));
    assert(stored_at(s, parent, last) == stored(s.main, pp + last));
    // trees stay trees, and nothing else becomes one
    assert forall|p: PathView, k: Seq<u8>|
        #![trigger stored_at(next, p, k)]
        is_tree_bytes(stored_at(next, p, k)) == is_tree_bytes(stored_at(s, p, k)) by {
        if prefix_of(p) + k == pp + last {
            assert(stored_at(s, p, k) == stored_at(s, parent, last));
        }
    }
    assert forall|q: PathView| is_subtree(next, q) == is_subtree(s, q) by {
        lemma_same_trees(next, s, q);
    }
    assert forall|q: PathView| #[trigger] is_subtree(next, q) implies universe.contains(q) by {
        assert(is_subtree(s, q));
    }
    if all_reachable(s) {
        assert forall|stored_key: Seq<u8>| #[trigger]
            next.main.contains_key(stored_key) implies exists|q: PathView|
            is_subtree(next, q) && has_prefix(stored_key, #[trigger] prefix_of(q)) by {
            assert(s.main.contains_key(stored_key));
            let q = choose|q: PathView|
                is_subtree(s, q) && has_prefix(stored_key, #[trigger] prefix_of(q));
            assert(is_subtree(next, q));
        }
    }
    assert(universe.contains(path));
    assert(universe.contains(parent));
    lemma_prefix_length(path);
    lemma_prefix_length(parent);
    assert forall|p: PathView, k: Seq<u8>|
        #![trigger stored_at(next, p, k)]
        is_subtree(next, p) && !on_path(parent, p.push(k)) implies consistent_at(next, p, k) by {
        if is_tree_bytes(stored_at(next, p, k)) {
            let child = p.push(k);
            assert(is_subtree(s, p));
            assert(is_tree_bytes(stored_at(s, p, k)));
            lemma_live_push(s, p, k);
            assert(universe.contains(p));
            assert(universe.contains(child));
            lemma_prefix_length(child);
            // the put wrote under the parent's prefix, not under the child's
            if prefix_of(child) == pp {
                assert(child == parent);
                assert(parent.subrange(0, child.len() as int) =~= child);
                assert(on_path(parent, child));
            }
            lemma_insert_elsewhere(s.main, pp, last, bytes, prefix_of(child));
            assert(subtree_root(next, prefix_of(child)) == subtree_root(s, prefix_of(child)));
            if child == path {
                assert(child.drop_last() =~= p);
                assert(p == parent && k == last);
                assert(stored_at(next, p, k) == Some(bytes));
            } else {
                if on_path(path, child) {
                    assert(path.subrange(0, path.len() as int) =~= path);
                    assert(child.len() <= parent.len());
                    assert(parent.subrange(0, child.len() as int) =~= path.subrange(
                        0,
                        child.len() as int,
                    ));
                    assert(on_path(parent, child));
                }
                assert(consistent_at(s, p, k));
                if prefix_of(p) + k == pp + last {
                    lemma_flat_key(universe, p, k, parent, last);
                    assert(child =~= path);
                }
                assert(stored_at(next, p, k) == stored_at(s, p, k));
            }
        }
    }
}

/// Propagation from the subtree at `path` makes the trees along the path
/// hold the root hashes of their subtrees again, and changes no other tree
/// and no subtree's existence.
pub proof fn lemma_propagate_restores(s: StorageView, path: PathView, universe: Set<PathView>)
    requires
        collision_free(universe),
        live_within(s, universe),
        is_subtree(s, path),
        consistent_except(s, path),
    ensures
        hash_invariant(propagate(s, path), universe),
        all_reachable(s) ==> all_reachable(propagate(s, path)),
        all_decodable(s) ==> all_decodable(propagate(s, path)),
        forall|q: PathView|
            #![trigger is_subtree(propagate(s, path), q)]
            is_subtree(propagate(s, path), q) == is_subtree(s, q),
    decreases path.len(),
{
    if path.len() == 0 {
        assert forall|p: PathView, k: Seq<u8>|
            #![trigger stored_at(s, p, k)]
            is_subtree(s, p) implies consistent_at(s, p, k) by {
            assert(!on_path(path, p.push(k)));
        }
    } else {
        let next = put_in_subtree(
            s,
            prefix_of(path.drop_last()),
            path.last(),
            encode_element(ElementView::Tree(subtree_root(s, prefix_of(path)))),
        );
        lemma_propagate_step(s, path, universe);
        if all_decodable(s) {
            lemma_tree_bytes(s, prefix_of(path));
            lemma_put_decodable(
                s,
                prefix_of(path.drop_last()),
                path.last(),
                encode_element(ElementView::Tree(subtree_root(s, prefix_of(path)))),
            );
        }
        lemma_propagate_restores(next, path.drop_last(), universe);
    }
}

/// Nothing is stored in the *main* space of `s` under prefix `p`.
pub open spec fn range_empty(s: StorageView, p: Seq<u8>) -> bool {
    forall|stored_key: Seq<u8>| #[trigger]
        s.main.contains_key(stored_key) ==> !has_prefix(stored_key, p)
}

/// A subtree without entries has no root hash.
pub proof fn lemma_empty_range_root(s: StorageView, p: Seq<u8>)
    requires
        range_empty(s, p),
    ensures
        subtree_root(s, p) is None,
{
    assert forall|k: Seq<u8>| !s.main.contains_key(p + k) by {
        assert((p + k).subrange(0, p.len() as int) =~= p);
    }
    assert(subtree_map(s.main, p) =~= Map::<Seq<u8>, Seq<u8>>::empty());
    lemma_empty_root();
}

/// A stored key of the subtree under `p` lies under `p`.
pub proof fn lemma_under_prefix(p: Seq<u8>, k: Seq<u8>)
    ensures
        has_prefix(p + k, p),
{
    assert((p + k).subrange(0, p.len() as int) =~= p);
}

/// The empty grove meets the invariant.
pub proof fn lemma_empty_grove(s: StorageView, universe: Set<PathView>)
    requires
        collision_free(universe),
        s.main == Map::<Seq<u8>, Seq<u8>>::empty(),
    ensures
        grove_invariant(s, universe),
{
    assert forall|q: PathView| #[trigger] is_subtree(s, q) implies universe.contains(q) by {
        if q.len() > 0 {
            assert(names_tree(s, q, 0));
        }
        assert(q =~= Seq::<Seq<u8>>::empty());
    }
}

/// In a grove that meets the invariant nothing is stored under the prefix
/// of a path in the universe that leads to no subtree.
pub proof fn lemma_unused_prefix_empty(s: StorageView, universe: Set<PathView>, q: PathView)
    requires
        grove_invariant(s, universe),
        universe.contains(q),
        !is_subtree(s, q),
    ensures
        range_empty(s, prefix_of(q)),
{
    assert forall|stored_key: Seq<u8>| #[trigger] s.main.contains_key(stored_key) implies !has_prefix(
        stored_key,
        prefix_of(q),
    ) by {
        if has_prefix(stored_key, prefix_of(q)) {
            let live = choose|live: PathView|
                is_subtree(s, live) && has_prefix(stored_key, #[trigger] prefix_of(live));
            lemma_one_prefix(stored_key, live, q);
            assert(universe.contains(live));
        }
    }
}

/// After an element that is no tree is put under `key` in the subtree at
/// `path`, propagation from `path` restores the invariant.
pub proof fn lemma_insert_item_step(
    s: StorageView,
    path: PathView,
    key: Seq<u8>,
    bytes: Seq<u8>,
    universe: Set<PathView>,
)
    requires
        hash_invariant(s, universe),
        is_subtree(s, path),
        !is_tree_bytes(stored_at(s, path, key)),
        !is_tree_bytes(Some(bytes)),
    ensures
        ({
            let next = put_in_subtree(s, prefix_of(path), key, bytes);
            &&& live_within(next, universe)
            &&& is_subtree(next, path)
            &&& all_reachable(s) ==> all_reachable(next)
            &&& consistent_except(next, path)
        }),
{
    let pp = prefix_of(path);
    let next = put_in_subtree(s, pp, key, bytes);
    assert(next.main == s.main.insert(pp + key, bytes));
    assert forall|p: PathView, k: Seq<u8>|
        #![trigger stored_at(next, p, k)]
        is_tree_bytes(stored_at(next, p, k)) == is_tree_bytes(stored_at(s, p, k)) by {
        if prefix_of(p) + k == pp + key {
            assert(stored_at(s, p, k) == stored_at(s, path, key));
        }
    }
    assert forall|q: PathView| is_subtree(next, q) == is_subtree(s, q) by {
        lemma_same_trees(next, s, q);
    }
    assert forall|q: PathView| #[trigger] is_subtree(next, q) implies universe.contains(q) by {
        assert(is_subtree(s, q));
    }
    if all_reachable(s) {
        assert forall|stored_key: Seq<u8>| #[trigger]
            next.main.contains_key(stored_key) implies exists|q: PathView|
            is_subtree(next, q) && has_prefix(stored_key, #[trigger] prefix_of(q)) by {
            if stored_key == pp + key {
                lemma_under_prefix(pp, key);
                assert(is_subtree(next, path) && has_prefix(stored_key, prefix_of(path)));
            } else {
                assert(s.main.contains_key(stored_key));
                let q = choose|q: PathView|
                    is_subtree(s, q) && has_prefix(stored_key, #[trigger] prefix_of(q));
                assert(is_subtree(next, q));
            }
        }
    }
    assert(universe.contains(path));
    lemma_prefix_length(path);
    assert forall|p: PathView, k: Seq<u8>|
        #![trigger stored_at(next, p, k)]
        is_subtree(next, p) && !on_path(path, p.push(k)) implies consistent_at(next, p, k) by {
        if is_tree_bytes(stored_at(next, p, k)) {
            let child = p.push(k);
            assert(is_subtree(s, p));
            assert(is_tree_bytes(stored_at(s, p, k)));
            lemma_live_push(s, p, k);
            assert(universe.contains(child));
            lemma_prefix_length(child);
            if prefix_of(child) == pp {
                assert(child == path);
                assert(path.subrange(0, child.len() as int) =~= child);
            }
            lemma_insert_elsewhere(s.main, pp, key, bytes, prefix_of(child));
            assert(subtree_root(next, prefix_of(child)) == subtree_root(s, prefix_of(child)));
            assert(consistent_at(s, p, k));
            assert(stored_at(next, p, k) == stored_at(s, p, k));
        }
    }
}

/// Where a tree is put under `key` in the subtree at `path`, a path leads
/// to a subtree afterwards if it did before, or if it is the new tree's.
pub proof fn lemma_insert_tree_live(
    s: StorageView,
    next: StorageView,
    path: PathView,
    key: Seq<u8>,
    bytes: Seq<u8>,
    universe: Set<PathView>,
    q: PathView,
)
    requires
        collision_free(universe),
        live_within(s, universe),
        universe.contains(path.push(key)),
        is_subtree(s, path),
        range_empty(s, prefix_of(path.push(key))),
        next.main == s.main.insert(prefix_of(path) + key, bytes),
        is_tree_bytes(Some(bytes)),
    ensures
        is_subtree(next, q) == (is_subtree(s, q) || q == path.push(key)),
    decreases q.len(),
{
    let pp = prefix_of(path);
    let child = path.push(key);
    // every tree of `s` is a tree of `next`
    assert forall|p: PathView, k: Seq<u8>|
        #![trigger stored_at(next, p, k)]
        is_tree_bytes(stored_at(s, p, k)) implies is_tree_bytes(stored_at(next, p, k)) by {}
    if is_subtree(s, q) {
        assert forall|i: int| 0 <= i < q.len() implies #[trigger] names_tree(next, q, i) by {
            assert(names_tree(s, q, i));
        }
    }
    if q == child {
        assert forall|i: int| 0 <= i < path.len() implies #[trigger] names_tree(next, path, i) by {
            assert(names_tree(s, path, i));
        }
        lemma_live_push(next, path, key);
    }
    if is_subtree(next, q) && q.len() > 0 {
        let p = q.drop_last();
        let k = q.last();
        lemma_live_parent(next, q);
        lemma_insert_tree_live(s, next, path, key, bytes, universe, p);
        assert(universe.contains(path));
        if p == child {
            // nothing lies under the new tree's prefix
            lemma_under_prefix(prefix_of(child), k);
            if prefix_of(child) + k == pp + key {
                lemma_flat_key(universe, child, k, path, key);
            }
            assert(s.main.contains_key(prefix_of(child) + k));
            assert(false);
        }
        assert(is_subtree(s, p));
        if prefix_of(p) + k == pp + key {
            lemma_flat_key(universe, p, k, path, key);
            assert(q == child);
        } else {
            assert(stored_at(next, p, k) == stored_at(s, p, k));
            lemma_live_push(s, p, k);
        }
    }
}

/// After a tree without a root hash is put under `key` in the subtree at
/// `path`, propagation from `path` restores the invariant.
pub proof fn lemma_insert_tree_step(
    s: StorageView,
    next: StorageView,
    path: PathView,
    key: Seq<u8>,
    universe: Set<PathView>,
)
    requires
        hash_invariant(s, universe),
        universe.contains(path.push(key)),
        is_subtree(s, path),
        !is_tree_bytes(stored_at(s, path, key)),
        range_empty(s, prefix_of(path.push(key))),
        next.main == s.main.insert(
            prefix_of(path) + key,
            encode_element(ElementView::Tree(None)),
        ),
    ensures
        live_within(next, universe),
        is_subtree(next, path),
        all_reachable(s) ==> all_reachable(next),
        consistent_except(next, path),
{
    let pp = prefix_of(path);
    let child = path.push(key);
    let bytes = encode_element(ElementView::Tree(None));
    lemma_decode_encode(ElementView::Tree(None));
    assert(child.drop_last() =~= path);
    if is_subtree(s, child) {
        lemma_live_parent(s, child);
    }
    assert forall|q: PathView| is_subtree(next, q) == (is_subtree(s, q) || q == child) by {
        lemma_insert_tree_live(s, next, path, key, bytes, universe, q);
    }
    assert forall|q: PathView| #[trigger] is_subtree(next, q) implies universe.contains(q) by {
        if q != child {
            assert(is_subtree(s, q));
        }
    }
    if all_reachable(s) {
        assert forall|stored_key: Seq<u8>| #[trigger]
            next.main.contains_key(stored_key) implies exists|q: PathView|
            is_subtree(next, q) && has_prefix(stored_key, #[trigger] prefix_of(q)) by {
            if stored_key == pp + key {
                lemma_under_prefix(pp, key);
                assert(is_subtree(next, path) && has_prefix(stored_key, prefix_of(path)));
            } else {
                assert(s.main.contains_key(stored_key));
                let q = choose|q: PathView|
                    is_subtree(s, q) && has_prefix(stored_key, #[trigger] prefix_of(q));
                assert(is_subtree(next, q));
            }
        }
    }
    assert(universe.contains(path));
    lemma_prefix_length(path);
    lemma_prefix_length(child);
    // nothing lies under the new tree's prefix afterwards either
    assert(range_empty(next, prefix_of(child))) by {
        assert forall|stored_key: Seq<u8>| #[trigger]
            next.main.contains_key(stored_key) implies !has_prefix(
            stored_key,
            prefix_of(child),
        ) by {
            if stored_key == pp + key && has_prefix(stored_key, prefix_of(child)) {
                lemma_under_prefix(pp, key);
                lemma_one_prefix(stored_key, path, child);
                assert(path == child);
            }
        }
    }
    assert forall|p: PathView, k: Seq<u8>|
        #![trigger stored_at(next, p, k)]
        is_subtree(next, p) && !on_path(path, p.push(k)) implies consistent_at(next, p, k) by {
        if is_tree_bytes(stored_at(next, p, k)) {
            let below = p.push(k);
            if p == child {
                lemma_under_prefix(prefix_of(child), k);
                assert(false);
            }
            assert(is_subtree(s, p));
            assert(universe.contains(p));
            if prefix_of(p) + k == pp + key {
                lemma_flat_key(universe, p, k, path, key);
                lemma_empty_range_root(next, prefix_of(child));
                assert(stored_at(next, p, k) == Some(bytes));
            } else {
                assert(stored_at(next, p, k) == stored_at(s, p, k));
                lemma_live_push(s, p, k);
                assert(universe.contains(below));
                lemma_prefix_length(below);
                if prefix_of(below) == pp {
                    assert(below == path);
                    assert(path.subrange(0, below.len() as int) =~= below);
                }
                lemma_insert_elsewhere(s.main, pp, key, bytes, prefix_of(below));
                assert(subtree_root(next, prefix_of(below)) == subtree_root(s, prefix_of(below)));
                assert(consistent_at(s, p, k));
            }
        }
    }
}

/// Clearing the ranges of a path in the universe that leads to no subtree
/// changes no subtree and no tree that a path leads to.
pub proof fn lemma_clear_keeps_hashes(
    s: StorageView,
    path: PathView,
    key: Seq<u8>,
    universe: Set<PathView>,
)
    requires
        hash_invariant(s, universe),
        universe.contains(path.push(key)),
        is_subtree(s, path),
        !is_tree_bytes(stored_at(s, path, key)),
    ensures
        ({
            let fresh = clear_subtree(s, prefix_of(path.push(key)));
            &&& hash_invariant(fresh, universe)
            &&& range_empty(fresh, prefix_of(path.push(key)))
            &&& is_subtree(fresh, path)
            &&& !is_tree_bytes(stored_at(fresh, path, key))
            &&& all_reachable(s) ==> all_reachable(fresh)
            &&& all_decodable(s) ==> all_decodable(fresh)
        }),
{
    let child = path.push(key);
    let c = prefix_of(child);
    let fresh = clear_subtree(s, c);
    lemma_prefix_length(child);
    assert(child.drop_last() =~= path);
    if is_subtree(s, child) {
        lemma_live_parent(s, child);
    }
    // what lies under another path of the universe stays
    assert forall|p: PathView, k: Seq<u8>|
        #![trigger stored_at(fresh, p, k)]
        universe.contains(p) && p != child implies stored_at(fresh, p, k) == stored_at(s, p, k) by {
        lemma_under_prefix(prefix_of(p), k);
        if has_prefix(prefix_of(p) + k, c) {
            lemma_one_prefix(prefix_of(p) + k, p, child);
        }
    }
    assert forall|q: PathView| is_subtree(fresh, q) == is_subtree(s, q) by {
        if is_subtree(s, q) {
            assert forall|i: int| 0 <= i < q.len() implies #[trigger] names_tree(fresh, q, i) by {
                let head = q.subrange(0, i);
                assert(names_tree(s, q, i));
                lemma_below_top(s, q);
                lemma_below_prefix(s, Seq::empty(), q, i);
                lemma_below_top(s, head);
                assert(universe.contains(head));
                assert(stored_at(fresh, head, q[i]) == stored_at(s, head, q[i]));
            }
        }
        if is_subtree(fresh, q) {
            assert forall|i: int| 0 <= i < q.len() implies #[trigger] names_tree(s, q, i) by {
                assert(names_tree(fresh, q, i));
            }
        }
    }
    assert forall|q: PathView| #[trigger] is_subtree(fresh, q) implies universe.contains(q) by {
        assert(is_subtree(s, q));
    }
    assert forall|p: PathView, k: Seq<u8>|
        #![trigger stored_at(fresh, p, k)]
        is_subtree(fresh, p) implies consistent_at(fresh, p, k) by {
        if is_tree_bytes(stored_at(fresh, p, k)) {
            let named = p.push(k);
            assert(is_subtree(s, p));
            assert(universe.contains(p));
            assert(stored_at(fresh, p, k) == stored_at(s, p, k));
            lemma_live_push(s, p, k);
            assert(universe.contains(named));
            lemma_prefix_length(named);
            lemma_clear_ranges(s.main, c, prefix_of(named));
            assert(consistent_at(s, p, k));
        }
    }
    assert(universe.contains(path));
    if all_reachable(s) {
        assert forall|stored_key: Seq<u8>| #[trigger]
            fresh.main.contains_key(stored_key) implies exists|q: PathView|
            is_subtree(fresh, q) && has_prefix(stored_key, #[trigger] prefix_of(q)) by {
            assert(s.main.contains_key(stored_key));
            let q = choose|q: PathView|
                is_subtree(s, q) && has_prefix(stored_key, #[trigger] prefix_of(q));
            assert(is_subtree(fresh, q));
        }
    }
}

/// Inserts keep hash consistency: where every tree that a path leads to
/// holds the root hash of its subtree, the same holds after an insert that
/// succeeds. Nothing more is asked of the grove than that the paths to its
/// subtrees, and the path of an inserted tree's subtree, lie in a universe
/// without collisions.
pub proof fn lemma_insert_keeps_hashes(
    s: StorageView,
    path: PathView,
    key: Seq<u8>,
    element: ElementView,
    universe: Set<PathView>,
)
    requires
        hash_invariant(s, universe),
        insert_error(s, path, key) is None,
        valid_element(element),
        element is Tree ==> universe.contains(path.push(key)),
    ensures
        hash_invariant(insert_spec(s, path, key, element), universe),
{
    let pp = prefix_of(path);
    match element {
        ElementView::Tree(_) => {
            let fresh = clear_subtree(s, prefix_of(path.push(key)));
            let bytes = encode_element(ElementView::Tree(None));
            let next = put_in_subtree(fresh, pp, key, bytes);
            lemma_clear_keeps_hashes(s, path, key, universe);
            assert(next.main == fresh.main.insert(pp + key, bytes));
            lemma_insert_tree_step(fresh, next, path, key, universe);
            lemma_propagate_restores(next, path, universe);
        },
        _ => {
            let bytes = encode_element(element);
            lemma_decode_encode(element);
            lemma_insert_item_step(s, path, key, bytes, universe);
            lemma_propagate_restores(put_in_subtree(s, pp, key, bytes), path, universe);
        },
    }
}

/// Inserts keep the invariant: after an insert that succeeds every tree
/// holds the root hash of its subtree, and every entry belongs to a
/// subtree that a path leads to. For a tree the new subtree's path must be
/// in the universe.
pub proof fn lemma_insert_keeps_invariant(
    s: StorageView,
    path: PathView,
    key: Seq<u8>,
    element: ElementView,
    universe: Set<PathView>,
)
    requires
        grove_invariant(s, universe),
        insert_error(s, path, key) is None,
        valid_element(element),
        element is Tree ==> universe.contains(path.push(key)),
    ensures
        grove_invariant(insert_spec(s, path, key, element), universe),
{
    let pp = prefix_of(path);
    match element {
        ElementView::Tree(_) => {
            let child = path.push(key);
            let fresh = clear_subtree(s, prefix_of(child));
            let bytes = encode_element(ElementView::Tree(None));
            let next = put_in_subtree(fresh, pp, key, bytes);
            assert(child.drop_last() =~= path);
            if is_subtree(s, child) {
                lemma_live_parent(s, child);
            }
            lemma_unused_prefix_empty(s, universe, child);
            assert(fresh.main =~= s.main);
            assert(next.main == s.main.insert(pp + key, bytes));
            lemma_insert_tree_step(s, next, path, key, universe);
            lemma_decode_encode(ElementView::Tree(None));
            assert(all_decodable(fresh));
            lemma_put_decodable(fresh, pp, key, bytes);
            lemma_propagate_restores(next, path, universe);
        },
        _ => {
            let bytes = encode_element(element);
            lemma_decode_encode(element);
            lemma_insert_item_step(s, path, key, bytes, universe);
            lemma_put_decodable(s, pp, key, bytes);
            lemma_propagate_restores(put_in_subtree(s, pp, key, bytes), path, universe);
        },
    }
}

/// A path that begins with `root` and leads to a subtree leads to it below `root`.
pub proof fn lemma_live_is_below(s: StorageView, root: PathView, q: PathView)
    requires
        is_subtree(s, q),
        root.len() <= q.len(),
        q.subrange(0, root.len() as int) == root,
    ensures
        is_below(s, root, q),
{
}

/// A subtree below a subtree that a path leads to is one that a path leads to.
pub proof fn lemma_below_is_live(s: StorageView, root: PathView, q: PathView)
    requires
        is_subtree(s, root),
        is_below(s, root, q),
    ensures
        is_subtree(s, q),
{
    assert forall|i: int| 0 <= i < q.len() implies #[trigger] names_tree(s, q, i) by {
        if i < root.len() {
            let head = q.subrange(0, root.len() as int);
            assert(q.subrange(0, i) =~= head.subrange(0, i));
            assert(q[i] == head[i]);
            assert(names_tree(s, root, i));
        }
    }
}

/// A subtree below `root` is below it with every subtree on the way.
pub proof fn lemma_below_prefix(s: StorageView, root: PathView, q: PathView, i: int)
    requires
        is_below(s, root, q),
        root.len() <= i <= q.len(),
    ensures
        is_below(s, root, q.subrange(0, i)),
{
    let head = q.subrange(0, i);
    assert(head.subrange(0, root.len() as int) =~= q.subrange(0, root.len() as int));
    assert forall|j: int| root.len() <= j < head.len() implies #[trigger] names_tree(
        s,
        head,
        j,
    ) by {
        assert(head.subrange(0, j) =~= q.subrange(0, j));
        assert(names_tree(s, q, j));
    }
}

/// What the *main* space holds after the entry under `key` in the subtree
/// at `path` is removed and the ranges of `below` are cleared.
pub open spec fn main_after_clearing(
    s: StorageView,
    path: PathView,
    key: Seq<u8>,
    below: Seq<PathView>,
    stored_key: Seq<u8>,
) -> Option<Seq<u8>> {
    if stored_key == prefix_of(path) + key || exists|j: int|
        0 <= j < below.len() && has_prefix(stored_key, prefix_of(#[trigger] below[j])) {
        None
    } else {
        stored(s.main, stored_key)
    }
}

/// The state between the clearing and the propagation of a delete.
pub open spec fn cleared(s: StorageView, path: PathView, key: Seq<u8>, below: Seq<PathView>) ->
    StorageView {
    clear_all(delete_in_subtree(s, prefix_of(path), key), below)
}

/// The *main* space between the clearing and the propagation of a delete.
pub proof fn lemma_cleared_main(
    s: StorageView,
    path: PathView,
    key: Seq<u8>,
    below: Seq<PathView>,
    stored_key: Seq<u8>,
)
    ensures
        stored(cleared(s, path, key, below).main, stored_key) == main_after_clearing(
            s,
            path,
            key,
            below,
            stored_key,
        ),
{
    lemma_clear_all(delete_in_subtree(s, prefix_of(path), key), below, stored_key);
}

/// After the delete of an element that is no tree, propagation from `path`
/// restores the invariant.
pub proof fn lemma_delete_item_step(
    s: StorageView,
    path: PathView,
    key: Seq<u8>,
    universe: Set<PathView>,
)
    requires
        hash_invariant(s, universe),
        is_subtree(s, path),
        !is_tree_bytes(stored_at(s, path, key)),
    ensures
        ({
            let next = cleared(s, path, key, Seq::empty());
            &&& live_within(next, universe)
            &&& is_subtree(next, path)
            &&& all_reachable(s) ==> all_reachable(next)
            &&& consistent_except(next, path)
        }),
{
    let pp = prefix_of(path);
    let none = Seq::<PathView>::empty();
    let next = cleared(s, path, key, none);
    assert forall|stored_key: Seq<u8>|
        stored(next.main, stored_key) == if stored_key == pp + key {
            None
        } else {
            stored(s.main, stored_key)
        } by {
        lemma_cleared_main(s, path, key, none, stored_key);
    }
    assert forall|p: PathView, k: Seq<u8>|
        #![trigger stored_at(next, p, k)]
        is_tree_bytes(stored_at(next, p, k)) == is_tree_bytes(stored_at(s, p, k)) by {
        if prefix_of(p) + k == pp + key {
            assert(stored_at(s, p, k) == stored_at(s, path, key));
        }
    }
    assert forall|q: PathView| is_subtree(next, q) == is_subtree(s, q) by {
        lemma_same_trees(next, s, q);
    }
    assert forall|q: PathView| #[trigger] is_subtree(next, q) implies universe.contains(q) by {
        assert(is_subtree(s, q));
    }
    if all_reachable(s) {
        assert forall|stored_key: Seq<u8>| #[trigger]
            next.main.contains_key(stored_key) implies exists|q: PathView|
            is_subtree(next, q) && has_prefix(stored_key, #[trigger] prefix_of(q)) by {
            assert(stored(next.main, stored_key) is Some);
            assert(s.main.contains_key(stored_key));
            let q = choose|q: PathView|
                is_subtree(s, q) && has_prefix(stored_key, #[trigger] prefix_of(q));
            assert(is_subtree(next, q));
        }
    }
    assert(universe.contains(path));
    lemma_prefix_length(path);
    assert forall|p: PathView, k: Seq<u8>|
        #![trigger stored_at(next, p, k)]
        is_subtree(next, p) && !on_path(path, p.push(k)) implies consistent_at(next, p, k) by {
        if is_tree_bytes(stored_at(next, p, k)) {
            let child = p.push(k);
            assert(is_subtree(s, p));
            assert(is_tree_bytes(stored_at(s, p, k)));
            lemma_live_push(s, p, k);
            assert(universe.contains(child));
            lemma_prefix_length(child);
            if prefix_of(child) == pp {
                assert(child == path);
                assert(path.subrange(0, child.len() as int) =~= child);
            }
            assert(subtree_map(next.main, prefix_of(child)) =~= subtree_map(
                s.main,
                prefix_of(child),
            )) by {
                assert forall|k2: Seq<u8>|
                    stored(next.main, prefix_of(child) + k2) == stored(
                        s.main,
                        prefix_of(child) + k2,
                    ) by {
                    lemma_under_prefix(prefix_of(child), k2);
                    lemma_under_prefix(pp, key);
                    if prefix_of(child) + k2 == pp + key {
                        lemma_one_prefix(pp + key, child, path);
                    }
                }
            }
            assert(consistent_at(s, p, k));
            assert(stored_at(next, p, k) == stored_at(s, p, k));
        }
    }
}

/// After the delete of a tree a path leads to a subtree if it did before
/// and the subtree is not the tree's or below it.
pub proof fn lemma_delete_tree_live(
    s: StorageView,
    path: PathView,
    key: Seq<u8>,
    below: Seq<PathView>,
    universe: Set<PathView>,
    q: PathView,
)
    requires
        collision_free(universe),
        live_within(s, universe),
        is_subtree(s, path),
        is_tree_bytes(stored_at(s, path, key)),
        forall|d: PathView| below.contains(d) <==> is_below(s, path.push(key), d),
    ensures
        is_subtree(cleared(s, path, key, below), q) == (is_subtree(s, q) && !is_below(
            s,
            path.push(key),
            q,
        )),
    decreases q.len(),
{
    let pp = prefix_of(path);
    let child = path.push(key);
    let next = cleared(s, path, key, below);
    lemma_live_push(s, path, key);
    assert(universe.contains(path));
    if is_subtree(next, q) {
        if q.len() > 0 {
            let p = q.drop_last();
            let k = q.last();
            lemma_live_parent(next, q);
            lemma_delete_tree_live(s, path, key, below, universe, p);
            lemma_cleared_main(s, path, key, below, prefix_of(p) + k);
            assert(stored_at(next, p, k) == stored_at(s, p, k));
            lemma_live_push(s, p, k);
            if is_below(s, child, q) {
                if q.len() == child.len() {
                    assert(q =~= q.subrange(0, child.len() as int));
                    assert(child.drop_last() =~= path);
                    assert(false);
                } else {
                    lemma_below_parent(s, child, q);
                    assert(false);
                }
            }
        } else {
            assert(q =~= Seq::<Seq<u8>>::empty());
        }
    }
    if is_subtree(s, q) && !is_below(s, child, q) {
        assert forall|i: int| 0 <= i < q.len() implies #[trigger] names_tree(next, q, i) by {
            let head = q.subrange(0, i);
            let stored_key = prefix_of(head) + q[i];
            assert(names_tree(s, q, i));
            lemma_cleared_main(s, path, key, below, stored_key);
            assert(is_subtree(s, head)) by {
                lemma_below_top(s, q);
                lemma_below_prefix(s, Seq::empty(), q, i);
                lemma_below_top(s, head);
            }
            assert(universe.contains(head));
            if stored_key == pp + key {
                lemma_flat_key(universe, head, q[i], path, key);
                assert(q.subrange(0, i + 1) =~= child);
                lemma_live_is_below(s, child, q);
            }
            if exists|j: int|
                0 <= j < below.len() && has_prefix(stored_key, prefix_of(#[trigger] below[j])) {
                let j = choose|j: int|
                    0 <= j < below.len() && has_prefix(stored_key, prefix_of(#[trigger] below[j]));
                let d = below[j];
                assert(below.contains(d));
                lemma_below_is_live(s, child, d);
                assert(universe.contains(d));
                lemma_under_prefix(prefix_of(head), q[i]);
                lemma_one_prefix(stored_key, head, d);
                assert(head == d);
                assert(q.subrange(0, child.len() as int) =~= head.subrange(
                    0,
                    child.len() as int,
                ));
                lemma_live_is_below(s, child, q);
            }
            assert(stored_at(next, head, q[i]) == stored_at(s, head, q[i]));
        }
    }
}

/// After the delete of a tree and the clearing of the subtrees below it,
/// propagation from `path` restores the invariant.
pub proof fn lemma_delete_tree_step(
    s: StorageView,
    path: PathView,
    key: Seq<u8>,
    below: Seq<PathView>,
    universe: Set<PathView>,
)
    requires
        hash_invariant(s, universe),
        is_subtree(s, path),
        is_tree_bytes(stored_at(s, path, key)),
        forall|d: PathView| below.contains(d) <==> is_below(s, path.push(key), d),
    ensures
        ({
            let next = cleared(s, path, key, below);
            &&& live_within(next, universe)
            &&& is_subtree(next, path)
            &&& all_reachable(s) ==> all_reachable(next)
            &&& consistent_except(next, path)
        }),
{
    let pp = prefix_of(path);
    let child = path.push(key);
    let next = cleared(s, path, key, below);
    lemma_live_push(s, path, key);
    assert(universe.contains(path));
    assert forall|q: PathView|
        is_subtree(next, q) == (is_subtree(s, q) && !is_below(s, child, q)) by {
        lemma_delete_tree_live(s, path, key, below, universe, q);
    }
    assert forall|q: PathView| #[trigger] is_subtree(next, q) implies universe.contains(q) by {
        assert(is_subtree(s, q));
    }
    assert(!is_below(s, child, path));
    if all_reachable(s) {
        assert forall|stored_key: Seq<u8>| #[trigger]
            next.main.contains_key(stored_key) implies exists|q: PathView|
            is_subtree(next, q) && has_prefix(stored_key, #[trigger] prefix_of(q)) by {
            lemma_cleared_main(s, path, key, below, stored_key);
            assert(stored(next.main, stored_key) is Some);
            assert(s.main.contains_key(stored_key));
            let q = choose|q: PathView|
                is_subtree(s, q) && has_prefix(stored_key, #[trigger] prefix_of(q));
            if is_below(s, child, q) {
                assert(below.contains(q));
                let j = choose|j: int| 0 <= j < below.len() && below[j] == q;
                assert(has_prefix(stored_key, prefix_of(below[j])));
                assert(false);
            }
            assert(is_subtree(next, q));
        }
    }
    lemma_prefix_length(path);
    assert forall|p: PathView, k: Seq<u8>|
        #![trigger stored_at(next, p, k)]
        is_subtree(next, p) && !on_path(path, p.push(k)) implies consistent_at(next, p, k) by {
        if is_tree_bytes(stored_at(next, p, k)) {
            let named = p.push(k);
            assert(is_subtree(s, p) && !is_below(s, child, p));
            lemma_cleared_main(s, path, key, below, prefix_of(p) + k);
            assert(stored_at(next, p, k) == stored_at(s, p, k));
            lemma_live_push(s, p, k);
            assert(universe.contains(named));
            lemma_prefix_length(named);
            assert(consistent_at(s, p, k));
            if is_below(s, child, named) {
                if named.len() == child.len() {
                    assert(named =~= named.subrange(0, child.len() as int));
                    assert(named == child);
                    assert(named.drop_last() =~= p);
                    assert(child.drop_last() =~= path);
                    assert(named.last() == k);
                    assert(child.last() == key);
                    assert(p == path && k == key);
                    assert(false);
                } else {
                    lemma_below_parent(s, child, named);
                    assert(named.drop_last() =~= p);
                    assert(false);
                }
            }
            assert(subtree_map(next.main, prefix_of(named)) =~= subtree_map(
                s.main,
                prefix_of(named),
            )) by {
                assert forall|k2: Seq<u8>|
                    stored(next.main, prefix_of(named) + k2) == stored(
                        s.main,
                        prefix_of(named) + k2,
                    ) by {
                    let stored_key = prefix_of(named) + k2;
                    lemma_cleared_main(s, path, key, below, stored_key);
                    lemma_under_prefix(prefix_of(named), k2);
                    lemma_under_prefix(pp, key);
                    if stored_key == pp + key {
                        lemma_one_prefix(stored_key, named, path);
                        assert(named == path);
                        assert(path.subrange(0, named.len() as int) =~= named);
                    }
                    if exists|j: int|
                        0 <= j < below.len() && has_prefix(
                            stored_key,
                            prefix_of(#[trigger] below[j]),
                        ) {
                        let j = choose|j: int|
                            0 <= j < below.len() && has_prefix(
                                stored_key,
                                prefix_of(#[trigger] below[j]),
                            );
                        let d = below[j];
                        assert(below.contains(d));
                        lemma_below_is_live(s, child, d);
                        assert(universe.contains(d));
                        lemma_one_prefix(stored_key, named, d);
                        assert(named == d);
                    }
                }
            }
        }
    }
}

/// Deletes keep hash consistency: where every tree that a path leads to
/// holds the root hash of its subtree, the same holds after a delete that
/// succeeds. Nothing more is asked of the grove than that the paths to its
/// subtrees lie in a universe without collisions.
pub proof fn lemma_delete_keeps_hashes(
    s: StorageView,
    path: PathView,
    key: Seq<u8>,
    universe: Set<PathView>,
)
    requires
        hash_invariant(s, universe),
        held(s.main),
        delete_error(s, path, key) is None,
    ensures
        hash_invariant(delete_spec(s, path, key), universe),
{
    let below = doomed(s, path, key).unwrap();
    if is_tree_bytes(stored_at(s, path, key)) {
        assert forall|d: PathView| below.contains(d) <==> is_below(s, path.push(key), d) by {
            lemma_find_subtrees_exact(s, path.push(key), d);
        }
        lemma_delete_tree_step(s, path, key, below, universe);
    } else {
        assert(below =~= Seq::<PathView>::empty());
        lemma_delete_item_step(s, path, key, universe);
    }
    lemma_propagate_restores(cleared(s, path, key, below), path, universe);
}

/// Deletes keep the invariant: after a delete that succeeds every tree
/// holds the root hash of its subtree, and every entry belongs to a
/// subtree that a path leads to.
pub proof fn lemma_delete_keeps_invariant(
    s: StorageView,
    path: PathView,
    key: Seq<u8>,
    universe: Set<PathView>,
)
    requires
        grove_invariant(s, universe),
        held(s.main),
        delete_error(s, path, key) is None,
    ensures
        grove_invariant(delete_spec(s, path, key), universe),
{
    let below = doomed(s, path, key).unwrap();
    if is_tree_bytes(stored_at(s, path, key)) {
        assert forall|d: PathView| below.contains(d) <==> is_below(s, path.push(key), d) by {
            lemma_find_subtrees_exact(s, path.push(key), d);
        }
        lemma_delete_tree_step(s, path, key, below, universe);
    } else {
        assert(below =~= Seq::<PathView>::empty());
        lemma_delete_item_step(s, path, key, universe);
    }
    let next = cleared(s, path, key, below);
    assert forall|stored_key: Seq<u8>| #[trigger]
        next.main.contains_key(stored_key) implies decode_element(next.main[stored_key])
        is Some by {
        lemma_cleared_main(s, path, key, below, stored_key);
        assert(stored(next.main, stored_key) is Some);
        assert(s.main.contains_key(stored_key));
    }
    lemma_propagate_restores(next, path, universe);
}

/// Reachability. In a grove that meets the invariant every entry of the
/// *main* space lies under the prefix of a subtree that the traversal from
/// the top-level path finds.
pub proof fn lemma_entries_are_found(
    s: StorageView,
    universe: Set<PathView>,
    stored_key: Seq<u8>,
)
    requires
        grove_invariant(s, universe),
        held(s.main),
        find_subtrees_spec(s, Seq::empty()) is Some,
        s.main.contains_key(stored_key),
    ensures
        exists|q: PathView|
            find_subtrees_spec(s, Seq::empty()).unwrap().contains(q) && has_prefix(
                stored_key,
                #[trigger] prefix_of(q),
            ),
{
    let q = choose|q: PathView| is_subtree(s, q) && has_prefix(stored_key, #[trigger] prefix_of(q));
    lemma_below_top(s, q);
    lemma_find_subtrees_exact(s, Seq::empty(), q);
    assert(find_subtrees_spec(s, Seq::empty()).unwrap().contains(q) && has_prefix(
        stored_key,
        prefix_of(q),
    ));
}

/// The invariant speaks of the *main* space alone.
pub proof fn lemma_invariant_of_main(a: StorageView, b: StorageView, universe: Set<PathView>)
    requires
        grove_invariant(a, universe),
        a.main == b.main,
    ensures
        grove_invariant(b, universe),
{
    assert forall|p: PathView, k: Seq<u8>|
        #![trigger stored_at(a, p, k)]
        is_tree_bytes(stored_at(a, p, k)) == is_tree_bytes(stored_at(b, p, k)) by {}
    assert forall|q: PathView| is_subtree(a, q) == is_subtree(b, q) by {
        lemma_same_trees(a, b, q);
    }
    assert forall|q: PathView| #[trigger] is_subtree(b, q) implies universe.contains(q) by {
        assert(is_subtree(a, q));
    }
    assert forall|p: PathView, k: Seq<u8>|
        #![trigger stored_at(b, p, k)]
        is_subtree(b, p) implies consistent_at(b, p, k) by {
        assert(is_subtree(a, p));
        assert(consistent_at(a, p, k));
        assert(stored_at(a, p, k) == stored_at(b, p, k));
    }
    assert forall|stored_key: Seq<u8>| #[trigger]
        b.main.contains_key(stored_key) implies exists|q: PathView|
        is_subtree(b, q) && has_prefix(stored_key, #[trigger] prefix_of(q)) by {
        let q = choose|q: PathView|
            is_subtree(a, q) && has_prefix(stored_key, #[trigger] prefix_of(q));
        assert(is_subtree(b, q));
    }
    assert(all_decodable(b));
}

/// Recursive closure. Where the paths to the subtrees of a grove lie in a
/// universe without collisions, after the delete of a tree nothing is left
/// in the *main*, *aux* and *roots* spaces under the prefix of the tree's
/// subtree or of any subtree below it.
pub proof fn lemma_delete_clears_below(
    s: StorageView,
    path: PathView,
    key: Seq<u8>,
    universe: Set<PathView>,
    below: PathView,
    stored_key: Seq<u8>,
)
    requires
        collision_free(universe),
        live_within(s, universe),
        held(s.main),
        delete_error(s, path, key) is None,
        is_tree_bytes(stored_at(s, path, key)),
        is_below(s, path.push(key), below),
        has_prefix(stored_key, prefix_of(below)),
    ensures
        !delete_spec(s, path, key).main.contains_key(stored_key),
        !delete_spec(s, path, key).aux.contains_key(stored_key),
        !delete_spec(s, path, key).roots.contains_key(stored_key),
{
    let child = path.push(key);
    lemma_find_subtrees_exact(s, child, below);
    lemma_live_push(s, path, key);
    lemma_below_is_live(s, child, below);
    assert(universe.contains(below));
    assert forall|i: int| 0 <= i < path.len() implies #[trigger] prefix_of(path.subrange(0, i))
        != prefix_of(below) by {
        assert(universe.contains(path));
        assert(universe.contains(path.subrange(0, i)));
    }
    lemma_delete_clears_subtrees(s, path, key, below, stored_key);
}

} // verus!
