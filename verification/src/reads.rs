//! Reads after writes: what was inserted is read back, what was deleted is
//! gone, and auxiliary data outlives the subtrees.
use vstd::prelude::*;
use crate::bytes::has_prefix;
use crate::consistency::{
    cleared, collision_free, consistent_at, grove_invariant, hash_consistent, lemma_below_is_live,
    lemma_below_prefix, lemma_below_top, lemma_cleared_main, lemma_delete_clears_below,
    lemma_delete_keeps_invariant, lemma_empty_range_root, lemma_flat_key,
    lemma_insert_keeps_invariant, lemma_live_parent, lemma_live_push, lemma_under_prefix,
    lemma_unused_prefix_empty, live_within, on_path, range_empty, tree_hash_at,
};
use crate::context::stored;
use crate::determinism::{
    leaf_at, leaf_of, lemma_content_decides, lemma_delete_effect, lemma_insert_effect, Leaf,
};
use crate::element::{
    encode_element, lemma_decode_encode, lemma_encode_decode, valid_element, ElementView,
};
use crate::error::Error;
use crate::keyspace::held;
use crate::laws::{
    is_below, lemma_clear_all, lemma_find_subtrees_exact, lemma_one_prefix, lemma_propagate_frame,
    lemma_propagate_writes,
};
use crate::reach::lemma_delete_succeeds;
use crate::runs::lemma_held_insert_spec;
use crate::model::{
    clear_all, delete_error, delete_spec, doomed, get_raw_spec, get_spec, insert_error, insert_spec,
    is_subtree, is_tree_bytes, names_tree, propagate, resolve, stored_at, stored_form, top_prefix,
    MAX_REF_HOPS,
};
use crate::path::{prefix_of, PathView};
use crate::storage::StorageView;
use crate::subtree::{clear_subtree, delete_in_subtree, put_in_subtree, subtree_root};

verus! {

/// In a universe without collisions a key under the prefix of a path lies
/// under the prefix of no other path of the universe.
pub proof fn lemma_not_under_other(
    universe: Set<PathView>,
    a: PathView,
    b: PathView,
    stored_key: Seq<u8>,
)
    requires
        collision_free(universe),
        universe.contains(a),
        universe.contains(b),
        a != b,
        has_prefix(stored_key, prefix_of(a)),
    ensures
        !has_prefix(stored_key, prefix_of(b)),
{
    if has_prefix(stored_key, prefix_of(b)) {
        lemma_one_prefix(stored_key, a, b);
    }
}

/// What an insert stores is read back: after the insert of an element that
/// is no tree, a read of the key gives the element.
pub proof fn lemma_insert_then_get(
    s: StorageView,
    path: PathView,
    key: Seq<u8>,
    element: ElementView,
    universe: Set<PathView>,
)
    requires
        grove_invariant(s, universe),
        insert_error(s, path, key) is None,
        valid_element(element),
        !(element is Tree),
    ensures
        get_raw_spec(insert_spec(s, path, key, element), path, key) == Ok::<ElementView, Error>(
            element,
        ),
{
    let after = insert_spec(s, path, key, element);
    lemma_insert_effect(s, path, key, element, universe);
    lemma_decode_encode(element);
    assert(universe.contains(path));
    assert(leaf_at(after, path, key) == leaf_of(Some(encode_element(element))));
    assert(is_subtree(after, path));
}

/// After the insert of a tree a read of the key gives a tree without a
/// root hash: its subtree is there, and empty.
pub proof fn lemma_insert_tree_then_get(
    s: StorageView,
    path: PathView,
    key: Seq<u8>,
    element: ElementView,
    universe: Set<PathView>,
)
    requires
        grove_invariant(s, universe),
        insert_error(s, path, key) is None,
        element is Tree,
        valid_element(element),
        universe.contains(path.push(key)),
    ensures
        get_raw_spec(insert_spec(s, path, key, element), path, key) == Ok::<ElementView, Error>(
            ElementView::Tree(None),
        ),
        is_subtree(insert_spec(s, path, key, element), path.push(key)),
        range_empty(insert_spec(s, path, key, element), prefix_of(path.push(key))),
{
    let child = path.push(key);
    let c = prefix_of(child);
    let pp = prefix_of(path);
    let after = insert_spec(s, path, key, element);
    let bytes = encode_element(ElementView::Tree(None));
    let fresh = clear_subtree(s, c);
    let next = put_in_subtree(fresh, pp, key, bytes);
    lemma_insert_effect(s, path, key, element, universe);
    lemma_insert_keeps_invariant(s, path, key, element, universe);
    lemma_decode_encode(ElementView::Tree(None));
    assert(universe.contains(path));
    assert(child.drop_last() =~= path);
    if is_subtree(s, child) {
        lemma_live_parent(s, child);
    }
    lemma_unused_prefix_empty(s, universe, child);
    assert(fresh.main =~= s.main);
    assert(next.main == s.main.insert(pp + key, bytes));
    assert forall|stored_key: Seq<u8>| #[trigger] after.main.contains_key(stored_key) implies !has_prefix(
        stored_key,
        c,
    ) by {
        if has_prefix(stored_key, c) {
            assert forall|i: int| 0 <= i < path.len() implies !has_prefix(
                stored_key,
                #[trigger] prefix_of(path.subrange(0, i)),
            ) by {
                assert(universe.contains(path.subrange(0, i)));
                lemma_not_under_other(universe, child, path.subrange(0, i), stored_key);
            }
            lemma_propagate_frame(next, path, stored_key);
            lemma_under_prefix(pp, key);
            if stored_key == pp + key {
                lemma_not_under_other(universe, path, child, stored_key);
            }
            assert(s.main.contains_key(stored_key));
        }
    }
    lemma_empty_range_root(after, c);
    assert(leaf_at(after, path, key) == leaf_of(Some(bytes)));
    assert(is_subtree(after, path));
    assert(consistent_at(after, path, key));
    lemma_encode_decode(stored_at(after, path, key).unwrap());
}

/// What a delete removes is gone: after the delete a read of the key finds
/// nothing.
pub proof fn lemma_delete_then_get(
    s: StorageView,
    path: PathView,
    key: Seq<u8>,
    universe: Set<PathView>,
)
    requires
        collision_free(universe),
        live_within(s, universe),
        delete_error(s, path, key) is None,
    ensures
        get_raw_spec(delete_spec(s, path, key), path, key) == Err::<ElementView, Error>(
            Error::InvalidPath,
        ),
{
    let below = doomed(s, path, key).unwrap();
    let stored_key = prefix_of(path) + key;
    lemma_cleared_main(s, path, key, below, stored_key);
    lemma_under_prefix(prefix_of(path), key);
    assert(universe.contains(path));
    assert forall|i: int| 0 <= i < path.len() implies !has_prefix(
        stored_key,
        #[trigger] prefix_of(path.subrange(0, i)),
    ) by {
        assert(universe.contains(path.subrange(0, i)));
        lemma_not_under_other(universe, path, path.subrange(0, i), stored_key);
    }
    lemma_propagate_frame(cleared(s, path, key, below), path, stored_key);
}

/// A reference to an element that is no reference is followed to it.
pub proof fn lemma_reference_resolves(
    s: StorageView,
    path: PathView,
    key: Seq<u8>,
    target_path: PathView,
    target_key: Seq<u8>,
)
    requires
        get_raw_spec(s, path, key) == Ok::<ElementView, Error>(
            ElementView::Reference(target_path, target_key),
        ),
        get_raw_spec(s, target_path, target_key) is Ok,
        !(get_raw_spec(s, target_path, target_key).unwrap() is Reference),
    ensures
        get_spec(s, path, key) == get_raw_spec(s, target_path, target_key),
{
    assert(resolve(s, target_path, target_key, (MAX_REF_HOPS - 1) as nat) == get_raw_spec(
        s,
        target_path,
        target_key,
    ));
}

/// Auxiliary data outlives subtrees: what lies in the *aux* space under the
/// top-level prefix is there after a delete, whatever the delete removes.
pub proof fn lemma_aux_outlives_delete(
    s: StorageView,
    path: PathView,
    key: Seq<u8>,
    universe: Set<PathView>,
    aux_key: Seq<u8>,
)
    requires
        grove_invariant(s, universe),
        held(s.main),
        delete_error(s, path, key) is None,
    ensures
        stored(delete_spec(s, path, key).aux, top_prefix() + aux_key) == stored(
            s.aux,
            top_prefix() + aux_key,
        ),
{
    let top = Seq::<Seq<u8>>::empty();
    let stored_key = top_prefix() + aux_key;
    let below = doomed(s, path, key).unwrap();
    let removed = delete_in_subtree(s, prefix_of(path), key);
    lemma_under_prefix(top_prefix(), aux_key);
    lemma_clear_all(removed, below, stored_key);
    if exists|j: int| 0 <= j < below.len() && has_prefix(stored_key, prefix_of(#[trigger] below[j])) {
        let j = choose|j: int|
            0 <= j < below.len() && has_prefix(stored_key, prefix_of(#[trigger] below[j]));
        let d = below[j];
        assert(below.contains(d));
        assert(is_tree_bytes(stored_at(s, path, key)));
        lemma_find_subtrees_exact(s, path.push(key), d);
        lemma_live_push(s, path, key);
        lemma_below_is_live(s, path.push(key), d);
        lemma_not_under_other(universe, top, d, stored_key);
    }
    lemma_propagate_aux(clear_all(removed, below), path);
}

/// Propagation leaves the *aux* space as it was.
pub proof fn lemma_propagate_aux(s: StorageView, path: PathView)
    ensures
        propagate(s, path).aux == s.aux,
    decreases path.len(),
{
    if path.len() > 0 {
        let tree = ElementView::Tree(subtree_root(s, prefix_of(path)));
        lemma_propagate_aux(
            put_in_subtree(s, prefix_of(path.drop_last()), path.last(), encode_element(tree)),
            path.drop_last(),
        );
    }
}

/// Auxiliary data outlives subtrees: what lies in the *aux* space under the
/// top-level prefix is there after an insert, also of a tree.
pub proof fn lemma_aux_outlives_insert(
    s: StorageView,
    path: PathView,
    key: Seq<u8>,
    element: ElementView,
    universe: Set<PathView>,
    aux_key: Seq<u8>,
)
    requires
        grove_invariant(s, universe),
        insert_error(s, path, key) is None,
        element is Tree ==> universe.contains(path.push(key)),
    ensures
        stored(insert_spec(s, path, key, element).aux, top_prefix() + aux_key) == stored(
            s.aux,
            top_prefix() + aux_key,
        ),
{
    let top = Seq::<Seq<u8>>::empty();
    let stored_key = top_prefix() + aux_key;
    let fresh = match element {
        ElementView::Tree(_) => clear_subtree(s, prefix_of(path.push(key))),
        _ => s,
    };
    lemma_under_prefix(top_prefix(), aux_key);
    if element is Tree {
        lemma_not_under_other(universe, top, path.push(key), stored_key);
    }
    lemma_propagate_aux(
        put_in_subtree(fresh, prefix_of(path), key, encode_element(stored_form(element))),
        path,
    );
}

/// An insert changes no other entry: a read of another key that held no
/// tree gives after the insert what it gave before.
pub proof fn lemma_insert_keeps_others(
    s: StorageView,
    path: PathView,
    key: Seq<u8>,
    element: ElementView,
    universe: Set<PathView>,
    other_path: PathView,
    other_key: Seq<u8>,
)
    requires
        grove_invariant(s, universe),
        insert_error(s, path, key) is None,
        valid_element(element),
        element is Tree ==> universe.contains(path.push(key)),
        is_subtree(s, other_path),
        !(other_path == path && other_key == key),
        !is_tree_bytes(stored_at(s, other_path, other_key)),
    ensures
        get_raw_spec(insert_spec(s, path, key, element), other_path, other_key) == get_raw_spec(
            s,
            other_path,
            other_key,
        ),
{
    let after = insert_spec(s, path, key, element);
    lemma_insert_effect(s, path, key, element, universe);
    assert(universe.contains(other_path));
    assert(is_subtree(after, other_path));
    assert(leaf_at(after, other_path, other_key) == leaf_at(s, other_path, other_key));
}

/// A delete changes no other entry of the subtrees that stay: a read of
/// another key that held no tree gives after the delete what it gave before.
pub proof fn lemma_delete_keeps_others(
    s: StorageView,
    path: PathView,
    key: Seq<u8>,
    universe: Set<PathView>,
    other_path: PathView,
    other_key: Seq<u8>,
)
    requires
        grove_invariant(s, universe),
        held(s.main),
        delete_error(s, path, key) is None,
        is_subtree(s, other_path),
        !is_below(s, path.push(key), other_path),
        !(other_path == path && other_key == key),
        !is_tree_bytes(stored_at(s, other_path, other_key)),
    ensures
        get_raw_spec(delete_spec(s, path, key), other_path, other_key) == get_raw_spec(
            s,
            other_path,
            other_key,
        ),
{
    let after = delete_spec(s, path, key);
    lemma_delete_effect(s, path, key, universe);
    assert(universe.contains(other_path));
    assert(is_subtree(after, other_path));
    assert(leaf_at(after, other_path, other_key) == leaf_at(s, other_path, other_key));
}

/// A delete undoes an insert: where an element is inserted under a key
/// that held nothing, below the top-level subtree, and then deleted, the
/// *main* space and with it every root hash is what it was before.
pub proof fn lemma_insert_then_delete_restores(
    s: StorageView,
    path: PathView,
    key: Seq<u8>,
    element: ElementView,
    universe: Set<PathView>,
    depth: nat,
)
    requires
        grove_invariant(s, universe),
        held(s.main),
        forall|q: PathView| #[trigger] universe.contains(q) ==> q.len() <= depth,
        path.len() > 0,
        insert_error(s, path, key) is None,
        stored_at(s, path, key) is None,
        valid_element(element),
        element is Tree ==> universe.contains(path.push(key)),
    ensures
        delete_error(insert_spec(s, path, key, element), path, key) is None,
        delete_spec(insert_spec(s, path, key, element), path, key).main == s.main,
        subtree_root(delete_spec(insert_spec(s, path, key, element), path, key), top_prefix())
            == subtree_root(s, top_prefix()),
{
    let mid = insert_spec(s, path, key, element);
    let after = delete_spec(mid, path, key);
    let child = path.push(key);
    lemma_insert_keeps_invariant(s, path, key, element, universe);
    lemma_held_insert_spec(s, path, key, element);
    lemma_insert_effect(s, path, key, element, universe);
    if element is Tree {
        lemma_insert_tree_then_get(s, path, key, element, universe);
    } else {
        lemma_insert_then_get(s, path, key, element, universe);
    }
    lemma_delete_succeeds(mid, path, key, universe);
    lemma_delete_keeps_invariant(mid, path, key, universe);
    lemma_delete_effect(mid, path, key, universe);
    assert(universe.contains(path));
    // the same paths lead to subtrees as before
    assert forall|q: PathView| is_subtree(after, q) == is_subtree(s, q) by {
        assert(is_subtree(after, q) == (is_subtree(mid, q) && !(is_tree_bytes(
            stored_at(mid, path, key),
        ) && is_below(mid, child, q))));
        assert(is_subtree(mid, q) == (is_subtree(s, q) || (element is Tree && q == child)));
        if element is Tree {
            assert(child.drop_last() =~= path);
            if is_subtree(s, child) {
                lemma_live_parent(s, child);
            }
            if q == child {
                assert(child.subrange(0, child.len() as int) =~= child);
                assert(is_below(mid, child, child));
            }
            if is_below(mid, child, q) && q != child {
                // the new subtree is empty, so nothing lies below it
                if q.len() == child.len() {
                    assert(q =~= q.subrange(0, child.len() as int));
                }
                let k = q[child.len() as int];
                assert(names_tree(mid, q, child.len() as int));
                lemma_under_prefix(prefix_of(child), k);
                assert(mid.main.contains_key(prefix_of(child) + k));
            }
        } else {
            lemma_decode_encode(element);
        }
    }
    // and every entry says what it said before
    assert forall|p: PathView, k: Seq<u8>|
        #![trigger stored_at(after, p, k)]
        universe.contains(p) implies leaf_at(after, p, k) == leaf_at(s, p, k) by {
        if is_subtree(after, p) {
            assert(leaf_at(after, p, k) == if p == path && k == key {
                Leaf::Absent
            } else {
                leaf_at(mid, p, k)
            });
            assert(leaf_at(mid, p, k) == if p == path && k == key {
                leaf_of(Some(encode_element(stored_form(element))))
            } else {
                leaf_at(s, p, k)
            });
        } else {
            lemma_unused_prefix_empty(after, universe, p);
            lemma_unused_prefix_empty(s, universe, p);
            lemma_under_prefix(prefix_of(p), k);
        }
    }
    lemma_content_decides(after, s, universe, depth);
}

/// What a delete leaves alone: an entry of a subtree that stays, other than
/// the deleted one and the trees that name the subtree at `path` and those
/// above it, holds after the delete the bytes it held before, root hash
/// and all.
pub proof fn lemma_delete_frame(
    s: StorageView,
    path: PathView,
    key: Seq<u8>,
    universe: Set<PathView>,
    other_path: PathView,
    other_key: Seq<u8>,
)
    requires
        grove_invariant(s, universe),
        held(s.main),
        delete_error(s, path, key) is None,
        is_subtree(s, other_path),
        !is_below(s, path.push(key), other_path),
        !(other_path == path && other_key == key),
        !on_path(path, other_path.push(other_key)),
    ensures
        stored_at(delete_spec(s, path, key), other_path, other_key) == stored_at(
            s,
            other_path,
            other_key,
        ),
{
    let below = doomed(s, path, key).unwrap();
    let child = path.push(key);
    let stored_key = prefix_of(other_path) + other_key;
    assert(universe.contains(path));
    assert(universe.contains(other_path));
    lemma_cleared_main(s, path, key, below, stored_key);
    lemma_under_prefix(prefix_of(other_path), other_key);
    if stored_key == prefix_of(path) + key {
        lemma_flat_key(universe, other_path, other_key, path, key);
    }
    if exists|j: int| 0 <= j < below.len() && has_prefix(stored_key, prefix_of(#[trigger] below[j])) {
        let j = choose|j: int|
            0 <= j < below.len() && has_prefix(stored_key, prefix_of(#[trigger] below[j]));
        let d = below[j];
        assert(below.contains(d));
        assert(is_tree_bytes(stored_at(s, path, key)));
        lemma_find_subtrees_exact(s, child, d);
        lemma_live_push(s, path, key);
        lemma_below_is_live(s, child, d);
        assert(universe.contains(d));
        lemma_one_prefix(stored_key, other_path, d);
    }
    assert forall|i: int| 0 <= i < path.len() implies stored_key != #[trigger] prefix_of(
        path.subrange(0, i),
    ) + path[i] by {
        if stored_key == prefix_of(path.subrange(0, i)) + path[i] {
            assert(universe.contains(path.subrange(0, i)));
            lemma_flat_key(universe, other_path, other_key, path.subrange(0, i), path[i]);
            assert(other_path.push(other_key) =~= path.subrange(0, i + 1));
            assert(path.subrange(0, i + 1).len() == i + 1);
        }
    }
    lemma_propagate_writes(cleared(s, path, key, below), path, stored_key);
}

/// What an insert leaves alone: an entry of a subtree, other than the
/// inserted one and the trees that name the subtree at `path` and those
/// above it, holds after the insert the bytes it held before, root hash
/// and all.
pub proof fn lemma_insert_frame(
    s: StorageView,
    path: PathView,
    key: Seq<u8>,
    element: ElementView,
    universe: Set<PathView>,
    other_path: PathView,
    other_key: Seq<u8>,
)
    requires
        grove_invariant(s, universe),
        insert_error(s, path, key) is None,
        element is Tree ==> universe.contains(path.push(key)),
        is_subtree(s, other_path),
        !(other_path == path && other_key == key),
        !on_path(path, other_path.push(other_key)),
    ensures
        stored_at(insert_spec(s, path, key, element), other_path, other_key) == stored_at(
            s,
            other_path,
            other_key,
        ),
{
    let child = path.push(key);
    let stored_key = prefix_of(other_path) + other_key;
    let fresh = match element {
        ElementView::Tree(_) => clear_subtree(s, prefix_of(child)),
        _ => s,
    };
    let bytes = encode_element(stored_form(element));
    let next = put_in_subtree(fresh, prefix_of(path), key, bytes);
    assert(universe.contains(path));
    assert(universe.contains(other_path));
    if element is Tree {
        assert(child.drop_last() =~= path);
        if is_subtree(s, child) {
            lemma_live_parent(s, child);
        }
        lemma_unused_prefix_empty(s, universe, child);
        assert(fresh.main =~= s.main);
    }
    assert(next.main == s.main.insert(prefix_of(path) + key, bytes));
    if stored_key == prefix_of(path) + key {
        lemma_flat_key(universe, other_path, other_key, path, key);
    }
    assert forall|i: int| 0 <= i < path.len() implies stored_key != #[trigger] prefix_of(
        path.subrange(0, i),
    ) + path[i] by {
        if stored_key == prefix_of(path.subrange(0, i)) + path[i] {
            assert(universe.contains(path.subrange(0, i)));
            lemma_flat_key(universe, other_path, other_key, path.subrange(0, i), path[i]);
            assert(other_path.push(other_key) =~= path.subrange(0, i + 1));
            assert(path.subrange(0, i + 1).len() == i + 1);
        }
    }
    lemma_propagate_writes(next, path, stored_key);
}

/// The tree that names the subtree at the first `i` segments of `path`
/// holds the root hash of that subtree.
pub open spec fn chain_consistent_at(s: StorageView, path: PathView, i: int) -> bool {
    &&& is_tree_bytes(stored_at(s, path.subrange(0, i - 1), path[i - 1]))
    &&& tree_hash_at(s, path.subrange(0, i - 1), path[i - 1]) == subtree_root(
        s,
        prefix_of(path.subrange(0, i)),
    )
}

/// In a hash-consistent grove each tree on the way to a subtree holds the
/// root hash of the subtree it names.
pub proof fn lemma_chain_consistent(s: StorageView, path: PathView, i: int)
    requires
        hash_consistent(s),
        is_subtree(s, path),
        1 <= i <= path.len(),
    ensures
        chain_consistent_at(s, path, i),
{
    let parent = path.subrange(0, i - 1);
    assert(names_tree(s, path, i - 1));
    lemma_below_top(s, path);
    lemma_below_prefix(s, Seq::empty(), path, i - 1);
    lemma_below_top(s, parent);
    assert(consistent_at(s, parent, path[i - 1]));
    assert(parent.push(path[i - 1]) =~= path.subrange(0, i));
}

/// Hash consistency along the path of a delete. In a grove that meets the
/// invariant a delete below the top-level subtree of an entry that a read
/// finds succeeds; the invariant holds again; and each tree that names the
/// subtree at `path` or one above it holds the root hash that its subtree
/// has after the delete.
pub proof fn lemma_delete_keeps_chain(
    s: StorageView,
    path: PathView,
    key: Seq<u8>,
    universe: Set<PathView>,
)
    requires
        grove_invariant(s, universe),
        held(s.main),
        path.len() > 0,
        get_raw_spec(s, path, key) is Ok,
    ensures
        delete_error(s, path, key) is None,
        grove_invariant(delete_spec(s, path, key), universe),
        is_subtree(delete_spec(s, path, key), path),
        forall|i: int|
            1 <= i <= path.len() ==> #[trigger] chain_consistent_at(
                delete_spec(s, path, key),
                path,
                i,
            ),
{
    let after = delete_spec(s, path, key);
    lemma_delete_succeeds(s, path, key, universe);
    lemma_delete_keeps_invariant(s, path, key, universe);
    lemma_delete_effect(s, path, key, universe);
    assert(!is_below(s, path.push(key), path));
    assert(is_subtree(after, path));
    assert forall|i: int| 1 <= i <= path.len() implies #[trigger] chain_consistent_at(
        after,
        path,
        i,
    ) by {
        lemma_chain_consistent(after, path, i);
    }
}

/// Recursive closure of a delete. In a grove that meets the invariant the
/// delete of a tree below the top-level subtree succeeds; nothing is left
/// in the *main*, *aux* and *roots* spaces under the prefix of the tree's
/// subtree or of a subtree below it; and a read of the key finds nothing.
pub proof fn lemma_delete_closes(
    s: StorageView,
    path: PathView,
    key: Seq<u8>,
    universe: Set<PathView>,
)
    requires
        grove_invariant(s, universe),
        held(s.main),
        path.len() > 0,
        get_raw_spec(s, path, key) is Ok,
        is_tree_bytes(stored_at(s, path, key)),
    ensures
        delete_error(s, path, key) is None,
        get_raw_spec(delete_spec(s, path, key), path, key) == Err::<ElementView, Error>(
            Error::InvalidPath,
        ),
        forall|below: PathView, stored_key: Seq<u8>|
            #![trigger is_below(s, path.push(key), below), has_prefix(stored_key, prefix_of(below))]
            is_below(s, path.push(key), below) && has_prefix(stored_key, prefix_of(below)) ==> {
                &&& !delete_spec(s, path, key).main.contains_key(stored_key)
                &&& !delete_spec(s, path, key).aux.contains_key(stored_key)
                &&& !delete_spec(s, path, key).roots.contains_key(stored_key)
            },
{
    lemma_delete_succeeds(s, path, key, universe);
    lemma_delete_then_get(s, path, key, universe);
    assert forall|below: PathView, stored_key: Seq<u8>|
        #![trigger is_below(s, path.push(key), below), has_prefix(stored_key, prefix_of(below))]
        is_below(s, path.push(key), below) && has_prefix(stored_key, prefix_of(below)) implies {
        &&& !delete_spec(s, path, key).main.contains_key(stored_key)
        &&& !delete_spec(s, path, key).aux.contains_key(stored_key)
        &&& !delete_spec(s, path, key).roots.contains_key(stored_key)
    } by {
        lemma_delete_clears_below(s, path, key, universe, below, stored_key);
    }
}

} // verus!
