//! Runs of inserts and deletes: the invariant of the grove holds after any
//! of them.
use vstd::prelude::*;
use crate::consistency::{
    collision_free, grove_invariant, hash_invariant, lemma_delete_keeps_hashes,
    lemma_delete_keeps_invariant, lemma_empty_grove, lemma_insert_keeps_hashes,
    lemma_insert_keeps_invariant,
};
use crate::determinism::{
    admissible, distinct_targets, insert_all, lemma_delete_decided, lemma_insert_all,
    lemma_insert_order, same_inserts, Insert,
};
use crate::element::{encode_element, valid_element, ElementView};
use crate::keyspace::{
    entries_map, held, lemma_canonical, lemma_held_insert, lemma_held_remove,
    lemma_held_without_prefix,
};
use crate::model::{
    clear_all, delete_error, delete_spec, doomed, insert_error, insert_spec, propagate, stored_form,
    top_prefix,
};
use crate::path::{prefix_of, PathView};
use crate::storage::StorageView;
use crate::subtree::{clear_subtree, delete_in_subtree, put_in_subtree, subtree_root};

verus! {

/// One write to the grove.
pub enum Operation {
    /// The insert of an element under a key of the subtree at a path.
    Insert(Insert),
    /// The delete of the key of the subtree at the path.
    Delete(PathView, Seq<u8>),
}

/// The state after `operation`. A write that fails leaves the state as it is.
pub open spec fn apply(s: StorageView, operation: Operation) -> StorageView {
    match operation {
        Operation::Insert(insert) => if insert_error(s, insert.path, insert.key) is None {
            insert_spec(s, insert.path, insert.key, insert.element)
        } else {
            s
        },
        Operation::Delete(path, key) => if delete_error(s, path, key) is None {
            delete_spec(s, path, key)
        } else {
            s
        },
    }
}

/// The state after `operations`, one after the other.
pub open spec fn apply_all(s: StorageView, operations: Seq<Operation>) -> StorageView
    decreases operations.len(),
{
    if operations.len() == 0 {
        s
    } else {
        apply(apply_all(s, operations.drop_last()), operations.last())
    }
}

/// An inserted element can be stored, and the path of an inserted tree's
/// subtree is in the universe.
pub open spec fn admissible_operation(operation: Operation, universe: Set<PathView>) -> bool {
    match operation {
        Operation::Insert(insert) => valid_element(insert.element) && (insert.element is Tree
            ==> universe.contains(insert.path.push(insert.key))),
        Operation::Delete(_, _) => true,
    }
}

/// After a put in a subtree the *main* space is still what a key space holds.
pub proof fn lemma_held_put(s: StorageView, p: Seq<u8>, k: Seq<u8>, v: Seq<u8>)
    requires
        held(s.main),
    ensures
        held(put_in_subtree(s, p, k, v).main),
{
    lemma_held_insert(s.main, p + k, v);
    assert(put_in_subtree(s, p, k, v).main == s.main.insert(p + k, v));
}

/// After propagation the *main* space is still what a key space holds.
pub proof fn lemma_held_propagate(s: StorageView, path: PathView)
    requires
        held(s.main),
    ensures
        held(propagate(s, path).main),
    decreases path.len(),
{
    if path.len() > 0 {
        let bytes = encode_element(ElementView::Tree(subtree_root(s, prefix_of(path))));
        lemma_held_put(s, prefix_of(path.drop_last()), path.last(), bytes);
        lemma_held_propagate(
            put_in_subtree(s, prefix_of(path.drop_last()), path.last(), bytes),
            path.drop_last(),
        );
    }
}

/// After the clearing of ranges the *main* space is still what a key space holds.
pub proof fn lemma_held_clear_all(s: StorageView, paths: Seq<PathView>)
    requires
        held(s.main),
    ensures
        held(clear_all(s, paths).main),
    decreases paths.len(),
{
    if paths.len() > 0 {
        lemma_held_clear_all(s, paths.drop_last());
        lemma_held_without_prefix(clear_all(s, paths.drop_last()).main, prefix_of(paths.last()));
    }
}

/// After an insert the *main* space is still what a key space holds.
pub proof fn lemma_held_insert_spec(
    s: StorageView,
    path: PathView,
    key: Seq<u8>,
    element: ElementView,
)
    requires
        held(s.main),
    ensures
        held(insert_spec(s, path, key, element).main),
{
    let fresh = match element {
        ElementView::Tree(_) => clear_subtree(s, prefix_of(path.push(key))),
        _ => s,
    };
    if element is Tree {
        lemma_held_without_prefix(s.main, prefix_of(path.push(key)));
    }
    let bytes = encode_element(stored_form(element));
    lemma_held_put(fresh, prefix_of(path), key, bytes);
    lemma_held_propagate(put_in_subtree(fresh, prefix_of(path), key, bytes), path);
}

/// After a delete the *main* space is still what a key space holds.
pub proof fn lemma_held_delete_spec(s: StorageView, path: PathView, key: Seq<u8>)
    requires
        held(s.main),
        doomed(s, path, key) is Some,
    ensures
        held(delete_spec(s, path, key).main),
{
    let removed = delete_in_subtree(s, prefix_of(path), key);
    lemma_held_remove(s.main, prefix_of(path) + key);
    assert(removed.main == s.main.remove(prefix_of(path) + key));
    lemma_held_clear_all(removed, doomed(s, path, key).unwrap());
    lemma_held_propagate(clear_all(removed, doomed(s, path, key).unwrap()), path);
}

/// Hash consistency and reachability hold after any run of inserts and
/// deletes on a grove of which they hold: every tree that a path leads to
/// holds the root hash of its subtree, every entry lies under the prefix of
/// a subtree that a path leads to, and every value decodes. The universe
/// holds the paths in use, no two of them with the same prefix.
pub proof fn lemma_invariant_always(
    s: StorageView,
    operations: Seq<Operation>,
    universe: Set<PathView>,
)
    requires
        grove_invariant(s, universe),
        held(s.main),
        forall|i: int|
            0 <= i < operations.len() ==> admissible_operation(#[trigger] operations[i], universe),
    ensures
        grove_invariant(apply_all(s, operations), universe),
        held(apply_all(s, operations).main),
    decreases operations.len(),
{
    if operations.len() > 0 {
        let rest = operations.drop_last();
        let last = operations.last();
        assert forall|i: int| 0 <= i < rest.len() implies admissible_operation(
            #[trigger] rest[i],
            universe,
        ) by {
            assert(rest[i] == operations[i]);
        }
        lemma_invariant_always(s, rest, universe);
        let before = apply_all(s, rest);
        assert(admissible_operation(operations[operations.len() - 1], universe));
        match last {
            Operation::Insert(insert) => {
                if insert_error(before, insert.path, insert.key) is None {
                    lemma_insert_keeps_invariant(
                        before,
                        insert.path,
                        insert.key,
                        insert.element,
                        universe,
                    );
                    lemma_held_insert_spec(before, insert.path, insert.key, insert.element);
                }
            },
            Operation::Delete(path, key) => {
                if delete_error(before, path, key) is None {
                    lemma_delete_keeps_invariant(before, path, key, universe);
                    lemma_held_delete_spec(before, path, key);
                }
            },
        }
    }
}

/// The grove without entries.
pub open spec fn empty_grove() -> StorageView {
    StorageView { main: Map::empty(), aux: Map::empty(), roots: Map::empty(), meta: Map::empty() }
}

/// Hash consistency and reachability hold after any run of inserts and
/// deletes that starts with the empty grove.
pub proof fn lemma_invariant_from_empty(operations: Seq<Operation>, universe: Set<PathView>)
    requires
        collision_free(universe),
        forall|i: int|
            0 <= i < operations.len() ==> admissible_operation(#[trigger] operations[i], universe),
    ensures
        grove_invariant(apply_all(empty_grove(), operations), universe),
{
    let none = Seq::<(Seq<u8>, Seq<u8>)>::empty();
    assert(entries_map(none) =~= Map::<Seq<u8>, Seq<u8>>::empty());
    lemma_canonical(none);
    lemma_empty_grove(empty_grove(), universe);
    lemma_invariant_always(empty_grove(), operations, universe);
}

/// After a run of inserts the *main* space is still what a key space holds.
pub proof fn lemma_held_insert_all(s: StorageView, inserts: Seq<Insert>)
    requires
        held(s.main),
        insert_all(s, inserts) is Some,
    ensures
        held(insert_all(s, inserts).unwrap().main),
    decreases inserts.len(),
{
    if inserts.len() > 0 {
        let last = inserts.last();
        lemma_held_insert_all(s, inserts.drop_last());
        lemma_held_insert_spec(
            insert_all(s, inserts.drop_last()).unwrap(),
            last.path,
            last.key,
            last.element,
        );
    }
}

/// Root determinism, with a delete behind the inserts: on two groves built
/// by inserts of the same entries in different orders, the same delete
/// fails or succeeds alike, and where it succeeds the two groves have the
/// same *main* space and the same top-level root hash afterwards.
pub proof fn lemma_delete_after_any_order(
    s: StorageView,
    first: Seq<Insert>,
    second: Seq<Insert>,
    path: PathView,
    key: Seq<u8>,
    universe: Set<PathView>,
    depth: nat,
)
    requires
        grove_invariant(s, universe),
        held(s.main),
        forall|q: PathView| #[trigger] universe.contains(q) ==> q.len() <= depth,
        admissible(first, universe),
        admissible(second, universe),
        distinct_targets(first),
        distinct_targets(second),
        same_inserts(first, second),
        insert_all(s, first) is Some,
        insert_all(s, second) is Some,
    ensures
        delete_error(insert_all(s, first).unwrap(), path, key) == delete_error(
            insert_all(s, second).unwrap(),
            path,
            key,
        ),
        delete_error(insert_all(s, first).unwrap(), path, key) is None ==> delete_spec(
            insert_all(s, first).unwrap(),
            path,
            key,
        ).main == delete_spec(insert_all(s, second).unwrap(), path, key).main && subtree_root(
            delete_spec(insert_all(s, first).unwrap(), path, key),
            top_prefix(),
        ) == subtree_root(delete_spec(insert_all(s, second).unwrap(), path, key), top_prefix()),
{
    lemma_insert_order(s, first, second, universe, depth);
    lemma_insert_all(s, first, universe);
    lemma_insert_all(s, second, universe);
    lemma_held_insert_all(s, first);
    lemma_delete_decided(
        insert_all(s, first).unwrap(),
        insert_all(s, second).unwrap(),
        path,
        key,
        universe,
        depth,
    );
}

/// Hash consistency holds after any run of inserts and deletes on a grove
/// of which it holds: every tree that a path leads to holds the root hash
/// of its subtree. Of the grove no more is asked than that; the universe
/// holds the paths in use, no two of them with the same prefix.
pub proof fn lemma_hashes_always(
    s: StorageView,
    operations: Seq<Operation>,
    universe: Set<PathView>,
)
    requires
        hash_invariant(s, universe),
        held(s.main),
        forall|i: int|
            0 <= i < operations.len() ==> admissible_operation(#[trigger] operations[i], universe),
    ensures
        hash_invariant(apply_all(s, operations), universe),
        held(apply_all(s, operations).main),
    decreases operations.len(),
{
    if operations.len() > 0 {
        let rest = operations.drop_last();
        let last = operations.last();
        assert forall|i: int| 0 <= i < rest.len() implies admissible_operation(
            #[trigger] rest[i],
            universe,
        ) by {
            assert(rest[i] == operations[i]);
        }
        lemma_hashes_always(s, rest, universe);
        let before = apply_all(s, rest);
        assert(admissible_operation(operations[operations.len() - 1], universe));
        match last {
            Operation::Insert(insert) => {
                if insert_error(before, insert.path, insert.key) is None {
                    lemma_insert_keeps_hashes(
                        before,
                        insert.path,
                        insert.key,
                        insert.element,
                        universe,
                    );
                    lemma_held_insert_spec(before, insert.path, insert.key, insert.element);
                }
            },
            Operation::Delete(path, key) => {
                if delete_error(before, path, key) is None {
                    lemma_delete_keeps_hashes(before, path, key, universe);
                    lemma_held_delete_spec(before, path, key);
                }
            },
        }
    }
}

} // verus!
