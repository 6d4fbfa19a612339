//! The traversal of a grove that meets the invariant always succeeds: no
//! subtree is visited twice, each but the first by way of its own tree
//! entry, so the visits stay within the limit.
use vstd::prelude::*;
use vstd::seq_lib::lemma_no_dup_in_concat;
use vstd::set_lib::lemma_len_subset;
use crate::bytes::lex_lt;
use crate::consistency::{
    all_decodable, grove_invariant, lemma_below_is_live, lemma_flat_key, lemma_live_parent,
    lemma_live_push,
};
use crate::context::stored;
use crate::element::decode_element;
use crate::error::Error;
use crate::keyspace::{
    canonical_entries, has_key, held, index_of_key, lemma_held_subtree, lemma_sorted_lookup, sorted,
    subtree_map, Pairs,
};
use crate::laws::{is_below, lemma_below_push, lemma_children, lemma_contains_both, lemma_tree_keys};
use crate::model::{
    children, delete_error, doomed, find_subtrees_error, find_subtrees_spec, get_raw_spec,
    is_subtree, is_tree_bytes, stored_at, tree_keys, visit_limit, walk,
};
use crate::path::{prefix_of, PathView};
use crate::storage::StorageView;

verus! {

/// The stored key of the tree that names the subtree at `q`; nothing for
/// the subtree at `root`, where the traversal starts.
pub open spec fn entry_of(root: PathView, q: PathView) -> Option<Seq<u8>> {
    if q == root || q.len() == 0 {
        None
    } else {
        Some(prefix_of(q.drop_last()) + q.last())
    }
}

/// Entries that all decode have tree keys.
pub proof fn lemma_tree_keys_some(entries: Pairs)
    requires
        forall|i: int| 0 <= i < entries.len() ==> decode_element((#[trigger] entries[i]).1) is Some,
    ensures
        tree_keys(entries) is Some,
    decreases entries.len(),
{
    if entries.len() > 0 {
        let rest = entries.drop_last();
        assert forall|i: int| 0 <= i < rest.len() implies decode_element((#[trigger] rest[i]).1)
            is Some by {
            assert(rest[i] == entries[i]);
        }
        lemma_tree_keys_some(rest);
        assert(entries[entries.len() - 1] == entries.last());
    }
}

/// The tree keys of sorted entries strictly increase.
pub proof fn lemma_tree_keys_increase(entries: Pairs)
    requires
        sorted(entries),
        tree_keys(entries) is Some,
    ensures
        forall|i: int, j: int|
            #![trigger tree_keys(entries).unwrap()[i], tree_keys(entries).unwrap()[j]]
            0 <= i < j < tree_keys(entries).unwrap().len() ==> lex_lt(
                tree_keys(entries).unwrap()[i],
                tree_keys(entries).unwrap()[j],
            ),
    decreases entries.len(),
{
    if entries.len() > 0 {
        let rest = entries.drop_last();
        let keys = tree_keys(entries).unwrap();
        let rest_keys = tree_keys(rest).unwrap();
        assert(sorted(rest)) by {
            assert forall|i: int, j: int| 0 <= i < j < rest.len() implies lex_lt(
                rest[i].0,
                rest[j].0,
            ) by {
                assert(rest[i] == entries[i] && rest[j] == entries[j]);
            }
        }
        lemma_tree_keys_increase(rest);
        lemma_tree_keys(rest);
        assert forall|i: int, j: int|
            #![trigger keys[i], keys[j]]
            0 <= i < j < keys.len() implies lex_lt(keys[i], keys[j]) by {
            if j < rest_keys.len() {
                assert(keys[i] == rest_keys[i] && keys[j] == rest_keys[j]);
            } else {
                assert(keys[i] == rest_keys[i]);
                assert(rest_keys.contains(rest_keys[i]));
                let at = choose|at: int|
                    0 <= at < rest.len() && (#[trigger] rest[at]).0 == rest_keys[i]
                        && is_tree_bytes(Some(rest[at].1));
                assert(rest[at] == entries[at]);
                assert(lex_lt(entries[at].0, entries[entries.len() - 1].0));
            }
        }
    }
}

/// In a grove whose values all decode, every subtree has its children, and
/// no child comes twice.
pub proof fn lemma_children_exist(s: StorageView, p: PathView)
    requires
        held(s.main),
        all_decodable(s),
    ensures
        children(s, p) is Some,
        children(s, p).unwrap().no_duplicates(),
{
    let prefix = prefix_of(p);
    let m = subtree_map(s.main, prefix);
    let entries = canonical_entries(m);
    lemma_held_subtree(s.main, prefix);
    assert forall|i: int| 0 <= i < entries.len() implies decode_element((#[trigger] entries[i]).1)
        is Some by {
        lemma_sorted_lookup(entries, i);
        assert(m.contains_key(entries[i].0));
        assert(s.main.contains_key(prefix + entries[i].0));
    }
    lemma_tree_keys_some(entries);
    lemma_tree_keys_increase(entries);
    let keys = tree_keys(entries).unwrap();
    let below = children(s, p).unwrap();
    assert forall|i: int, j: int| 0 <= i < below.len() && 0 <= j < below.len() && i != j implies below[i]
        != below[j] by {
        if i < j {
            assert(lex_lt(keys[i], keys[j]));
            crate::bytes::lemma_lex_asymmetric(keys[i], keys[j]);
        } else {
            assert(lex_lt(keys[j], keys[i]));
            crate::bytes::lemma_lex_asymmetric(keys[j], keys[i]);
        }
        assert(below[i].last() == keys[i]);
        assert(below[j].last() == keys[j]);
    }
}

/// Distinct subtrees below `root` are at most one more than the *main*
/// space has entries: each but the one at `root` has a tree entry of its own.
pub proof fn lemma_found_bound(
    s: StorageView,
    root: PathView,
    found: Seq<PathView>,
    universe: Set<PathView>,
)
    requires
        grove_invariant(s, universe),
        held(s.main),
        is_subtree(s, root),
        found.no_duplicates(),
        forall|q: PathView| #[trigger] found.contains(q) ==> is_below(s, root, q),
    ensures
        found.len() < visit_limit(s) + 1,
{
    let entries = canonical_entries(s.main);
    let n = entries.len();
    let marks = Seq::new(found.len(), |i: int| entry_of(root, found[i]));
    let all = Seq::new(n, |i: int| Some(entries[i].0)).push(None);
    assert forall|i: int| 0 <= i < found.len() implies is_subtree(s, #[trigger] found[i])
        && is_below(s, root, found[i]) by {
        assert(found.contains(found[i]));
        lemma_below_is_live(s, root, found[i]);
    }
    assert forall|i: int, j: int|
        0 <= i < marks.len() && 0 <= j < marks.len() && i != j implies marks[i] != marks[j] by {
        let a = found[i];
        let b = found[j];
        assert(is_subtree(s, a) && is_subtree(s, b));
        if marks[i] == marks[j] {
            if marks[i] is None {
                if a.len() == 0 {
                    assert(a =~= root);
                }
                if b.len() == 0 {
                    assert(b =~= root);
                }
                assert(a == root && b == root);
            } else {
                lemma_live_parent(s, a);
                lemma_live_parent(s, b);
                lemma_flat_key(universe, a.drop_last(), a.last(), b.drop_last(), b.last());
                assert(a == b);
            }
            assert(false);
        }
    }
    assert(marks.no_duplicates());
    assert forall|mark: Option<Seq<u8>>| marks.to_set().contains(mark) implies all.to_set().contains(
        mark,
    ) by {
        let i = choose|i: int| 0 <= i < marks.len() && marks[i] == mark;
        let a = found[i];
        assert(is_subtree(s, a));
        match mark {
            None => {
                assert(all[n as int] == mark);
            },
            Some(stored_key) => {
                lemma_live_parent(s, a);
                assert(stored_at(s, a.drop_last(), a.last()) == stored(s.main, stored_key));
                assert(s.main.contains_key(stored_key));
                assert(has_key(entries, stored_key));
                let at = index_of_key(entries, stored_key);
                assert(all[at] == mark);
            },
        }
    }
    marks.unique_seq_to_set();
    all.lemma_cardinality_of_set();
    vstd::seq_lib::seq_to_set_is_finite(all);
    lemma_len_subset(marks.to_set(), all.to_set());
}

/// What the traversal keeps as it goes: nothing is found twice or waits
/// twice, what waits is found, what is found lies below `root`, and what is
/// found beside `root` was found in a subtree that waits no more.
pub open spec fn walk_invariant(
    s: StorageView,
    root: PathView,
    queue: Seq<PathView>,
    found: Seq<PathView>,
) -> bool {
    &&& found.no_duplicates()
    &&& queue.no_duplicates()
    &&& forall|q: PathView| #[trigger] queue.contains(q) ==> found.contains(q)
    &&& forall|q: PathView| #[trigger] found.contains(q) ==> is_below(s, root, q)
    &&& forall|q: PathView|
        #[trigger] found.contains(q) && q != root ==> q.len() > 0 && found.contains(q.drop_last())
            && !queue.contains(q.drop_last())
}

/// With enough fuel for the subtrees not yet found, the traversal succeeds.
proof fn lemma_walk_succeeds(
    s: StorageView,
    root: PathView,
    queue: Seq<PathView>,
    found: Seq<PathView>,
    fuel: nat,
    universe: Set<PathView>,
)
    requires
        grove_invariant(s, universe),
        held(s.main),
        is_subtree(s, root),
        walk_invariant(s, root, queue, found),
        fuel + found.len() >= queue.len() + visit_limit(s),
    ensures
        walk(s, queue, found, fuel) is Some,
        walk(s, queue, found, fuel).unwrap().no_duplicates(),
    decreases fuel,
{
    if queue.len() > 0 {
        lemma_found_bound(s, root, found, universe);
        let current = queue.last();
        let rest = queue.drop_last();
        assert(queue[queue.len() - 1] == current);
        assert(queue.contains(current));
        assert(found.contains(current));
        lemma_children_exist(s, current);
        let below = children(s, current).unwrap();
        let next_queue = rest + below;
        let next_found = found + below;
        // a child of the visited subtree was not found before
        assert forall|i: int, j: int| 0 <= i < found.len() && 0 <= j < below.len() implies found[i]
            != below[j] by {
            if found[i] == below[j] {
                let child = below[j];
                assert(below.contains(child));
                assert(found.contains(child));
                lemma_children(s, current, child);
                let k = choose|k: Seq<u8>|
                    #![trigger stored_at(s, current, k)]
                    child == current.push(k) && is_tree_bytes(stored_at(s, current, k));
                assert(child.drop_last() =~= current);
                assert(is_below(s, root, current));
                assert(child != root);
            }
        }
        assert(rest.no_duplicates()) by {
            assert forall|i: int, j: int|
                0 <= i < rest.len() && 0 <= j < rest.len() && i != j implies rest[i] != rest[j] by {
                assert(rest[i] == queue[i] && rest[j] == queue[j]);
            }
        }
        assert forall|q: PathView| rest.contains(q) implies queue.contains(q) && q != current by {
            let i = choose|i: int| 0 <= i < rest.len() && rest[i] == q;
            assert(queue[i] == q);
        }
        assert forall|i: int, j: int| 0 <= i < rest.len() && 0 <= j < below.len() implies rest[i]
            != below[j] by {
            assert(rest.contains(rest[i]));
            assert(found.contains(rest[i]));
            let at = choose|at: int| 0 <= at < found.len() && found[at] == rest[i];
            assert(found[at] != below[j]);
        }
        lemma_no_dup_in_concat(found, below);
        lemma_no_dup_in_concat(rest, below);
        assert forall|q: PathView| #[trigger] next_queue.contains(q) implies next_found.contains(
            q,
        ) by {
            lemma_contains_both(rest, below, q);
            lemma_contains_both(found, below, q);
        }
        assert forall|q: PathView| #[trigger] next_found.contains(q) implies is_below(
            s,
            root,
            q,
        ) by {
            lemma_contains_both(found, below, q);
            if !found.contains(q) {
                lemma_children(s, current, q);
                let k = choose|k: Seq<u8>|
                    #![trigger stored_at(s, current, k)]
                    q == current.push(k) && is_tree_bytes(stored_at(s, current, k));
                lemma_below_push(s, root, current, k);
            }
        }
        assert forall|q: PathView| #[trigger] next_found.contains(q) && q != root implies q.len()
            > 0 && next_found.contains(q.drop_last()) && !next_queue.contains(q.drop_last()) by {
            lemma_contains_both(found, below, q);
            let parent = q.drop_last();
            lemma_contains_both(found, below, parent);
            lemma_contains_both(rest, below, parent);
            if found.contains(q) {
                assert(found.contains(parent) && !queue.contains(parent));
                if below.contains(parent) {
                    let i = choose|i: int| 0 <= i < found.len() && found[i] == parent;
                    let j = choose|j: int| 0 <= j < below.len() && below[j] == parent;
                    assert(found[i] != below[j]);
                }
            } else {
                lemma_children(s, current, q);
                let k = choose|k: Seq<u8>|
                    #![trigger stored_at(s, current, k)]
                    q == current.push(k) && is_tree_bytes(stored_at(s, current, k));
                assert(parent =~= current);
                if below.contains(current) {
                    let i = choose|i: int| 0 <= i < found.len() && found[i] == current;
                    let j = choose|j: int| 0 <= j < below.len() && below[j] == current;
                    assert(found[i] != below[j]);
                }
            }
        }
        lemma_walk_succeeds(s, root, next_queue, next_found, (fuel - 1) as nat, universe);
    }
}

/// In a grove that meets the invariant the traversal from a subtree that a
/// path leads to succeeds, and lists no subtree twice.
pub proof fn lemma_find_subtrees_succeeds(s: StorageView, root: PathView, universe: Set<PathView>)
    requires
        grove_invariant(s, universe),
        held(s.main),
        is_subtree(s, root),
    ensures
        find_subtrees_spec(s, root) is Some,
        find_subtrees_spec(s, root).unwrap().no_duplicates(),
        find_subtrees_error(s, root) is None,
{
    let start = seq![root];
    assert(start[0] == root);
    assert(root.subrange(0, root.len() as int) =~= root);
    assert forall|q: PathView| #[trigger] start.contains(q) implies q == root by {
        let i = choose|i: int| 0 <= i < start.len() && start[i] == q;
    }
    lemma_walk_succeeds(s, root, start, start, visit_limit(s), universe);
}

/// In a grove that meets the invariant a delete fails only where the read
/// of the entry fails, or for an entry of the top-level subtree.
pub proof fn lemma_delete_succeeds(
    s: StorageView,
    path: PathView,
    key: Seq<u8>,
    universe: Set<PathView>,
)
    requires
        grove_invariant(s, universe),
        held(s.main),
    ensures
        delete_error(s, path, key) == match get_raw_spec(s, path, key) {
            Err(error) => Some(error),
            Ok(_) => if path.len() == 0 {
                Some(Error::InvalidPath)
            } else {
                None
            },
        },
{
    if get_raw_spec(s, path, key) is Ok && path.len() > 0 {
        if is_tree_bytes(stored_at(s, path, key)) {
            lemma_live_push(s, path, key);
            lemma_find_subtrees_succeeds(s, path.push(key), universe);
        }
        assert(doomed(s, path, key) is Some);
    }
}

} // verus!
