//! Root determinism: what a grove holds decides its root hash, so inserts of
//! the same entries end in the same grove whatever their order.
use vstd::prelude::*;
use crate::bytes::has_prefix;
use crate::consistency::{
    cleared, consistent_at, grove_invariant, lemma_below_is_live, lemma_cleared_main,
    lemma_delete_item_step, lemma_delete_keeps_invariant, lemma_delete_tree_live,
    lemma_delete_tree_step, lemma_flat_key, lemma_insert_item_step, lemma_insert_keeps_invariant,
    lemma_insert_tree_live, lemma_insert_tree_step, lemma_live_parent, lemma_live_push,
    lemma_same_trees, lemma_tree_bytes, lemma_under_prefix, lemma_unused_prefix_empty,
};
use crate::context::stored;
use crate::element::{
    encode_element, lemma_decode_encode, lemma_encode_decode, valid_element, ElementView,
};
use crate::keyspace::{held, subtree_map};
use crate::laws::{is_below, lemma_find_subtrees_exact, lemma_one_prefix};
use crate::model::{
    delete_error, delete_spec, doomed, get_raw_spec, insert_error, insert_spec, is_subtree,
    is_tree_bytes, names_tree, propagate, stored_at, stored_form, top_prefix,
};
use crate::path::{prefix_of, PathView};
use crate::storage::StorageView;
use crate::subtree::{clear_subtree, put_in_subtree, subtree_root};

verus! {

/// What an entry says apart from a root hash: nothing where there is no
/// entry, a tree, or the stored bytes of another element.
pub enum Leaf {
    Absent,
    Tree,
    Bytes(Seq<u8>),
}

/// What the stored bytes `value` say apart from a root hash.
pub open spec fn leaf_of(value: Option<Seq<u8>>) -> Leaf {
    match value {
        None => Leaf::Absent,
        Some(bytes) => if is_tree_bytes(value) {
            Leaf::Tree
        } else {
            Leaf::Bytes(bytes)
        },
    }
}

/// What the entry under `k` in the subtree at `p` says apart from a root hash.
pub open spec fn leaf_at(s: StorageView, p: PathView, k: Seq<u8>) -> Leaf {
    leaf_of(stored_at(s, p, k))
}

/// Propagation changes root hashes only: every entry says afterwards what
/// it said before, and the same paths lead to subtrees.
pub proof fn lemma_propagate_keeps_leaves(s: StorageView, path: PathView)
    requires
        is_subtree(s, path),
    ensures
        forall|p: PathView, k: Seq<u8>|
            #![trigger stored_at(propagate(s, path), p, k)]
            leaf_at(propagate(s, path), p, k) == leaf_at(s, p, k),
        forall|q: PathView|
            #![trigger is_subtree(propagate(s, path), q)]
            is_subtree(propagate(s, path), q) == is_subtree(s, q),
    decreases path.len(),
{
    if path.len() > 0 {
        let parent = path.drop_last();
        let last = path.last();
        let pp = prefix_of(parent);
        let bytes = encode_element(ElementView::Tree(subtree_root(s, prefix_of(path))));
        let next = put_in_subtree(s, pp, last, bytes);
        lemma_tree_bytes(s, prefix_of(path));
        lemma_live_parent(s, path);
        assert(next.main == s.main.insert(pp + last, bytes));
        assert(stored_at(s, parent, last) == stored(s.main, pp + last));
        assert forall|p: PathView, k: Seq<u8>|
            #![trigger stored_at(next, p, k)]
            leaf_at(next, p, k) == leaf_at(s, p, k) by {
            if prefix_of(p) + k == pp + last {
                assert(stored_at(s, p, k) == stored_at(s, parent, last));
            }
        }
        assert forall|p: PathView, k: Seq<u8>|
            #![trigger stored_at(next, p, k)]
            is_tree_bytes(stored_at(next, p, k)) == is_tree_bytes(stored_at(s, p, k)) by {
            assert(leaf_at(next, p, k) == leaf_at(s, p, k));
        }
        assert forall|q: PathView| is_subtree(next, q) == is_subtree(s, q) by {
            lemma_same_trees(next, s, q);
        }
        lemma_propagate_keeps_leaves(next, parent);
        assert forall|p: PathView, k: Seq<u8>|
            #![trigger stored_at(propagate(s, path), p, k)]
            leaf_at(propagate(s, path), p, k) == leaf_at(s, p, k) by {
            assert(leaf_at(propagate(next, parent), p, k) == leaf_at(next, p, k));
            assert(leaf_at(next, p, k) == leaf_at(s, p, k));
        }
    }
}

/// What an insert changes: the entry under `key` in the subtree at `path`
/// says what was inserted, every other entry of a subtree in the universe
/// says what it said before; and a path leads to a subtree if it did
/// before, or to the subtree of an inserted tree.
pub proof fn lemma_insert_effect(
    s: StorageView,
    path: PathView,
    key: Seq<u8>,
    element: ElementView,
    universe: Set<PathView>,
)
    requires
        grove_invariant(s, universe),
        insert_error(s, path, key) is None,
        valid_element(element),
        element is Tree ==> universe.contains(path.push(key)),
    ensures
        forall|p: PathView, k: Seq<u8>|
            #![trigger stored_at(insert_spec(s, path, key, element), p, k)]
            universe.contains(p) ==> leaf_at(insert_spec(s, path, key, element), p, k) == if p
                == path && k == key {
                leaf_of(Some(encode_element(stored_form(element))))
            } else {
                leaf_at(s, p, k)
            },
        forall|q: PathView|
            #![trigger is_subtree(insert_spec(s, path, key, element), q)]
            is_subtree(insert_spec(s, path, key, element), q) == (is_subtree(s, q) || (element
                is Tree && q == path.push(key))),
{
    let pp = prefix_of(path);
    let after = insert_spec(s, path, key, element);
    let bytes = encode_element(stored_form(element));
    assert(universe.contains(path));
    match element {
        ElementView::Tree(_) => {
            let child = path.push(key);
            let fresh = clear_subtree(s, prefix_of(child));
            let next = put_in_subtree(fresh, pp, key, bytes);
            assert(child.drop_last() =~= path);
            if is_subtree(s, child) {
                lemma_live_parent(s, child);
            }
            lemma_unused_prefix_empty(s, universe, child);
            assert(fresh.main =~= s.main);
            assert(next.main == s.main.insert(pp + key, bytes));
            lemma_decode_encode(ElementView::Tree(None));
            lemma_insert_tree_step(s, next, path, key, universe);
            lemma_propagate_keeps_leaves(next, path);
            assert forall|q: PathView|
                is_subtree(after, q) == (is_subtree(s, q) || q == child) by {
                lemma_insert_tree_live(s, next, path, key, bytes, universe, q);
            }
            assert forall|p: PathView, k: Seq<u8>|
                #![trigger stored_at(after, p, k)]
                universe.contains(p) implies leaf_at(after, p, k) == if p == path && k == key {
                leaf_of(Some(bytes))
            } else {
                leaf_at(s, p, k)
            } by {
                assert(leaf_at(after, p, k) == leaf_at(next, p, k));
                if prefix_of(p) + k == pp + key {
                    lemma_flat_key(universe, p, k, path, key);
                }
            }
        },
        _ => {
            let next = put_in_subtree(s, pp, key, bytes);
            lemma_decode_encode(element);
            assert(next.main == s.main.insert(pp + key, bytes));
            lemma_insert_item_step(s, path, key, bytes, universe);
            lemma_propagate_keeps_leaves(next, path);
            assert forall|p: PathView, k: Seq<u8>|
                #![trigger stored_at(next, p, k)]
                is_tree_bytes(stored_at(next, p, k)) == is_tree_bytes(stored_at(s, p, k)) by {
                if prefix_of(p) + k == pp + key {
                    assert(stored_at(s, p, k) == stored_at(s, path, key));
                }
            }
            assert forall|q: PathView| is_subtree(after, q) == is_subtree(s, q) by {
                lemma_same_trees(next, s, q);
            }
            assert forall|p: PathView, k: Seq<u8>|
                #![trigger stored_at(after, p, k)]
                universe.contains(p) implies leaf_at(after, p, k) == if p == path && k == key {
                leaf_of(Some(bytes))
            } else {
                leaf_at(s, p, k)
            } by {
                assert(leaf_at(after, p, k) == leaf_at(next, p, k));
                if prefix_of(p) + k == pp + key {
                    lemma_flat_key(universe, p, k, path, key);
                }
            }
        },
    }
}

/// Two groves that meet the invariant, with the same subtrees and entries
/// that say the same, hold the same entries in every subtree at depth `n`
/// or below.
proof fn lemma_equal_from(
    a: StorageView,
    b: StorageView,
    universe: Set<PathView>,
    depth: nat,
    n: nat,
    p: PathView,
)
    requires
        grove_invariant(a, universe),
        grove_invariant(b, universe),
        forall|q: PathView| #[trigger] universe.contains(q) ==> q.len() <= depth,
        forall|q: PathView| is_subtree(a, q) == is_subtree(b, q),
        forall|q: PathView, k: Seq<u8>|
            #![trigger stored_at(a, q, k)]
            universe.contains(q) ==> leaf_at(a, q, k) == leaf_at(b, q, k),
        is_subtree(a, p),
        p.len() >= n,
    ensures
        subtree_map(a.main, prefix_of(p)) == subtree_map(b.main, prefix_of(p)),
    decreases depth + 1 - n,
{
    assert(universe.contains(p));
    if p.len() > n {
        lemma_equal_from(a, b, universe, depth, n + 1, p);
    } else {
        let pp = prefix_of(p);
        assert forall|k: Seq<u8>| stored(a.main, pp + k) == stored(b.main, pp + k) by {
            assert(leaf_at(a, p, k) == leaf_at(b, p, k));
            assert(stored_at(a, p, k) == stored(a.main, pp + k));
            assert(stored_at(b, p, k) == stored(b.main, pp + k));
            if is_tree_bytes(stored_at(a, p, k)) {
                let child = p.push(k);
                lemma_live_push(a, p, k);
                assert(is_subtree(b, p));
                lemma_equal_from(a, b, universe, depth, n + 1, child);
                assert(consistent_at(a, p, k));
                assert(consistent_at(b, p, k));
                lemma_encode_decode(stored_at(a, p, k).unwrap());
                lemma_encode_decode(stored_at(b, p, k).unwrap());
            }
        }
        assert(subtree_map(a.main, pp) =~= subtree_map(b.main, pp));
    }
}

/// What a grove holds decides it: two groves that meet the invariant, with
/// the same subtrees and entries that say the same, have the same *main*
/// space, and so the same root hash.
pub proof fn lemma_content_decides(
    a: StorageView,
    b: StorageView,
    universe: Set<PathView>,
    depth: nat,
)
    requires
        grove_invariant(a, universe),
        grove_invariant(b, universe),
        forall|q: PathView| #[trigger] universe.contains(q) ==> q.len() <= depth,
        forall|q: PathView| is_subtree(a, q) == is_subtree(b, q),
        forall|q: PathView, k: Seq<u8>|
            #![trigger stored_at(a, q, k)]
            universe.contains(q) ==> leaf_at(a, q, k) == leaf_at(b, q, k),
    ensures
        a.main == b.main,
        subtree_root(a, top_prefix()) == subtree_root(b, top_prefix()),
{
    assert forall|stored_key: Seq<u8>| stored(a.main, stored_key) == stored(b.main, stored_key) by {
        if a.main.contains_key(stored_key) {
            let q = choose|q: PathView|
                is_subtree(a, q) && has_prefix(stored_key, #[trigger] prefix_of(q));
            lemma_equal_from(a, b, universe, depth, 0, q);
            let k = stored_key.subrange(prefix_of(q).len() as int, stored_key.len() as int);
            assert(stored_key =~= prefix_of(q) + k);
            assert(subtree_map(a.main, prefix_of(q)).contains_key(k) == subtree_map(
                b.main,
                prefix_of(q),
            ).contains_key(k));
            assert(subtree_map(a.main, prefix_of(q))[k] == subtree_map(b.main, prefix_of(q))[k]);
        }
        if b.main.contains_key(stored_key) {
            let q = choose|q: PathView|
                is_subtree(b, q) && has_prefix(stored_key, #[trigger] prefix_of(q));
            assert(is_subtree(a, q));
            lemma_equal_from(a, b, universe, depth, 0, q);
            let k = stored_key.subrange(prefix_of(q).len() as int, stored_key.len() as int);
            assert(stored_key =~= prefix_of(q) + k);
            assert(subtree_map(a.main, prefix_of(q)).contains_key(k) == subtree_map(
                b.main,
                prefix_of(q),
            ).contains_key(k));
            assert(subtree_map(a.main, prefix_of(q))[k] == subtree_map(b.main, prefix_of(q))[k]);
        }
    }
    assert forall|stored_key: Seq<u8>| #[trigger]
        a.main.contains_key(stored_key) == b.main.contains_key(stored_key) by {
        assert(stored(a.main, stored_key) == stored(b.main, stored_key));
    }
    assert forall|stored_key: Seq<u8>| #[trigger]
        a.main.contains_key(stored_key) implies a.main[stored_key] == b.main[stored_key] by {
        assert(stored(a.main, stored_key) == stored(b.main, stored_key));
    }
    assert(a.main =~= b.main);
}

/// One insert: the element to put under a key of the subtree at a path.
pub struct Insert {
    pub path: PathView,
    pub key: Seq<u8>,
    pub element: ElementView,
}

/// The state after the inserts are made one after the other, if all succeed.
pub open spec fn insert_all(s: StorageView, inserts: Seq<Insert>) -> Option<StorageView>
    decreases inserts.len(),
{
    if inserts.len() == 0 {
        Some(s)
    } else {
        let last = inserts.last();
        match insert_all(s, inserts.drop_last()) {
            Some(before) => if insert_error(before, last.path, last.key) is None {
                Some(insert_spec(before, last.path, last.key, last.element))
            } else {
                None
            },
            None => None,
        }
    }
}

/// Every element of `inserts` can be stored, and the path of every
/// inserted tree's subtree is in the universe.
pub open spec fn admissible(inserts: Seq<Insert>, universe: Set<PathView>) -> bool {
    forall|i: int|
        0 <= i < inserts.len() ==> valid_element((#[trigger] inserts[i]).element) && (
        inserts[i].element is Tree ==> universe.contains(inserts[i].path.push(inserts[i].key)))
}

/// No two of `inserts` go to the same key of the same subtree.
pub open spec fn distinct_targets(inserts: Seq<Insert>) -> bool {
    forall|i: int, j: int|
        #![trigger inserts[i], inserts[j]]
        0 <= i < j < inserts.len() ==> !(inserts[i].path == inserts[j].path && inserts[i].key
            == inserts[j].key)
}

/// Insert `i` of `inserts` goes to the key `k` of the subtree at `p`.
pub open spec fn targets(inserts: Seq<Insert>, i: int, p: PathView, k: Seq<u8>) -> bool {
    0 <= i < inserts.len() && inserts[i].path == p && inserts[i].key == k
}

/// Insert `i` of `inserts` starts the subtree at `q`.
pub open spec fn starts(inserts: Seq<Insert>, i: int, q: PathView) -> bool {
    0 <= i < inserts.len() && inserts[i].element is Tree && q == inserts[i].path.push(
        inserts[i].key,
    )
}

/// What the entry under `k` in the subtree at `p` says after `inserts`:
/// what was inserted there, else what it said in `s`.
pub open spec fn written(s: StorageView, inserts: Seq<Insert>, p: PathView, k: Seq<u8>) -> Leaf {
    if exists|i: int| targets(inserts, i, p, k) {
        let i = choose|i: int| targets(inserts, i, p, k);
        leaf_of(Some(encode_element(stored_form(inserts[i].element))))
    } else {
        leaf_at(s, p, k)
    }
}

/// What a run of inserts with distinct targets leaves: the invariant holds,
/// a path leads to a subtree if it did before or an inserted tree started
/// it, and every entry says what was inserted there, or what it said before.
pub proof fn lemma_insert_all(s: StorageView, inserts: Seq<Insert>, universe: Set<PathView>)
    requires
        grove_invariant(s, universe),
        admissible(inserts, universe),
        distinct_targets(inserts),
        insert_all(s, inserts) is Some,
    ensures
        grove_invariant(insert_all(s, inserts).unwrap(), universe),
        forall|q: PathView|
            #![trigger is_subtree(insert_all(s, inserts).unwrap(), q)]
            is_subtree(insert_all(s, inserts).unwrap(), q) == (is_subtree(s, q) || exists|i: int|
                starts(inserts, i, q)),
        forall|p: PathView, k: Seq<u8>|
            #![trigger stored_at(insert_all(s, inserts).unwrap(), p, k)]
            universe.contains(p) ==> leaf_at(insert_all(s, inserts).unwrap(), p, k) == written(
                s,
                inserts,
                p,
                k,
            ),
    decreases inserts.len(),
{
    let after = insert_all(s, inserts).unwrap();
    if inserts.len() == 0 {
    } else {
        let rest = inserts.drop_last();
        let last = inserts.last();
        let n = inserts.len() - 1;
        let before = insert_all(s, rest).unwrap();
        assert(inserts[n] == last);
        assert forall|i: int| 0 <= i < rest.len() implies rest[i] == inserts[i] by {}
        assert(admissible(rest, universe)) by {
            assert forall|i: int| 0 <= i < rest.len() implies valid_element(
                (#[trigger] rest[i]).element,
            ) && (rest[i].element is Tree ==> universe.contains(
                rest[i].path.push(rest[i].key),
            )) by {
                assert(rest[i] == inserts[i]);
            }
        }
        assert(distinct_targets(rest)) by {
            assert forall|i: int, j: int|
                #![trigger rest[i], rest[j]]
                0 <= i < j < rest.len() implies !(rest[i].path == rest[j].path && rest[i].key
                == rest[j].key) by {
                assert(rest[i] == inserts[i] && rest[j] == inserts[j]);
            }
        }
        lemma_insert_all(s, rest, universe);
        lemma_insert_keeps_invariant(before, last.path, last.key, last.element, universe);
        lemma_insert_effect(before, last.path, last.key, last.element, universe);
        assert forall|q: PathView|
            is_subtree(after, q) == (is_subtree(s, q) || exists|i: int|
                starts(inserts, i, q)) by {
            assert(is_subtree(after, q) == (is_subtree(before, q) || (last.element is Tree && q
                == last.path.push(last.key))));
            assert(is_subtree(before, q) == (is_subtree(s, q) || exists|i: int|
                starts(rest, i, q)));
            if exists|i: int| starts(rest, i, q) {
                let i = choose|i: int| starts(rest, i, q);
                assert(starts(inserts, i, q));
            }
            if last.element is Tree && q == last.path.push(last.key) {
                assert(starts(inserts, n, q));
            }
            if exists|i: int| starts(inserts, i, q) {
                let i = choose|i: int| starts(inserts, i, q);
                if i < n {
                    assert(starts(rest, i, q));
                }
            }
        }
        assert forall|p: PathView, k: Seq<u8>|
            #![trigger stored_at(after, p, k)]
            universe.contains(p) implies leaf_at(after, p, k) == written(s, inserts, p, k) by {
            assert(leaf_at(before, p, k) == written(s, rest, p, k));
            if p == last.path && k == last.key {
                assert(targets(inserts, n, p, k));
                let i = choose|i: int| targets(inserts, i, p, k);
                if i < n {
                    assert(!(inserts[i].path == inserts[n].path && inserts[i].key
                        == inserts[n].key));
                }
                assert(i == n);
            } else {
                if exists|i: int| targets(rest, i, p, k) {
                    let j = choose|i: int| targets(rest, i, p, k);
                    assert(targets(inserts, j, p, k));
                    let i = choose|i: int| targets(inserts, i, p, k);
                    if i < j {
                        assert(!(inserts[i].path == inserts[j].path && inserts[i].key
                            == inserts[j].key));
                    }
                    if j < i {
                        assert(!(inserts[j].path == inserts[i].path && inserts[j].key
                            == inserts[i].key));
                    }
                    assert(i == j);
                } else {
                    if exists|i: int| targets(inserts, i, p, k) {
                        let i = choose|i: int| targets(inserts, i, p, k);
                        assert(targets(rest, i, p, k));
                    }
                }
            }
        }
    }
}

/// `a` and `b` hold the same inserts.
pub open spec fn same_inserts(a: Seq<Insert>, b: Seq<Insert>) -> bool {
    &&& forall|i: int| 0 <= i < a.len() ==> b.contains(#[trigger] a[i])
    &&& forall|j: int| 0 <= j < b.len() ==> a.contains(#[trigger] b[j])
}

/// With distinct targets, what is written does not depend on the order.
proof fn lemma_written_any_order(
    s: StorageView,
    first: Seq<Insert>,
    second: Seq<Insert>,
    p: PathView,
    k: Seq<u8>,
)
    requires
        distinct_targets(first),
        distinct_targets(second),
        forall|i: int| 0 <= i < first.len() ==> second.contains(#[trigger] first[i]),
    ensures
        (exists|i: int| targets(first, i, p, k)) ==> (exists|j: int| targets(second, j, p, k))
            && written(s, first, p, k) == written(s, second, p, k),
{
    if exists|i: int| targets(first, i, p, k) {
        let i = choose|i: int| targets(first, i, p, k);
        assert(second.contains(first[i]));
        let j = choose|j: int| 0 <= j < second.len() && second[j] == first[i];
        assert(targets(second, j, p, k));
        let chosen = choose|j: int| targets(second, j, p, k);
        if chosen < j {
            assert(!(second[chosen].path == second[j].path && second[chosen].key
                == second[j].key));
        }
        if j < chosen {
            assert(!(second[j].path == second[chosen].path && second[j].key
                == second[chosen].key));
        }
        assert(chosen == j);
    }
}

/// Root determinism. Inserts of the same entries, each key of each subtree
/// written once, end in the same *main* space and so in the same top-level
/// root hash, in whatever order they are made, as long as both orders
/// succeed. The universe holds the paths in use, none longer than `depth`
/// and no two with the same prefix.
pub proof fn lemma_insert_order(
    s: StorageView,
    first: Seq<Insert>,
    second: Seq<Insert>,
    universe: Set<PathView>,
    depth: nat,
)
    requires
        grove_invariant(s, universe),
        forall|q: PathView| #[trigger] universe.contains(q) ==> q.len() <= depth,
        admissible(first, universe),
        admissible(second, universe),
        distinct_targets(first),
        distinct_targets(second),
        same_inserts(first, second),
        insert_all(s, first) is Some,
        insert_all(s, second) is Some,
    ensures
        insert_all(s, first).unwrap().main == insert_all(s, second).unwrap().main,
        subtree_root(insert_all(s, first).unwrap(), top_prefix()) == subtree_root(
            insert_all(s, second).unwrap(),
            top_prefix(),
        ),
{
    let a = insert_all(s, first).unwrap();
    let b = insert_all(s, second).unwrap();
    lemma_insert_all(s, first, universe);
    lemma_insert_all(s, second, universe);
    assert forall|q: PathView| is_subtree(a, q) == is_subtree(b, q) by {
        assert(is_subtree(a, q) == (is_subtree(s, q) || exists|i: int| starts(first, i, q)));
        assert(is_subtree(b, q) == (is_subtree(s, q) || exists|i: int| starts(second, i, q)));
        if exists|i: int| starts(first, i, q) {
            let i = choose|i: int| starts(first, i, q);
            assert(second.contains(first[i]));
            let j = choose|j: int| 0 <= j < second.len() && second[j] == first[i];
            assert(starts(second, j, q));
        }
        if exists|j: int| starts(second, j, q) {
            let j = choose|j: int| starts(second, j, q);
            assert(first.contains(second[j]));
            let i = choose|i: int| 0 <= i < first.len() && first[i] == second[j];
            assert(starts(first, i, q));
        }
    }
    assert forall|q: PathView, k: Seq<u8>|
        #![trigger stored_at(a, q, k)]
        universe.contains(q) implies leaf_at(a, q, k) == leaf_at(b, q, k) by {
        assert(leaf_at(a, q, k) == written(s, first, q, k));
        assert(leaf_at(b, q, k) == written(s, second, q, k));
        lemma_written_any_order(s, first, second, q, k);
        lemma_written_any_order(s, second, first, q, k);
    }
    lemma_content_decides(a, b, universe, depth);
}

/// What a delete changes: the deleted entry is gone, every other entry of
/// a subtree that is still there says what it said before; and a path leads
/// to a subtree if it did before and the subtree was not deleted.
pub proof fn lemma_delete_effect(
    s: StorageView,
    path: PathView,
    key: Seq<u8>,
    universe: Set<PathView>,
)
    requires
        grove_invariant(s, universe),
        held(s.main),
        delete_error(s, path, key) is None,
    ensures
        forall|q: PathView|
            #![trigger is_subtree(delete_spec(s, path, key), q)]
            is_subtree(delete_spec(s, path, key), q) == (is_subtree(s, q) && !(is_tree_bytes(
                stored_at(s, path, key),
            ) && is_below(s, path.push(key), q))),
        forall|p: PathView, k: Seq<u8>|
            #![trigger stored_at(delete_spec(s, path, key), p, k)]
            universe.contains(p) && is_subtree(delete_spec(s, path, key), p) ==> leaf_at(
                delete_spec(s, path, key),
                p,
                k,
            ) == if p == path && k == key {
                Leaf::Absent
            } else {
                leaf_at(s, p, k)
            },
{
    let after = delete_spec(s, path, key);
    let below = doomed(s, path, key).unwrap();
    let next = cleared(s, path, key, below);
    let child = path.push(key);
    let tree = is_tree_bytes(stored_at(s, path, key));
    assert(universe.contains(path));
    if tree {
        assert forall|d: PathView| below.contains(d) <==> is_below(s, child, d) by {
            lemma_find_subtrees_exact(s, child, d);
        }
        lemma_delete_tree_step(s, path, key, below, universe);
        assert forall|q: PathView|
            is_subtree(next, q) == (is_subtree(s, q) && !is_below(s, child, q)) by {
            lemma_delete_tree_live(s, path, key, below, universe, q);
        }
        lemma_live_push(s, path, key);
    } else {
        assert(below =~= Seq::<PathView>::empty());
        lemma_delete_item_step(s, path, key, universe);
        assert forall|p: PathView, k: Seq<u8>|
            #![trigger stored_at(next, p, k)]
            is_tree_bytes(stored_at(next, p, k)) == is_tree_bytes(stored_at(s, p, k)) by {
            lemma_cleared_main(s, path, key, below, prefix_of(p) + k);
            if prefix_of(p) + k == prefix_of(path) + key {
                assert(stored_at(s, p, k) == stored_at(s, path, key));
            }
        }
        assert forall|q: PathView| is_subtree(next, q) == is_subtree(s, q) by {
            lemma_same_trees(next, s, q);
        }
    }
    lemma_propagate_keeps_leaves(next, path);
    assert forall|q: PathView|
        #![trigger is_subtree(after, q)]
        is_subtree(after, q) == (is_subtree(s, q) && !(tree && is_below(s, child, q))) by {
        assert(is_subtree(after, q) == is_subtree(next, q));
    }
    assert forall|p: PathView, k: Seq<u8>|
        #![trigger stored_at(after, p, k)]
        universe.contains(p) && is_subtree(after, p) implies leaf_at(after, p, k) == if p == path
        && k == key {
        Leaf::Absent
    } else {
        leaf_at(s, p, k)
    } by {
        let stored_key = prefix_of(p) + k;
        assert(leaf_at(after, p, k) == leaf_at(next, p, k));
        assert(is_subtree(next, p));
        lemma_cleared_main(s, path, key, below, stored_key);
        if stored_key == prefix_of(path) + key {
            lemma_flat_key(universe, p, k, path, key);
        }
        if exists|j: int|
            0 <= j < below.len() && has_prefix(stored_key, prefix_of(#[trigger] below[j])) {
            let j = choose|j: int|
                0 <= j < below.len() && has_prefix(stored_key, prefix_of(#[trigger] below[j]));
            let d = below[j];
            assert(below.contains(d));
            lemma_below_is_live(s, child, d);
            assert(universe.contains(d));
            lemma_under_prefix(prefix_of(p), k);
            lemma_one_prefix(stored_key, p, d);
            assert(p == d);
        }
    }
}

/// Two groves with the same *main* space have the same subtrees below a path.
pub proof fn lemma_same_below(a: StorageView, b: StorageView, root: PathView, q: PathView)
    requires
        a.main == b.main,
    ensures
        is_below(a, root, q) == is_below(b, root, q),
        is_subtree(a, q) == is_subtree(b, q),
{
    assert forall|i: int| 0 <= i < q.len() implies names_tree(a, q, i) == names_tree(b, q, i) by {}
    if is_below(a, root, q) {
        assert forall|i: int| root.len() <= i < q.len() implies #[trigger] names_tree(b, q, i) by {
            assert(names_tree(a, q, i));
        }
    }
    if is_below(b, root, q) {
        assert forall|i: int| root.len() <= i < q.len() implies #[trigger] names_tree(a, q, i) by {
            assert(names_tree(b, q, i));
        }
    }
    if is_subtree(a, q) {
        assert forall|i: int| 0 <= i < q.len() implies #[trigger] names_tree(b, q, i) by {
            assert(names_tree(a, q, i));
        }
    }
    if is_subtree(b, q) {
        assert forall|i: int| 0 <= i < q.len() implies #[trigger] names_tree(a, q, i) by {
            assert(names_tree(b, q, i));
        }
    }
}

/// What a grove holds decides a delete too: on two groves that meet the
/// invariant and have the same *main* space, the same delete fails or
/// succeeds alike, and where it succeeds it leaves the same *main* space and
/// the same top-level root hash.
pub proof fn lemma_delete_decided(
    a: StorageView,
    b: StorageView,
    path: PathView,
    key: Seq<u8>,
    universe: Set<PathView>,
    depth: nat,
)
    requires
        grove_invariant(a, universe),
        grove_invariant(b, universe),
        held(a.main),
        a.main == b.main,
        forall|q: PathView| #[trigger] universe.contains(q) ==> q.len() <= depth,
    ensures
        delete_error(a, path, key) == delete_error(b, path, key),
        delete_error(a, path, key) is None ==> delete_spec(a, path, key).main == delete_spec(
            b,
            path,
            key,
        ).main && subtree_root(delete_spec(a, path, key), top_prefix()) == subtree_root(
            delete_spec(b, path, key),
            top_prefix(),
        ),
{
    lemma_same_below(a, b, path, path);
    assert(stored_at(a, path, key) == stored_at(b, path, key));
    assert(get_raw_spec(a, path, key) == get_raw_spec(b, path, key));
    crate::reach::lemma_delete_succeeds(a, path, key, universe);
    crate::reach::lemma_delete_succeeds(b, path, key, universe);
    if delete_error(a, path, key) is None {
        let after_a = delete_spec(a, path, key);
        let after_b = delete_spec(b, path, key);
        let child = path.push(key);
        lemma_delete_keeps_invariant(a, path, key, universe);
        lemma_delete_keeps_invariant(b, path, key, universe);
        lemma_delete_effect(a, path, key, universe);
        lemma_delete_effect(b, path, key, universe);
        assert forall|q: PathView| is_subtree(after_a, q) == is_subtree(after_b, q) by {
            lemma_same_below(a, b, child, q);
            assert(is_subtree(after_a, q) == (is_subtree(a, q) && !(is_tree_bytes(
                stored_at(a, path, key),
            ) && is_below(a, child, q))));
            assert(is_subtree(after_b, q) == (is_subtree(b, q) && !(is_tree_bytes(
                stored_at(b, path, key),
            ) && is_below(b, child, q))));
        }
        assert forall|q: PathView, k: Seq<u8>|
            #![trigger stored_at(after_a, q, k)]
            universe.contains(q) implies leaf_at(after_a, q, k) == leaf_at(after_b, q, k) by {
            if is_subtree(after_a, q) {
                assert(is_subtree(after_b, q));
                assert(leaf_at(after_a, q, k) == if q == path && k == key {
                    Leaf::Absent
                } else {
                    leaf_at(a, q, k)
                });
                assert(leaf_at(after_b, q, k) == if q == path && k == key {
                    Leaf::Absent
                } else {
                    leaf_at(b, q, k)
                });
                assert(stored_at(a, q, k) == stored_at(b, q, k));
            } else {
                assert(!is_subtree(after_b, q));
                lemma_unused_prefix_empty(after_a, universe, q);
                lemma_unused_prefix_empty(after_b, universe, q);
                lemma_under_prefix(prefix_of(q), k);
            }
        }
        lemma_content_decides(after_a, after_b, universe, depth);
    }
}

} // verus!
