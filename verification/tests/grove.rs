use grovedb::path::path_prefix;
use grovedb::{Element, Error, GroveDb, PrefixedRocksDbTransactionContext, Transaction};

fn le(n: u64) -> Vec<u8> {
    n.to_le_bytes().to_vec()
}

fn segment(bytes: &[u8]) -> Vec<u8> {
    let mut out = le(bytes.len() as u64);
    out.extend_from_slice(bytes);
    out
}

fn entries_hash(entries: &[(&[u8], Vec<u8>)]) -> [u8; 32] {
    let mut buffer = Vec::new();
    for (key, value) in entries {
        buffer.extend(segment(key));
        buffer.extend(segment(value));
    }
    *blake3::hash(&buffer).as_bytes()
}

fn item(bytes: &[u8]) -> Element {
    Element::Item(bytes.to_vec())
}

fn main_range_len(transaction: &mut Transaction, path: &[Vec<u8>]) -> usize {
    let context = PrefixedRocksDbTransactionContext::new(transaction, path_prefix(path));
    let mut cursor = context.raw_iter();
    cursor.seek_to_first();
    let mut n = 0;
    while cursor.valid() {
        n += 1;
        cursor.next();
    }
    n
}

#[test]
fn empty_grove_has_the_root_of_an_empty_subtree() {
    let mut db = GroveDb::new();
    assert_eq!(db.root_hash(None), None);
    assert_eq!(db.committed.storage.main.len(), 0);
}

#[test]
fn single_item_is_read_back_and_stays() {
    let mut db = GroveDb::new();
    let before = db.root_hash(None);
    assert_eq!(db.insert(&[], b"a".to_vec(), item(b"x"), None), Ok(()));
    assert_eq!(db.get(&[], b"a", None), Ok(item(b"x")));
    let after = db.root_hash(None);
    assert_ne!(before, after);
    assert_eq!(after, Some(entries_hash(&[(b"a", vec![1, b'x'])])));
    assert_eq!(db.delete(&[], b"a".to_vec(), None), Err(Error::InvalidPath));
    assert_eq!(db.get(&[], b"a", None), Ok(item(b"x")));
    assert_eq!(db.root_hash(None), after);
}

#[test]
fn tree_element_holds_the_root_hash_of_its_subtree() {
    let mut db = GroveDb::new();
    assert_eq!(db.insert(&[], b"t".to_vec(), Element::Tree(None), None), Ok(()));
    assert_eq!(db.get_raw(&[], b"t", None), Ok(Element::Tree(None)));
    assert_eq!(db.insert(&[b"t"], b"k".to_vec(), item(b"v"), None), Ok(()));
    let child_root = entries_hash(&[(b"k", vec![1, b'v'])]);
    assert_eq!(db.get_raw(&[], b"t", None), Ok(Element::Tree(Some(child_root))));
    let mut tree_bytes = vec![3u8];
    tree_bytes.extend_from_slice(&child_root);
    assert_eq!(db.root_hash(None), Some(entries_hash(&[(b"t", tree_bytes)])));
}

#[test]
fn reference_is_followed_by_get_and_kept_by_get_raw() {
    let mut db = GroveDb::new();
    assert_eq!(db.insert(&[], b"t".to_vec(), Element::Tree(None), None), Ok(()));
    assert_eq!(db.insert(&[b"t"], b"k".to_vec(), item(b"v"), None), Ok(()));
    let reference = Element::Reference(vec![b"t".to_vec()], b"k".to_vec());
    assert_eq!(db.insert(&[], b"r".to_vec(), reference.clone(), None), Ok(()));
    assert_eq!(db.get(&[], b"r", None), Ok(item(b"v")));
    assert_eq!(db.get_raw(&[], b"r", None), Ok(reference));
}

#[test]
fn recursive_delete_clears_every_subtree_below() {
    let mut db = GroveDb::new();
    assert_eq!(db.insert(&[], b"s".to_vec(), Element::Tree(None), None), Ok(()));
    let before = db.root_hash(None);
    assert_eq!(db.insert(&[b"s"], b"t".to_vec(), Element::Tree(None), None), Ok(()));
    assert_eq!(db.insert(&[b"s", b"t"], b"u".to_vec(), Element::Tree(None), None), Ok(()));
    assert_eq!(db.insert(&[b"s", b"t", b"u"], b"w".to_vec(), item(b"x"), None), Ok(()));
    assert_eq!(db.put_aux(b"note", b"kept", None), Ok(()));
    assert_ne!(db.root_hash(None), before);
    let t = vec![b"s".to_vec(), b"t".to_vec()];
    let u = vec![b"s".to_vec(), b"t".to_vec(), b"u".to_vec()];
    assert_eq!(main_range_len(&mut db.committed, &t), 1);
    assert_eq!(main_range_len(&mut db.committed, &u), 1);
    assert_eq!(db.find_subtrees(t.clone(), None), Ok(vec![t.clone(), u.clone()]));

    assert_eq!(db.delete(&[b"s"], b"t".to_vec(), None), Ok(()));

    assert_eq!(main_range_len(&mut db.committed, &t), 0);
    assert_eq!(main_range_len(&mut db.committed, &u), 0);
    assert_eq!(db.committed.storage.roots.get(&[path_prefix(&t), vec![114]].concat()), None);
    assert_eq!(db.committed.storage.roots.get(&[path_prefix(&u), vec![114]].concat()), None);
    assert_eq!(db.get(&[b"s", b"t", b"u"], b"w", None), Err(Error::InvalidPath));
    assert_eq!(db.get_raw(&[b"s"], b"t", None), Err(Error::InvalidPath));
    assert_eq!(db.get_raw(&[], b"s", None), Ok(Element::Tree(None)));
    assert_eq!(db.root_hash(None), before);
    assert_eq!(db.get_aux(b"note", None), Ok(Some(b"kept".to_vec())));
}

#[test]
fn top_level_tree_cannot_be_deleted() {
    let mut db = GroveDb::new();
    assert_eq!(db.insert(&[], b"t".to_vec(), Element::Tree(None), None), Ok(()));
    assert_eq!(db.delete(&[], b"t".to_vec(), None), Err(Error::InvalidPath));
    assert_eq!(db.get_raw(&[], b"t", None), Ok(Element::Tree(None)));

    assert_eq!(db.insert(&[b"t"], b"u".to_vec(), Element::Tree(None), None), Ok(()));
    assert_eq!(db.insert(&[b"t", b"u"], b"w".to_vec(), item(b"x"), None), Ok(()));
    let root = db.root_hash(None);
    let entries = db.committed.storage.main.len();
    assert_eq!(db.delete(&[], b"t".to_vec(), None), Err(Error::InvalidPath));
    assert_eq!(db.root_hash(None), root);
    assert_eq!(db.committed.storage.main.len(), entries);
    assert_eq!(db.get(&[b"t", b"u"], b"w", None), Ok(item(b"x")));
    // one level down the same tree goes, with all below it
    assert_eq!(db.delete(&[b"t"], b"u".to_vec(), None), Ok(()));
    assert_eq!(db.get(&[b"t", b"u"], b"w", None), Err(Error::InvalidPath));
    assert_eq!(db.committed.storage.main.len(), 1);
}

#[test]
fn rollback_leaves_the_committed_state_alone() {
    let mut db = GroveDb::new();
    assert_eq!(db.insert(&[], b"t".to_vec(), Element::Tree(None), None), Ok(()));
    let before = db.root_hash(None);
    let mut transaction = db.start_transaction();
    assert_eq!(
        db.insert(&[b"t"], b"u".to_vec(), Element::Tree(None), Some(&mut transaction)),
        Ok(())
    );
    assert_eq!(db.insert(&[b"t", b"u"], b"k".to_vec(), item(b"v"), Some(&mut transaction)), Ok(()));
    assert_eq!(db.get(&[b"t", b"u"], b"k", Some(&mut transaction)), Ok(item(b"v")));
    assert_ne!(db.root_hash(Some(&mut transaction)), before);
    assert_eq!(db.get(&[b"t", b"u"], b"k", None), Err(Error::InvalidPath));
    assert_eq!(db.root_hash(None), before);
    db.rollback_transaction(transaction);
    assert_eq!(db.get(&[b"t", b"u"], b"k", None), Err(Error::InvalidPath));
    assert_eq!(db.root_hash(None), before);
}

#[test]
fn commit_makes_the_writes_of_a_transaction_visible() {
    let mut db = GroveDb::new();
    let mut transaction = db.start_transaction();
    assert_eq!(db.insert(&[], b"a".to_vec(), item(b"x"), Some(&mut transaction)), Ok(()));
    assert_eq!(db.get(&[], b"a", None), Err(Error::InvalidPath));
    let inside = db.root_hash(Some(&mut transaction));
    assert_eq!(db.commit_transaction(transaction), Ok(()));
    assert_eq!(db.get(&[], b"a", None), Ok(item(b"x")));
    assert_eq!(db.root_hash(None), inside);
}

#[test]
fn commit_after_a_direct_write_is_a_conflict() {
    let mut db = GroveDb::new();
    let mut transaction = db.start_transaction();
    assert_eq!(db.insert(&[], b"a".to_vec(), item(b"x"), Some(&mut transaction)), Ok(()));
    assert_eq!(db.insert(&[], b"b".to_vec(), item(b"y"), None), Ok(()));
    assert_eq!(db.commit_transaction(transaction), Err(Error::TransactionConflict));
    assert_eq!(db.get(&[], b"a", None), Err(Error::InvalidPath));
    assert_eq!(db.get(&[], b"b", None), Ok(item(b"y")));
}

#[test]
fn insert_needs_an_existing_parent() {
    let mut db = GroveDb::new();
    assert_eq!(db.insert(&[b"t"], b"k".to_vec(), item(b"v"), None), Err(Error::InvalidPath));
    assert_eq!(db.insert(&[], b"i".to_vec(), item(b"v"), None), Ok(()));
    assert_eq!(db.insert(&[b"i"], b"k".to_vec(), item(b"v"), None), Err(Error::InvalidPath));
    assert_eq!(db.committed.storage.main.len(), 1);
}

#[test]
fn insert_does_not_overwrite_a_tree() {
    let mut db = GroveDb::new();
    assert_eq!(db.insert(&[], b"t".to_vec(), Element::Tree(None), None), Ok(()));
    assert_eq!(db.insert(&[b"t"], b"k".to_vec(), item(b"v"), None), Ok(()));
    assert_eq!(db.insert(&[], b"t".to_vec(), item(b"x"), None), Err(Error::InvalidElement));
    assert_eq!(
        db.insert(&[], b"t".to_vec(), Element::Tree(None), None),
        Err(Error::InvalidElement)
    );
    assert_eq!(db.get(&[b"t"], b"k", None), Ok(item(b"v")));
}

#[test]
fn insert_overwrites_an_item() {
    let mut db = GroveDb::new();
    assert_eq!(db.insert(&[], b"a".to_vec(), item(b"x"), None), Ok(()));
    assert_eq!(db.insert(&[], b"a".to_vec(), item(b"y"), None), Ok(()));
    assert_eq!(db.get(&[], b"a", None), Ok(item(b"y")));
    assert_eq!(db.root_hash(None), Some(entries_hash(&[(b"a", vec![1, b'y'])])));
}

#[test]
fn inserted_tree_starts_without_a_root_hash() {
    let mut db = GroveDb::new();
    assert_eq!(db.insert(&[], b"t".to_vec(), Element::Tree(Some([7u8; 32])), None), Ok(()));
    assert_eq!(db.get_raw(&[], b"t", None), Ok(Element::Tree(None)));
    assert_eq!(db.root_hash(None), Some(entries_hash(&[(b"t", vec![3, 0])])));
}

#[test]
fn delete_of_an_absent_key_is_an_invalid_path() {
    let mut db = GroveDb::new();
    assert_eq!(db.insert(&[], b"t".to_vec(), Element::Tree(None), None), Ok(()));
    assert_eq!(db.delete(&[b"t"], b"k".to_vec(), None), Err(Error::InvalidPath));
    assert_eq!(db.delete(&[b"x"], b"k".to_vec(), None), Err(Error::InvalidPath));
}

#[test]
fn delete_of_an_item_restores_the_root_hash() {
    let mut db = GroveDb::new();
    assert_eq!(db.insert(&[], b"t".to_vec(), Element::Tree(None), None), Ok(()));
    let before = db.root_hash(None);
    assert_eq!(db.insert(&[b"t"], b"k".to_vec(), item(b"v"), None), Ok(()));
    assert_ne!(db.root_hash(None), before);
    assert_eq!(db.delete(&[b"t"], b"k".to_vec(), None), Ok(()));
    assert_eq!(db.root_hash(None), before);
    assert_eq!(db.get_raw(&[], b"t", None), Ok(Element::Tree(None)));
    assert_eq!(db.committed.storage.roots.len(), 1);
}

#[test]
fn reference_chain_within_the_hop_bound_resolves() {
    let mut db = GroveDb::new();
    assert_eq!(db.insert(&[], b"r0".to_vec(), item(b"end"), None), Ok(()));
    for i in 1..=10u8 {
        let target = format!("r{}", i - 1).into_bytes();
        let key = format!("r{}", i).into_bytes();
        assert_eq!(db.insert(&[], key, Element::Reference(vec![], target), None), Ok(()));
    }
    assert_eq!(db.get(&[], b"r10", None), Ok(item(b"end")));
    let eleventh = Element::Reference(vec![], b"r10".to_vec());
    assert_eq!(db.insert(&[], b"r11".to_vec(), eleventh, None), Ok(()));
    assert_eq!(db.get(&[], b"r11", None), Err(Error::ReferenceLimit));
}

#[test]
fn reference_cycle_hits_the_hop_bound() {
    let mut db = GroveDb::new();
    let to_b = Element::Reference(vec![], b"b".to_vec());
    let to_a = Element::Reference(vec![], b"a".to_vec());
    assert_eq!(db.insert(&[], b"a".to_vec(), to_b.clone(), None), Ok(()));
    assert_eq!(db.insert(&[], b"b".to_vec(), to_a, None), Ok(()));
    assert_eq!(db.get(&[], b"a", None), Err(Error::ReferenceLimit));
    assert_eq!(db.get_raw(&[], b"a", None), Ok(to_b));
}

#[test]
fn dangling_reference_is_an_invalid_path() {
    let mut db = GroveDb::new();
    let dangling = Element::Reference(vec![b"t".to_vec()], b"k".to_vec());
    assert_eq!(db.insert(&[], b"r".to_vec(), dangling, None), Ok(()));
    assert_eq!(db.get(&[], b"r", None), Err(Error::InvalidPath));
}

#[test]
fn corrupted_value_is_reported() {
    let mut db = GroveDb::new();
    assert_eq!(db.insert(&[], b"t".to_vec(), Element::Tree(None), None), Ok(()));
    let t = vec![b"t".to_vec()];
    let mut stored_key = path_prefix(&t);
    stored_key.extend_from_slice(b"bad");
    db.committed.storage.main.put(stored_key, vec![9, 9]);
    assert_eq!(db.get(&[b"t"], b"bad", None), Err(Error::CorruptedData));
    assert_eq!(db.find_subtrees(t, None), Err(Error::CorruptedData));
    assert_eq!(db.find_subtrees(vec![], None), Err(Error::CorruptedData));
}

#[test]
fn find_subtrees_lists_the_start_and_all_below() {
    let mut db = GroveDb::new();
    assert_eq!(db.insert(&[], b"a".to_vec(), Element::Tree(None), None), Ok(()));
    assert_eq!(db.insert(&[], b"b".to_vec(), Element::Tree(None), None), Ok(()));
    assert_eq!(db.insert(&[], b"i".to_vec(), item(b"v"), None), Ok(()));
    assert_eq!(db.insert(&[b"a"], b"c".to_vec(), Element::Tree(None), None), Ok(()));
    assert_eq!(db.insert(&[b"a"], b"d".to_vec(), item(b"v"), None), Ok(()));
    let found = db.find_subtrees(vec![], None).unwrap();
    let a = vec![b"a".to_vec()];
    let b = vec![b"b".to_vec()];
    let ac = vec![b"a".to_vec(), b"c".to_vec()];
    assert_eq!(found, vec![vec![], a.clone(), b, ac.clone()]);
    assert_eq!(db.find_subtrees(a.clone(), None), Ok(vec![a, ac]));
}

#[test]
fn same_inserts_in_another_order_give_the_same_root() {
    let mut first = GroveDb::new();
    assert_eq!(first.insert(&[], b"t".to_vec(), Element::Tree(None), None), Ok(()));
    assert_eq!(first.insert(&[], b"a".to_vec(), item(b"1"), None), Ok(()));
    assert_eq!(first.insert(&[b"t"], b"k".to_vec(), item(b"2"), None), Ok(()));
    assert_eq!(first.insert(&[b"t"], b"j".to_vec(), item(b"3"), None), Ok(()));

    let mut second = GroveDb::new();
    assert_eq!(second.insert(&[], b"a".to_vec(), item(b"1"), None), Ok(()));
    assert_eq!(second.insert(&[], b"t".to_vec(), Element::Tree(None), None), Ok(()));
    assert_eq!(second.insert(&[b"t"], b"j".to_vec(), item(b"3"), None), Ok(()));
    assert_eq!(second.insert(&[b"t"], b"k".to_vec(), item(b"2"), None), Ok(()));

    assert_eq!(first.root_hash(None), second.root_hash(None));
    assert!(first.root_hash(None).is_some());
}

#[test]
fn aux_entries_are_outside_the_root_hash() {
    let mut db = GroveDb::new();
    assert_eq!(db.insert(&[], b"a".to_vec(), item(b"x"), None), Ok(()));
    let before = db.root_hash(None);
    assert_eq!(db.get_aux(b"k", None), Ok(None));
    assert_eq!(db.put_aux(b"k", b"v", None), Ok(()));
    assert_eq!(db.get_aux(b"k", None), Ok(Some(b"v".to_vec())));
    assert_eq!(db.root_hash(None), before);
    assert_eq!(db.get(&[], b"k", None), Err(Error::InvalidPath));
    assert_eq!(db.delete_aux(b"k", None), Ok(()));
    assert_eq!(db.get_aux(b"k", None), Ok(None));
    assert_eq!(db.delete_aux(b"k", None), Ok(()));
}

#[test]
fn aux_entries_of_a_transaction_stay_inside_it() {
    let mut db = GroveDb::new();
    assert_eq!(db.put_aux(b"k", b"old", None), Ok(()));
    let mut transaction = db.start_transaction();
    assert_eq!(db.put_aux(b"k", b"new", Some(&mut transaction)), Ok(()));
    assert_eq!(db.get_aux(b"k", Some(&mut transaction)), Ok(Some(b"new".to_vec())));
    assert_eq!(db.get_aux(b"k", None), Ok(Some(b"old".to_vec())));
    assert_eq!(db.delete_aux(b"k", Some(&mut transaction)), Ok(()));
    assert_eq!(db.get_aux(b"k", Some(&mut transaction)), Ok(None));
    assert_eq!(db.get_aux(b"k", None), Ok(Some(b"old".to_vec())));
}

#[test]
fn aux_entries_lie_under_the_top_level_prefix() {
    let mut db = GroveDb::new();
    assert_eq!(db.put_aux(b"k", b"v", None), Ok(()));
    let mut stored_key = blake3::hash(&[]).as_bytes().to_vec();
    stored_key.extend_from_slice(b"k");
    assert_eq!(db.committed.storage.aux.get(&stored_key), Some(b"v".to_vec()));
    assert_eq!(db.committed.storage.main.len(), 0);
}

#[test]
fn every_prefix_with_entries_is_found_from_the_top() {
    let mut db = GroveDb::new();
    assert_eq!(db.insert(&[], b"a".to_vec(), Element::Tree(None), None), Ok(()));
    assert_eq!(db.insert(&[], b"b".to_vec(), Element::Tree(None), None), Ok(()));
    assert_eq!(db.insert(&[b"a"], b"c".to_vec(), Element::Tree(None), None), Ok(()));
    assert_eq!(db.insert(&[b"a", b"c"], b"k".to_vec(), item(b"v"), None), Ok(()));
    assert_eq!(db.insert(&[b"b"], b"k".to_vec(), item(b"w"), None), Ok(()));
    assert_eq!(db.insert(&[], b"gone".to_vec(), Element::Tree(None), None), Ok(()));
    assert_eq!(db.insert(&[b"b"], b"d".to_vec(), Element::Tree(None), None), Ok(()));
    assert_eq!(db.insert(&[b"b", b"d"], b"k".to_vec(), item(b"x"), None), Ok(()));
    assert_eq!(db.delete(&[b"b"], b"d".to_vec(), None), Ok(()));

    let found = db.find_subtrees(vec![], None).unwrap();
    let mut found_prefixes: Vec<Vec<u8>> = found
        .iter()
        .filter(|path| path.len() != 1 || path[0] != b"gone".to_vec())
        .map(|path| path_prefix(path))
        .collect();
    found_prefixes.sort();

    let main = &db.committed.storage.main;
    let mut used_prefixes: Vec<Vec<u8>> = (0..main.len())
        .map(|i| main.key_at(i)[..32].to_vec())
        .collect();
    used_prefixes.sort();
    used_prefixes.dedup();

    // the one found subtree without entries is the empty tree "gone"
    assert_eq!(found.len(), 5);
    assert_eq!(found_prefixes, used_prefixes);
}

#[test]
fn every_tree_holds_the_root_hash_of_its_subtree() {
    let mut db = GroveDb::new();
    assert_eq!(db.insert(&[], b"a".to_vec(), Element::Tree(None), None), Ok(()));
    assert_eq!(db.insert(&[b"a"], b"b".to_vec(), Element::Tree(None), None), Ok(()));
    assert_eq!(db.insert(&[b"a", b"b"], b"k".to_vec(), item(b"v"), None), Ok(()));
    assert_eq!(db.insert(&[b"a"], b"i".to_vec(), item(b"w"), None), Ok(()));
    assert_eq!(db.insert(&[b"a", b"b"], b"c".to_vec(), Element::Tree(None), None), Ok(()));
    assert_eq!(db.delete(&[b"a", b"b"], b"k".to_vec(), None), Ok(()));

    let found = db.find_subtrees(vec![], None).unwrap();
    assert_eq!(found.len(), 4);
    for path in found {
        if let Some((key, parent)) = path.split_last() {
            let parent: Vec<&[u8]> = parent.iter().map(|segment| segment.as_slice()).collect();
            let stored = db.get_raw(&parent, key, None);
            let expected = grovedb::subtree::root(&mut db.committed, &path_prefix(&path));
            assert_eq!(stored, Ok(Element::Tree(expected)));
        }
    }
}

#[test]
fn clone_of_an_element_is_equal() {
    let elements = vec![
        item(b"x"),
        Element::Reference(vec![b"a".to_vec(), b"b".to_vec()], b"k".to_vec()),
        Element::Tree(None),
        Element::Tree(Some([5u8; 32])),
    ];
    for element in elements {
        assert_eq!(element.clone(), element);
    }
}

#[test]
fn find_subtrees_of_a_missing_subtree_is_an_invalid_path() {
    let mut db = GroveDb::new();
    assert_eq!(db.find_subtrees(vec![vec![122]], None), Err(Error::InvalidPath));
    assert_eq!(db.find_subtrees(vec![], None), Ok(vec![vec![]]));
    assert_eq!(db.insert(&[], b"t".to_vec(), Element::Tree(None), None), Ok(()));
    assert_eq!(db.insert(&[], b"i".to_vec(), item(b"v"), None), Ok(()));
    let t = vec![b"t".to_vec()];
    assert_eq!(db.find_subtrees(t.clone(), None), Ok(vec![t.clone()]));
    // an item names no subtree, nor does a key below a tree that is not there
    assert_eq!(db.find_subtrees(vec![b"i".to_vec()], None), Err(Error::InvalidPath));
    assert_eq!(db.find_subtrees(vec![b"t".to_vec(), b"u".to_vec()], None), Err(Error::InvalidPath));
    assert_eq!(db.find_subtrees(vec![b"x".to_vec(), b"t".to_vec()], None), Err(Error::InvalidPath));
    let mut transaction = db.start_transaction();
    assert_eq!(db.delete(&[], b"i".to_vec(), Some(&mut transaction)), Err(Error::InvalidPath));
    assert_eq!(
        db.insert(&[b"t"], b"u".to_vec(), Element::Tree(None), Some(&mut transaction)),
        Ok(())
    );
    let u = vec![b"t".to_vec(), b"u".to_vec()];
    assert_eq!(db.find_subtrees(u.clone(), Some(&mut transaction)), Ok(vec![u.clone()]));
    assert_eq!(db.find_subtrees(u, None), Err(Error::InvalidPath));
    assert_eq!(db.committed.storage.main.len(), 2);
}
