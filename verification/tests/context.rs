use grovedb::keyspace::KeySpace;
use grovedb::subtree::{clear, compute_root, delete_entry, put_entry, root};
use grovedb::{GroveDb, PrefixedRocksDbTransactionContext, Storage, Transaction};

fn prefix(byte: u8) -> Vec<u8> {
    vec![byte; 32]
}

fn stored_key(byte: u8, key: &[u8]) -> Vec<u8> {
    let mut stored = prefix(byte);
    stored.extend_from_slice(key);
    stored
}

fn transaction() -> Transaction {
    GroveDb::new().start_transaction()
}

#[test]
fn context_puts_the_prefix_in_front() {
    let mut transaction = transaction();
    let mut context = PrefixedRocksDbTransactionContext::new(&mut transaction, prefix(1));
    assert_eq!(context.put(b"k", b"main"), Ok(()));
    assert_eq!(context.put_aux(b"k", b"aux"), Ok(()));
    assert_eq!(context.put_root(b"k", b"root"), Ok(()));
    assert_eq!(context.put_meta(b"k", b"meta"), Ok(()));
    assert_eq!(context.get(b"k"), Ok(Some(b"main".to_vec())));
    assert_eq!(context.get_aux(b"k"), Ok(Some(b"aux".to_vec())));
    assert_eq!(context.get_root(b"k"), Ok(Some(b"root".to_vec())));
    assert_eq!(context.get_meta(b"k"), Ok(Some(b"meta".to_vec())));
    assert_eq!(context.get(b"other"), Ok(None));
    let storage: &Storage = &transaction.storage;
    assert_eq!(storage.main.get(&stored_key(1, b"k")), Some(b"main".to_vec()));
    assert_eq!(storage.aux.get(&stored_key(1, b"k")), Some(b"aux".to_vec()));
    assert_eq!(storage.roots.get(&stored_key(1, b"k")), Some(b"root".to_vec()));
    assert_eq!(storage.meta.get(b"k"), Some(b"meta".to_vec()));
    assert_eq!(storage.meta.get(&stored_key(1, b"k")), None);
    assert_eq!(storage.main.get(b"k"), None);
}

#[test]
fn meta_is_shared_by_all_contexts() {
    let mut transaction = transaction();
    let mut one = PrefixedRocksDbTransactionContext::new(&mut transaction, prefix(1));
    assert_eq!(one.put_meta(b"k", b"v"), Ok(()));
    assert_eq!(one.put(b"k", b"v"), Ok(()));
    let mut two = PrefixedRocksDbTransactionContext::new(&mut transaction, prefix(2));
    assert_eq!(two.get_meta(b"k"), Ok(Some(b"v".to_vec())));
    assert_eq!(two.get(b"k"), Ok(None));
    assert_eq!(two.delete_meta(b"k"), Ok(()));
    let one = PrefixedRocksDbTransactionContext::new(&mut transaction, prefix(1));
    assert_eq!(one.get_meta(b"k"), Ok(None));
    assert_eq!(one.get(b"k"), Ok(Some(b"v".to_vec())));
}

#[test]
fn context_deletes_under_its_prefix() {
    let mut transaction = transaction();
    let mut one = PrefixedRocksDbTransactionContext::new(&mut transaction, prefix(1));
    assert_eq!(one.put(b"k", b"1"), Ok(()));
    assert_eq!(one.put_aux(b"k", b"1"), Ok(()));
    assert_eq!(one.put_root(b"k", b"1"), Ok(()));
    let mut two = PrefixedRocksDbTransactionContext::new(&mut transaction, prefix(2));
    assert_eq!(two.put(b"k", b"2"), Ok(()));
    assert_eq!(two.delete(b"k"), Ok(()));
    assert_eq!(two.delete_aux(b"k"), Ok(()));
    assert_eq!(two.delete_root(b"k"), Ok(()));
    assert_eq!(two.get(b"k"), Ok(None));
    let mut one = PrefixedRocksDbTransactionContext::new(&mut transaction, prefix(1));
    assert_eq!(one.get(b"k"), Ok(Some(b"1".to_vec())));
    assert_eq!(one.get_aux(b"k"), Ok(Some(b"1".to_vec())));
    assert_eq!(one.get_root(b"k"), Ok(Some(b"1".to_vec())));
    assert_eq!(one.delete(b"k"), Ok(()));
    assert_eq!(one.delete_aux(b"k"), Ok(()));
    assert_eq!(one.delete_root(b"k"), Ok(()));
    assert_eq!(one.get(b"k"), Ok(None));
    assert_eq!(one.get_aux(b"k"), Ok(None));
    assert_eq!(one.get_root(b"k"), Ok(None));
}

#[test]
fn batch_of_a_transaction_context_has_nothing_to_commit() {
    let mut transaction = transaction();
    let mut context = PrefixedRocksDbTransactionContext::new(&mut transaction, prefix(1));
    assert_eq!(context.put(b"k", b"v"), Ok(()));
    let batch = context.new_batch();
    assert_eq!(context.commit_batch(batch), Ok(()));
    assert_eq!(context.get(b"k"), Ok(Some(b"v".to_vec())));
}

#[test]
fn cursor_stays_inside_the_prefix_range() {
    let mut transaction = transaction();
    transaction.storage.main.put(stored_key(0, b"z"), b"before".to_vec());
    transaction.storage.main.put(stored_key(2, b"a"), b"after".to_vec());
    let mut context = PrefixedRocksDbTransactionContext::new(&mut transaction, prefix(1));
    assert_eq!(context.put(b"b", b"2"), Ok(()));
    assert_eq!(context.put(b"a", b"1"), Ok(()));
    assert_eq!(context.put(b"c", b"3"), Ok(()));

    let mut cursor = context.raw_iter();
    cursor.seek_to_first();
    let mut seen = Vec::new();
    while cursor.valid() {
        seen.push((cursor.key().unwrap(), cursor.value().unwrap()));
        cursor.next();
    }
    assert_eq!(
        seen,
        vec![
            (b"a".to_vec(), b"1".to_vec()),
            (b"b".to_vec(), b"2".to_vec()),
            (b"c".to_vec(), b"3".to_vec()),
        ]
    );
    // the underlying space goes on, the cursor does not
    assert_eq!(cursor.position, 4);
    assert_eq!(cursor.space.len(), 5);
    assert_eq!(cursor.key(), None);
    assert_eq!(cursor.value(), None);
    cursor.next();
    assert!(!cursor.valid());
    cursor.next();
    assert_eq!(cursor.position, 5);
    cursor.next();
    assert_eq!(cursor.position, 5);
}

#[test]
fn cursor_seeks_the_first_key_not_below() {
    let mut transaction = transaction();
    let mut context = PrefixedRocksDbTransactionContext::new(&mut transaction, prefix(1));
    assert_eq!(context.put(b"b", b"2"), Ok(()));
    assert_eq!(context.put(b"d", b"4"), Ok(()));
    let mut other = PrefixedRocksDbTransactionContext::new(&mut transaction, prefix(2));
    assert_eq!(other.put(b"a", b"x"), Ok(()));
    let context = PrefixedRocksDbTransactionContext::new(&mut transaction, prefix(1));
    let mut cursor = context.raw_iter();
    cursor.seek(b"a");
    assert_eq!(cursor.key(), Some(b"b".to_vec()));
    cursor.seek(b"b");
    assert_eq!(cursor.key(), Some(b"b".to_vec()));
    cursor.seek(b"c");
    assert_eq!(cursor.key(), Some(b"d".to_vec()));
    assert_eq!(cursor.value(), Some(b"4".to_vec()));
    cursor.seek(b"e");
    assert!(!cursor.valid());
    assert_eq!(cursor.key(), None);
    let empty = PrefixedRocksDbTransactionContext::new(&mut transaction, prefix(3));
    let mut cursor = empty.raw_iter();
    cursor.seek_to_first();
    assert!(!cursor.valid());
}

fn expected_root(entries: &[(&[u8], &[u8])]) -> [u8; 32] {
    let mut buffer = Vec::new();
    for (key, value) in entries {
        buffer.extend_from_slice(&(key.len() as u64).to_le_bytes());
        buffer.extend_from_slice(key);
        buffer.extend_from_slice(&(value.len() as u64).to_le_bytes());
        buffer.extend_from_slice(value);
    }
    *blake3::hash(&buffer).as_bytes()
}

#[test]
fn root_is_the_hash_of_the_entries_in_key_order() {
    let mut transaction = transaction();
    assert_eq!(root(&mut transaction, &prefix(1)), None);
    put_entry(&mut transaction, &prefix(1), b"b", b"2");
    put_entry(&mut transaction, &prefix(1), b"a", b"1");
    put_entry(&mut transaction, &prefix(2), b"c", b"3");
    let expected = expected_root(&[(b"a", b"1"), (b"b", b"2")]);
    assert_eq!(root(&mut transaction, &prefix(1)), Some(expected));
    assert_eq!(root(&mut transaction, &prefix(2)), Some(expected_root(&[(b"c", b"3")])));
    let context = PrefixedRocksDbTransactionContext::new(&mut transaction, prefix(1));
    assert_eq!(compute_root(&context), Some(expected));
    assert_eq!(
        transaction.storage.roots.get(&stored_key(1, &[114])),
        Some(expected.to_vec())
    );
    assert_eq!(transaction.subtrees.handles.get(&prefix(1)), Some(expected.to_vec()));
}

#[test]
fn root_follows_deletes_and_clears() {
    let mut transaction = transaction();
    put_entry(&mut transaction, &prefix(1), b"a", b"1");
    put_entry(&mut transaction, &prefix(1), b"b", b"2");
    put_entry(&mut transaction, &prefix(2), b"c", b"3");
    transaction.storage.aux.put(stored_key(1, b"x"), b"aux".to_vec());
    delete_entry(&mut transaction, &prefix(1), b"a");
    assert_eq!(root(&mut transaction, &prefix(1)), Some(expected_root(&[(b"b", b"2")])));
    delete_entry(&mut transaction, &prefix(1), b"b");
    assert_eq!(root(&mut transaction, &prefix(1)), None);
    assert_eq!(transaction.storage.roots.get(&stored_key(1, &[114])), None);
    put_entry(&mut transaction, &prefix(1), b"a", b"1");
    clear(&mut transaction, &prefix(1));
    assert_eq!(root(&mut transaction, &prefix(1)), None);
    assert_eq!(transaction.storage.main.len(), 1);
    assert_eq!(transaction.storage.aux.len(), 0);
    assert_eq!(transaction.storage.roots.len(), 1);
    assert_eq!(root(&mut transaction, &prefix(2)), Some(expected_root(&[(b"c", b"3")])));
}

#[test]
fn load_builds_the_roots_space_anew() {
    let mut db = GroveDb::new();
    assert_eq!(db.insert(&[], b"t".to_vec(), grovedb::Element::Tree(None), None), Ok(()));
    assert_eq!(db.insert(&[b"t"], b"k".to_vec(), grovedb::Element::Item(b"v".to_vec()), None), Ok(()));
    assert_eq!(db.insert(&[], b"a".to_vec(), grovedb::Element::Item(b"x".to_vec()), None), Ok(()));
    assert_eq!(db.put_aux(b"n", b"note", None), Ok(()));
    let expected = db.root_hash(None);
    let roots = db.committed.storage.roots.len();

    let main = db.committed.storage.main.snapshot();
    let aux = db.committed.storage.aux.snapshot();
    let mut loaded = GroveDb::load(main, aux, KeySpace::new());
    assert_eq!(loaded.committed.storage.roots.len(), roots);
    assert_eq!(roots, 2);
    assert_eq!(loaded.root_hash(None), expected);
    assert_eq!(loaded.get(&[b"t"], b"k", None), Ok(grovedb::Element::Item(b"v".to_vec())));
    assert_eq!(loaded.get_aux(b"n", None), Ok(Some(b"note".to_vec())));
    assert_eq!(loaded.insert(&[b"t"], b"j".to_vec(), grovedb::Element::Item(b"w".to_vec()), None), Ok(()));
    assert_eq!(db.insert(&[b"t"], b"j".to_vec(), grovedb::Element::Item(b"w".to_vec()), None), Ok(()));
    assert_eq!(loaded.root_hash(None), db.root_hash(None));
}

#[test]
fn closed_subtree_is_loaded_again_when_opened() {
    let mut db = GroveDb::new();
    assert_eq!(db.insert(&[], b"t".to_vec(), grovedb::Element::Tree(None), None), Ok(()));
    assert_eq!(db.insert(&[b"t"], b"k".to_vec(), grovedb::Element::Item(b"v".to_vec()), None), Ok(()));
    let t = grovedb::path::path_prefix(&[b"t".to_vec()]);
    let expected = expected_root(&[(b"k", &[1, b'v'])]);
    assert_eq!(db.committed.subtrees.handles.get(&t), Some(expected.to_vec()));
    db.close_subtree(&[b"t"], None);
    assert_eq!(db.committed.subtrees.handles.get(&t), None);
    assert_eq!(db.committed.storage.roots.get(&[t.clone(), vec![114]].concat()), Some(expected.to_vec()));
    assert_eq!(root(&mut db.committed, &t), Some(expected));
    assert_eq!(db.committed.subtrees.handles.get(&t), Some(expected.to_vec()));
    assert_eq!(db.insert(&[b"t"], b"j".to_vec(), grovedb::Element::Item(b"w".to_vec()), None), Ok(()));
    db.close_subtree(&[b"t"], None);
    db.close_subtree(&[], None);
    let top = expected_root(&[(
        b"t",
        &[&[3u8][..], &expected_root(&[(b"j", &[1, b'w']), (b"k", &[1, b'v'])])[..]].concat(),
    )]);
    assert_eq!(db.root_hash(None), Some(top));
}

#[test]
fn recursive_delete_evicts_the_handles() {
    let mut db = GroveDb::new();
    assert_eq!(db.insert(&[], b"s".to_vec(), grovedb::Element::Tree(None), None), Ok(()));
    assert_eq!(db.insert(&[b"s"], b"t".to_vec(), grovedb::Element::Tree(None), None), Ok(()));
    assert_eq!(db.insert(&[b"s", b"t"], b"u".to_vec(), grovedb::Element::Tree(None), None), Ok(()));
    assert_eq!(
        db.insert(&[b"s", b"t", b"u"], b"k".to_vec(), grovedb::Element::Item(b"v".to_vec()), None),
        Ok(())
    );
    let s = grovedb::path::path_prefix(&[b"s".to_vec()]);
    let t = grovedb::path::path_prefix(&[b"s".to_vec(), b"t".to_vec()]);
    let u = grovedb::path::path_prefix(&[b"s".to_vec(), b"t".to_vec(), b"u".to_vec()]);
    assert!(db.committed.subtrees.handles.get(&t).is_some());
    assert!(db.committed.subtrees.handles.get(&u).is_some());
    assert_eq!(db.delete(&[b"s"], b"t".to_vec(), None), Ok(()));
    assert_eq!(db.committed.subtrees.handles.get(&t), None);
    assert_eq!(db.committed.subtrees.handles.get(&u), None);
    assert_eq!(db.committed.subtrees.handles.get(&s), Some(vec![]));
}

#[test]
fn direct_storage_puts_the_prefix_in_front() {
    let mut storage = Storage::new();
    let mut context = grovedb::PrefixedRocksDbStorage::new(&mut storage, prefix(1)).unwrap();
    assert_eq!(context.put(b"k", b"main"), Ok(()));
    assert_eq!(context.put_aux(b"k", b"aux"), Ok(()));
    assert_eq!(context.put_root(b"k", b"root"), Ok(()));
    assert_eq!(context.put_meta(b"k", b"meta"), Ok(()));
    assert_eq!(context.get(b"k"), Ok(Some(b"main".to_vec())));
    assert_eq!(context.get_aux(b"k"), Ok(Some(b"aux".to_vec())));
    assert_eq!(context.get_root(b"k"), Ok(Some(b"root".to_vec())));
    assert_eq!(context.get_meta(b"k"), Ok(Some(b"meta".to_vec())));
    assert_eq!(context.get(b"other"), Ok(None));
    assert_eq!(context.flush(), Ok(()));
    assert_eq!(storage.main.get(&stored_key(1, b"k")), Some(b"main".to_vec()));
    assert_eq!(storage.aux.get(&stored_key(1, b"k")), Some(b"aux".to_vec()));
    assert_eq!(storage.roots.get(&stored_key(1, b"k")), Some(b"root".to_vec()));
    assert_eq!(storage.meta.get(b"k"), Some(b"meta".to_vec()));
    let mut context = grovedb::PrefixedRocksDbStorage::new(&mut storage, prefix(1)).unwrap();
    assert_eq!(context.delete(b"k"), Ok(()));
    assert_eq!(context.delete_aux(b"k"), Ok(()));
    assert_eq!(context.delete_root(b"k"), Ok(()));
    assert_eq!(context.delete_meta(b"k"), Ok(()));
    assert_eq!(context.get(b"k"), Ok(None));
    assert_eq!(context.get_aux(b"k"), Ok(None));
    assert_eq!(context.get_root(b"k"), Ok(None));
    assert_eq!(context.get_meta(b"k"), Ok(None));
}

#[test]
fn batch_reaches_the_key_spaces_when_committed() {
    let mut storage = Storage::new();
    let mut context = grovedb::PrefixedRocksDbStorage::new(&mut storage, prefix(1)).unwrap();
    assert_eq!(context.put(b"old", b"1"), Ok(()));
    let mut batch = context.new_batch().unwrap();
    batch.put(b"a", b"1");
    batch.put_aux(b"a", b"2");
    batch.put_root(b"a", b"3");
    batch.delete(b"old");
    batch.put(b"b", b"first");
    batch.put(b"b", b"second");
    batch.put_aux(b"gone", b"x");
    batch.delete_aux(b"gone");
    batch.put_root(b"gone", b"x");
    batch.delete_root(b"gone");
    assert_eq!(batch.operations.len(), 10);
    // nothing is written before the commit
    assert_eq!(context.get(b"a"), Ok(None));
    assert_eq!(context.get(b"old"), Ok(Some(b"1".to_vec())));
    assert_eq!(context.commit_batch(batch), Ok(()));
    assert_eq!(context.get(b"a"), Ok(Some(b"1".to_vec())));
    assert_eq!(context.get_aux(b"a"), Ok(Some(b"2".to_vec())));
    assert_eq!(context.get_root(b"a"), Ok(Some(b"3".to_vec())));
    assert_eq!(context.get(b"old"), Ok(None));
    assert_eq!(context.get(b"b"), Ok(Some(b"second".to_vec())));
    assert_eq!(context.get_aux(b"gone"), Ok(None));
    assert_eq!(context.get_root(b"gone"), Ok(None));
    let mut cursor = context.raw_iter();
    cursor.seek_to_first();
    assert_eq!(cursor.key(), Some(b"a".to_vec()));
    cursor.next();
    assert_eq!(cursor.key(), Some(b"b".to_vec()));
    cursor.next();
    assert!(!cursor.valid());
    assert_eq!(storage.main.len(), 2);
    assert_eq!(storage.main.key_at(0), &stored_key(1, b"a"));
}

#[test]
fn default_options_and_column_families() {
    let opts = grovedb::default_db_opts();
    assert!(opts.create_if_missing);
    assert!(opts.allow_mmap_writes);
    assert!(opts.allow_mmap_reads);
    assert!(opts.create_missing_column_families);
    assert!(opts.atomic_flush);
    assert!(opts.parallelism >= 1);
    let fixed = grovedb::rocksdb_storage::db_opts_for(4);
    assert_eq!(fixed.parallelism, 4);
    assert_eq!(fixed, grovedb::rocksdb_storage::DbOptions { parallelism: 4, ..opts });
    let families = grovedb::column_families();
    let names: Vec<&str> = families.iter().map(|family| family.name).collect();
    assert_eq!(names, vec!["aux", "roots", "meta"]);
    for family in families {
        assert_eq!(family.options, opts);
    }
}
