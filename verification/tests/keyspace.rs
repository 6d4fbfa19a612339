use grovedb::keyspace::KeySpace;

fn filled() -> KeySpace {
    let mut space = KeySpace::new();
    space.put(b"b".to_vec(), b"2".to_vec());
    space.put(b"a".to_vec(), b"1".to_vec());
    space.put(b"ab".to_vec(), b"12".to_vec());
    space.put(b"c".to_vec(), b"3".to_vec());
    space
}

fn keys(space: &KeySpace) -> Vec<Vec<u8>> {
    (0..space.len()).map(|i| space.key_at(i).clone()).collect()
}

#[test]
fn new_key_space_is_empty() {
    let space = KeySpace::new();
    assert_eq!(space.len(), 0);
    assert_eq!(space.get(b"a"), None);
    assert_eq!(space.seek(b"a"), 0);
}

#[test]
fn entries_are_kept_in_key_order() {
    let space = filled();
    assert_eq!(keys(&space), vec![b"a".to_vec(), b"ab".to_vec(), b"b".to_vec(), b"c".to_vec()]);
    assert_eq!(space.value_at(1), &b"12".to_vec());
}

#[test]
fn get_finds_what_put_stored() {
    let mut space = filled();
    assert_eq!(space.get(b"a"), Some(b"1".to_vec()));
    assert_eq!(space.get(b"ab"), Some(b"12".to_vec()));
    assert_eq!(space.get(b"abc"), None);
    assert_eq!(space.get(b""), None);
    space.put(b"a".to_vec(), b"one".to_vec());
    assert_eq!(space.get(b"a"), Some(b"one".to_vec()));
    assert_eq!(space.len(), 4);
    space.put(b"".to_vec(), b"empty".to_vec());
    assert_eq!(space.get(b""), Some(b"empty".to_vec()));
    assert_eq!(space.key_at(0), &Vec::<u8>::new());
}

#[test]
fn delete_removes_one_entry() {
    let mut space = filled();
    space.delete(b"ab");
    assert_eq!(space.get(b"ab"), None);
    assert_eq!(keys(&space), vec![b"a".to_vec(), b"b".to_vec(), b"c".to_vec()]);
    space.delete(b"zz");
    assert_eq!(space.len(), 3);
}

#[test]
fn seek_finds_the_first_key_not_below() {
    let space = filled();
    assert_eq!(space.seek(b""), 0);
    assert_eq!(space.seek(b"a"), 0);
    assert_eq!(space.seek(b"aa"), 1);
    assert_eq!(space.seek(b"ab"), 1);
    assert_eq!(space.seek(b"abc"), 2);
    assert_eq!(space.seek(b"c"), 3);
    assert_eq!(space.seek(b"d"), 4);
}

#[test]
fn clear_prefix_removes_the_range() {
    let mut space = filled();
    space.clear_prefix(b"a");
    assert_eq!(keys(&space), vec![b"b".to_vec(), b"c".to_vec()]);
    space.clear_prefix(b"x");
    assert_eq!(space.len(), 2);
    space.clear_prefix(b"");
    assert_eq!(space.len(), 0);
}

#[test]
fn snapshot_is_independent() {
    let mut space = filled();
    let copy = space.snapshot();
    space.delete(b"a");
    space.put(b"z".to_vec(), b"26".to_vec());
    assert_eq!(keys(&copy), vec![b"a".to_vec(), b"ab".to_vec(), b"b".to_vec(), b"c".to_vec()]);
    assert_eq!(copy.get(b"a"), Some(b"1".to_vec()));
    assert_eq!(copy.get(b"z"), None);
}
