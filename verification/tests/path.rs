use grovedb::rocksdb_storage::parallelism_for;
use grovedb::hash::{hash, hash_from_bytes};
use grovedb::operations::aux::top_level_prefix;
use grovedb::path::{path_encoding, path_prefix, to_owned_path};

#[test]
fn hash_is_blake3() {
    let empty: [u8; 32] = [
        0xaf, 0x13, 0x49, 0xb9, 0xf5, 0xf9, 0xa1, 0xa6, 0xa0, 0x40, 0x4d, 0xea, 0x36, 0xdc, 0xc9,
        0x49, 0x9b, 0xcb, 0x25, 0xc9, 0xad, 0xc1, 0x12, 0xb7, 0xcc, 0x9a, 0x93, 0xca, 0xe4, 0x1f,
        0x32, 0x62,
    ];
    assert_eq!(hash(&[]), empty);
    assert_eq!(hash(b"grove"), *blake3::hash(b"grove").as_bytes());
    assert_ne!(hash(b"a"), hash(b"b"));
}

#[test]
fn hash_from_bytes_wants_thirty_two() {
    assert_eq!(hash_from_bytes(&[7u8; 32]), Some([7u8; 32]));
    assert_eq!(hash_from_bytes(&[7u8; 31]), None);
    assert_eq!(hash_from_bytes(&[7u8; 33]), None);
    assert_eq!(hash_from_bytes(&[]), None);
}

#[test]
fn path_encoding_puts_each_segment_behind_its_length() {
    assert_eq!(path_encoding(&[]), Vec::<u8>::new());
    let path = vec![b"ab".to_vec(), b"".to_vec(), b"c".to_vec()];
    let expected = vec![
        2, 0, 0, 0, 0, 0, 0, 0, b'a', b'b', 0, 0, 0, 0, 0, 0, 0, 0, 1, 0, 0, 0, 0, 0, 0, 0, b'c',
    ];
    assert_eq!(path_encoding(&path), expected);
}

#[test]
fn paths_with_the_same_concatenation_differ() {
    let one = vec![b"ab".to_vec(), b"c".to_vec()];
    let two = vec![b"a".to_vec(), b"bc".to_vec()];
    let three = vec![b"abc".to_vec()];
    assert_ne!(path_encoding(&one), path_encoding(&two));
    assert_ne!(path_encoding(&one), path_encoding(&three));
    assert_ne!(path_prefix(&one), path_prefix(&two));
    assert_ne!(path_prefix(&two), path_prefix(&three));
}

#[test]
fn prefix_is_the_hash_of_the_encoding() {
    let path = vec![b"t".to_vec(), b"u".to_vec()];
    let expected = blake3::hash(&path_encoding(&path)).as_bytes().to_vec();
    assert_eq!(path_prefix(&path), expected);
    assert_eq!(path_prefix(&path).len(), 32);
    assert_eq!(path_prefix(&path), path_prefix(&path.clone()));
}

#[test]
fn top_level_prefix_is_a_constant() {
    assert_eq!(top_level_prefix(), blake3::hash(&[]).as_bytes().to_vec());
    assert_eq!(top_level_prefix(), path_prefix(&[]));
}

#[test]
fn owned_path_holds_the_same_segments() {
    let path: [&[u8]; 3] = [b"a", b"", b"bc"];
    assert_eq!(to_owned_path(&path), vec![b"a".to_vec(), vec![], b"bc".to_vec()]);
    assert_eq!(to_owned_path(&[]), Vec::<Vec<u8>>::new());
}

#[test]
fn parallelism_is_the_number_of_cores() {
    assert_eq!(parallelism_for(1), 1);
    assert_eq!(parallelism_for(8), 8);
    assert_eq!(parallelism_for(2147483647), 2147483647);
    assert_eq!(parallelism_for(usize::MAX), i32::MAX);
    assert_eq!(parallelism_for(0), 0);
}
