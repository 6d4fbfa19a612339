use grovedb::universe::{is_collision_free, paths_equal, with_paths_above};

fn path(segments: &[&[u8]]) -> Vec<Vec<u8>> {
    segments.iter().map(|segment| segment.to_vec()).collect()
}

#[test]
fn paths_are_equal_segment_by_segment() {
    assert!(paths_equal(&path(&[]), &path(&[])));
    assert!(paths_equal(&path(&[b"a", b"bc"]), &path(&[b"a", b"bc"])));
    assert!(!paths_equal(&path(&[b"a", b"bc"]), &path(&[b"ab", b"c"])));
    assert!(!paths_equal(&path(&[b"a"]), &path(&[b"a", b""])));
    assert!(!paths_equal(&path(&[b"a"]), &path(&[])));
}

#[test]
fn paths_above_are_listed_with_the_top_level_path() {
    assert_eq!(with_paths_above(&[]), vec![path(&[])]);
    let all = with_paths_above(&[path(&[b"a", b"b"]), path(&[b"c"])]);
    assert_eq!(
        all,
        vec![path(&[]), path(&[b"a"]), path(&[b"a", b"b"]), path(&[b"c"])]
    );
}

#[test]
fn paths_in_use_have_different_prefixes() {
    assert!(is_collision_free(&[]));
    assert!(is_collision_free(&[path(&[b"t", b"u", b"w"]), path(&[b"t", b"k"]), path(&[b"r"])]));
    // the same path given twice is one path
    assert!(is_collision_free(&[path(&[b"t"]), path(&[b"t"]), path(&[b"t", b"t"])]));
    assert!(is_collision_free(&[path(&[b"ab", b"c"]), path(&[b"a", b"bc"]), path(&[b"abc"])]));
}
