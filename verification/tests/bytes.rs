use grovedb::bytes::{bytes_equal, bytes_less, copy_bytes, starts_with, strip_prefix};
use grovedb::make_prefixed_key;

#[test]
fn prefixed_key_is_prefix_then_key() {
    assert_eq!(make_prefixed_key(vec![1, 2, 3], &[4, 5]), vec![1, 2, 3, 4, 5]);
    assert_eq!(make_prefixed_key(vec![], &[4, 5]), vec![4, 5]);
    assert_eq!(make_prefixed_key(vec![1, 2, 3], &[]), vec![1, 2, 3]);
    assert_eq!(make_prefixed_key(vec![], &[]), Vec::<u8>::new());
}

#[test]
fn byte_order_is_lexicographic() {
    assert!(bytes_less(&[], &[0]));
    assert!(!bytes_less(&[], &[]));
    assert!(!bytes_less(&[0], &[]));
    assert!(bytes_less(&[1, 2], &[1, 3]));
    assert!(bytes_less(&[1, 2], &[1, 2, 0]));
    assert!(!bytes_less(&[1, 2, 0], &[1, 2]));
    assert!(bytes_less(&[1, 255], &[2]));
    assert!(!bytes_less(&[2], &[1, 255]));
    assert!(!bytes_less(&[7, 7], &[7, 7]));
}

#[test]
fn byte_order_agrees_with_slices() {
    let samples: [&[u8]; 6] = [&[], &[0], &[0, 0], &[0, 1], &[1], &[255, 0]];
    for a in samples {
        for b in samples {
            assert_eq!(bytes_less(a, b), a < b);
            assert_eq!(bytes_equal(a, b), a == b);
        }
    }
}

#[test]
fn prefix_test_and_strip() {
    assert!(starts_with(&[1, 2, 3], &[1, 2]));
    assert!(starts_with(&[1, 2, 3], &[]));
    assert!(starts_with(&[1, 2, 3], &[1, 2, 3]));
    assert!(!starts_with(&[1, 2], &[1, 2, 3]));
    assert!(!starts_with(&[1, 2, 3], &[2]));
    assert_eq!(strip_prefix(&[1, 2, 3], 2), vec![3]);
    assert_eq!(strip_prefix(&[1, 2, 3], 0), vec![1, 2, 3]);
    assert_eq!(strip_prefix(&[1, 2, 3], 3), Vec::<u8>::new());
    assert_eq!(copy_bytes(&[9, 8]), vec![9, 8]);
}
