use grovedb::{Element, Error};

fn le(n: u64) -> Vec<u8> {
    n.to_le_bytes().to_vec()
}

#[test]
fn item_is_tag_one_then_the_bytes() {
    assert_eq!(Element::Item(b"xy".to_vec()).encode(), vec![1, b'x', b'y']);
    assert_eq!(Element::Item(vec![]).encode(), vec![1]);
    assert_eq!(Element::decode(&[1, b'x', b'y']), Ok(Element::Item(b"xy".to_vec())));
    assert_eq!(Element::decode(&[1]), Ok(Element::Item(vec![])));
}

#[test]
fn reference_is_tag_two_then_segments_then_key() {
    let reference = Element::Reference(vec![b"ab".to_vec(), b"".to_vec()], b"key".to_vec());
    let mut expected = vec![2u8];
    expected.extend(le(2));
    expected.extend(le(2));
    expected.extend_from_slice(b"ab");
    expected.extend(le(0));
    expected.extend_from_slice(b"key");
    assert_eq!(reference.encode(), expected);
    assert_eq!(Element::decode(&expected), Ok(reference));

    let top = Element::Reference(vec![], b"k".to_vec());
    let mut expected = vec![2u8];
    expected.extend(le(0));
    expected.push(b'k');
    assert_eq!(top.encode(), expected);
    assert_eq!(Element::decode(&expected), Ok(top));
}

#[test]
fn tree_is_tag_three_then_root_hash_or_marker() {
    assert_eq!(Element::Tree(None).encode(), vec![3, 0]);
    assert_eq!(Element::decode(&[3, 0]), Ok(Element::Tree(None)));
    let mut hash = [0u8; 32];
    for (i, byte) in hash.iter_mut().enumerate() {
        *byte = i as u8;
    }
    let mut expected = vec![3u8];
    expected.extend_from_slice(&hash);
    assert_eq!(Element::Tree(Some(hash)).encode(), expected);
    assert_eq!(Element::decode(&expected), Ok(Element::Tree(Some(hash))));
}

#[test]
fn decode_gives_back_what_was_encoded() {
    let elements = vec![
        Element::Item(vec![]),
        Element::Item(vec![0, 1, 2, 3]),
        Element::Item(vec![3, 0]),
        Element::Reference(vec![], vec![]),
        Element::Reference(vec![vec![], vec![1], vec![2, 2]], vec![9]),
        Element::Reference(vec![vec![0; 300]], vec![0; 5]),
        Element::Tree(None),
        Element::Tree(Some([0u8; 32])),
        Element::Tree(Some([255u8; 32])),
    ];
    for element in elements {
        assert_eq!(Element::decode(&element.encode()), Ok(element));
    }
}

#[test]
fn unknown_tag_is_corrupted_data() {
    assert_eq!(Element::decode(&[]), Err(Error::CorruptedData));
    assert_eq!(Element::decode(&[0]), Err(Error::CorruptedData));
    assert_eq!(Element::decode(&[4, 1, 2]), Err(Error::CorruptedData));
    assert_eq!(Element::decode(&[255]), Err(Error::CorruptedData));
}

#[test]
fn malformed_tree_is_corrupted_data() {
    assert_eq!(Element::decode(&[3]), Err(Error::CorruptedData));
    assert_eq!(Element::decode(&[3, 1]), Err(Error::CorruptedData));
    assert_eq!(Element::decode(&[3, 0, 0]), Err(Error::CorruptedData));
    assert_eq!(Element::decode(&[3; 32]), Err(Error::CorruptedData));
    assert_eq!(Element::decode(&[3; 34]), Err(Error::CorruptedData));
    assert!(Element::decode(&[3; 33]).is_ok());
}

#[test]
fn malformed_reference_is_corrupted_data() {
    assert_eq!(Element::decode(&[2]), Err(Error::CorruptedData));
    assert_eq!(Element::decode(&[2, 0, 0, 0]), Err(Error::CorruptedData));
    // one segment announced, none there
    let mut bytes = vec![2u8];
    bytes.extend(le(1));
    assert_eq!(Element::decode(&bytes), Err(Error::CorruptedData));
    // a segment longer than what is left
    let mut bytes = vec![2u8];
    bytes.extend(le(1));
    bytes.extend(le(5));
    bytes.extend_from_slice(b"abcd");
    assert_eq!(Element::decode(&bytes), Err(Error::CorruptedData));
    // a count that the bytes cannot hold
    let mut bytes = vec![2u8];
    bytes.extend(le(u64::MAX));
    bytes.extend(le(0));
    assert_eq!(Element::decode(&bytes), Err(Error::CorruptedData));
    // a segment length that the bytes cannot hold
    let mut bytes = vec![2u8];
    bytes.extend(le(1));
    bytes.extend(le(u64::MAX));
    assert_eq!(Element::decode(&bytes), Err(Error::CorruptedData));
}
