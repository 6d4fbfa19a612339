//! Elements and their stored form: one tag byte, then what the variant holds.
use vstd::prelude::*;
use vstd::bytes::{
    lemma_auto_spec_u64_to_from_le_bytes, spec_u64_from_le_bytes, spec_u64_to_le_bytes,
    u64_from_le_bytes, u64_to_le_bytes,
};
use vstd::slice::slice_subrange;
use crate::bytes::copy_bytes;
use crate::error::Error;
use crate::hash::{hash_from_bytes, HASH_LENGTH};
use crate::path::{
    clone_path, encode_path, encode_segment, owned_path_view, path_encoding, segments_bounded,
    PathView,
};

verus! {

/// The tag of an item.
pub const ITEM_TAG: u8 = 1;

/// The tag of a reference.
pub const REFERENCE_TAG: u8 = 2;

/// The tag of a tree.
pub const TREE_TAG: u8 = 3;

/// What a tree holds in place of a root hash while its subtree is empty.
pub const EMPTY_TREE_MARKER: u8 = 0;

/// A value stored under a key of a subtree.
#[derive(Debug, PartialEq, Eq)]
pub enum Element {
    /// A leaf value.
    Item(Vec<u8>),
    /// A pointer to the element under a key of the subtree at a path.
    Reference(Vec<Vec<u8>>, Vec<u8>),
    /// A nested subtree, with its root hash unless it is empty.
    Tree(Option<[u8; 32]>),
}

/// An element as a mathematical value.
pub enum ElementView {
    Item(Seq<u8>),
    Reference(PathView, Seq<u8>),
    Tree(Option<Seq<u8>>),
}

impl View for Element {
    type V = ElementView;

    open spec fn view(&self) -> ElementView {
        match *self {
            Element::Item(bytes) => ElementView::Item(bytes@),
            Element::Reference(path, key) => ElementView::Reference(owned_path_view(path@), key@),
            Element::Tree(Some(root)) => ElementView::Tree(Some(root@)),
            Element::Tree(None) => ElementView::Tree(None),
        }
    }
}

/// What the stored form can hold: lengths that fit in eight bytes, and a root
/// hash of the width of a hash.
pub open spec fn valid_element(e: ElementView) -> bool {
    match e {
        ElementView::Item(_) => true,
        ElementView::Reference(path, _) => path.len() <= u64::MAX && segments_bounded(path),
        ElementView::Tree(Some(root)) => root.len() == HASH_LENGTH,
        ElementView::Tree(None) => true,
    }
}

/// The stored form of `e`.
pub open spec fn encode_element(e: ElementView) -> Seq<u8> {
    match e {
        ElementView::Item(bytes) => seq![ITEM_TAG] + bytes,
        ElementView::Reference(path, key) => seq![REFERENCE_TAG] + spec_u64_to_le_bytes(
            path.len() as u64,
        ) + encode_path(path) + key,
        ElementView::Tree(Some(root)) => seq![TREE_TAG] + root,
        ElementView::Tree(None) => seq![TREE_TAG, EMPTY_TREE_MARKER],
    }
}

/// Reads `n` segments, each behind its length, from the front of `b`, behind
/// the segments `acc` read before; what is left of `b` is the key.
pub open spec fn parse_segments(b: Seq<u8>, n: nat, acc: PathView) -> Option<(PathView, Seq<u8>)>
    decreases n,
{
    if n == 0 {
        Some((acc, b))
    } else if b.len() < 8 {
        None
    } else {
        let len = spec_u64_from_le_bytes(b.subrange(0, 8)) as int;
        if b.len() - 8 < len {
            None
        } else {
            parse_segments(
                b.subrange(8 + len, b.len() as int),
                (n - 1) as nat,
                acc.push(b.subrange(8, 8 + len)),
            )
        }
    }
}

/// The element that `b` is the stored form of, if it is one.
pub open spec fn decode_element(b: Seq<u8>) -> Option<ElementView> {
    if b.len() == 0 {
        None
    } else if b[0] == ITEM_TAG {
        Some(ElementView::Item(b.subrange(1, b.len() as int)))
    } else if b[0] == REFERENCE_TAG {
        if b.len() < 9 {
            None
        } else {
            match parse_segments(
                b.subrange(9, b.len() as int),
                spec_u64_from_le_bytes(b.subrange(1, 9)) as nat,
                Seq::empty(),
            ) {
                Some((path, key)) => Some(ElementView::Reference(path, key)),
                None => None,
            }
        }
    } else if b[0] == TREE_TAG {
        if b.len() == 2 && b[1] == EMPTY_TREE_MARKER {
            Some(ElementView::Tree(None))
        } else if b.len() == 1 + HASH_LENGTH {
            Some(ElementView::Tree(Some(b.subrange(1, b.len() as int))))
        } else {
            None
        }
    } else {
        None
    }
}

/// Reading back the encoding of a path, with a key behind it, gives the path
/// and the key.
pub proof fn lemma_parse_encoded_path(path: PathView, key: Seq<u8>, acc: PathView)
    requires
        segments_bounded(path),
    ensures
        parse_segments(encode_path(path) + key, path.len(), acc) == Some((acc + path, key)),
    decreases path.len(),
{
    lemma_auto_spec_u64_to_from_le_bytes();
    let b = encode_path(path) + key;
    if path.len() == 0 {
        assert(b =~= key);
        assert(acc + path =~= acc);
    } else {
        let first = path[0];
        let rest = path.drop_first();
        let len = first.len() as int;
        assert(b.subrange(0, 8) =~= spec_u64_to_le_bytes(first.len() as u64));
        assert(b.subrange(8, 8 + len) =~= first);
        assert(b.subrange(8 + len, b.len() as int) =~= encode_path(rest) + key);
        assert(segments_bounded(rest)) by {
            assert forall|i: int| 0 <= i < rest.len() implies (#[trigger] rest[i]).len()
                <= u64::MAX by {
                assert(rest[i] == path[i + 1]);
            }
        }
        lemma_parse_encoded_path(rest, key, acc.push(first));
        assert(acc.push(first) + rest =~= acc + path);
    }
}

/// Decoding the stored form of an element gives the element back.
pub proof fn lemma_decode_encode(e: ElementView)
    requires
        valid_element(e),
    ensures
        decode_element(encode_element(e)) == Some(e),
{
    lemma_auto_spec_u64_to_from_le_bytes();
    let b = encode_element(e);
    match e {
        ElementView::Item(bytes) => {
            assert(b.subrange(1, b.len() as int) =~= bytes);
        },
        ElementView::Reference(path, key) => {
            assert(b.subrange(1, 9) =~= spec_u64_to_le_bytes(path.len() as u64));
            assert(b.subrange(9, b.len() as int) =~= encode_path(path) + key);
            lemma_parse_encoded_path(path, key, Seq::empty());
            assert(Seq::<Seq<u8>>::empty() + path =~= path);
        },
        ElementView::Tree(Some(root)) => {
            assert(b.subrange(1, b.len() as int) =~= root);
        },
        ElementView::Tree(None) => {},
    }
}

/// Bytes from which segments can be read are the encoding of those
/// segments, with the key behind it.
pub proof fn lemma_parsed_is_encoded(b: Seq<u8>, n: nat, acc: PathView)
    requires
        parse_segments(b, n, acc) is Some,
    ensures
        ({
            let (path, key) = parse_segments(b, n, acc).unwrap();
            let read = path.subrange(acc.len() as int, path.len() as int);
            &&& path.len() == acc.len() + n
            &&& path == acc + read
            &&& segments_bounded(read)
            &&& b == encode_path(read) + key
        }),
    decreases n,
{
    lemma_auto_spec_u64_to_from_le_bytes();
    let (path, key) = parse_segments(b, n, acc).unwrap();
    let read = path.subrange(acc.len() as int, path.len() as int);
    if n == 0 {
        assert(read =~= Seq::<Seq<u8>>::empty());
        assert(path =~= acc + read);
        assert(b =~= encode_path(read) + key);
    } else {
        let len = spec_u64_from_le_bytes(b.subrange(0, 8)) as int;
        let segment = b.subrange(8, 8 + len);
        let rest = b.subrange(8 + len, b.len() as int);
        let longer = acc.push(segment);
        lemma_parsed_is_encoded(rest, (n - 1) as nat, longer);
        let tail = path.subrange(longer.len() as int, path.len() as int);
        assert(path == longer + tail);
        assert(read =~= seq![segment] + tail);
        assert(path =~= acc + read);
        assert(read[0] == segment);
        assert(read.drop_first() =~= tail);
        assert(segments_bounded(read)) by {
            assert forall|i: int| 0 <= i < read.len() implies (#[trigger] read[i]).len()
                <= u64::MAX by {
                if i > 0 {
                    assert(read[i] == tail[i - 1]);
                }
            }
        }
        assert(spec_u64_to_le_bytes(segment.len() as u64) == b.subrange(0, 8));
        assert(b =~= b.subrange(0, 8) + segment + rest);
        assert(encode_path(read) == encode_segment(segment) + encode_path(tail));
        assert(b =~= encode_path(read) + key);
    }
}

/// Only stored forms decode: bytes that decode to an element are the
/// stored form of that element, which can be stored.
pub proof fn lemma_encode_decode(b: Seq<u8>)
    requires
        decode_element(b) is Some,
    ensures
        valid_element(decode_element(b).unwrap()),
        encode_element(decode_element(b).unwrap()) == b,
{
    lemma_auto_spec_u64_to_from_le_bytes();
    match decode_element(b).unwrap() {
        ElementView::Item(bytes) => {
            assert(b =~= seq![ITEM_TAG] + bytes);
        },
        ElementView::Reference(path, key) => {
            let count = b.subrange(1, 9);
            let rest = b.subrange(9, b.len() as int);
            lemma_parsed_is_encoded(rest, spec_u64_from_le_bytes(count) as nat, Seq::empty());
            assert(path.subrange(0, path.len() as int) =~= path);
            assert(spec_u64_to_le_bytes(path.len() as u64) == count);
            assert(b =~= seq![REFERENCE_TAG] + count + rest);
        },
        ElementView::Tree(Some(root)) => {
            assert(b =~= seq![TREE_TAG] + root);
        },
        ElementView::Tree(None) => {
            assert(b =~= seq![TREE_TAG, EMPTY_TREE_MARKER]);
        },
    }
}

impl Clone for Element {
    /// A copy of the element.
    fn clone(&self) -> (copy: Element)
        ensures
            copy@ == self@,
    {
        match self {
            Element::Item(bytes) => Element::Item(copy_bytes(bytes.as_slice())),
            Element::Reference(path, key) => Element::Reference(
                clone_path(path.as_slice()),
                copy_bytes(key.as_slice()),
            ),
            Element::Tree(Some(root)) => Element::Tree(Some(*root)),
            Element::Tree(None) => Element::Tree(None),
        }
    }
}

impl Element {
    /// Round-trip encoding: decoding the stored form of an element gives
    /// the element back.
    pub proof fn lemma_round_trip(&self)
        ensures
            decode_element(encode_element(self@)) == Some(self@),
    {
        self.lemma_valid();
        lemma_decode_encode(self@);
    }

    /// Every element can be stored.
    pub proof fn lemma_valid(&self)
        ensures
            valid_element(self@),
    {
        match *self {
            Element::Reference(path, _) => {
                assert(path.len() == path@.len());
                assert forall|i: int| 0 <= i < owned_path_view(path@).len() implies (
                #[trigger] owned_path_view(path@)[i]).len() <= u64::MAX by {
                    assert(owned_path_view(path@)[i] == path@[i]@);
                    assert(path@[i].len() == path@[i]@.len());
                }
            },
            _ => {},
        }
    }

    /// The stored form of the element.
    pub fn encode(&self) -> (out: Vec<u8>)
        ensures
            out@ == encode_element(self@),
    {
        let mut out: Vec<u8> = Vec::new();
        match self {
            Element::Item(bytes) => {
                out.push(ITEM_TAG);
                out.extend_from_slice(bytes.as_slice());
                assert(out@ =~= encode_element(self@));
            },
            Element::Reference(path, key) => {
                out.push(REFERENCE_TAG);
                let count = u64_to_le_bytes(path.len() as u64);
                out.extend_from_slice(count.as_slice());
                let segments = path_encoding(path.as_slice());
                out.extend_from_slice(segments.as_slice());
                out.extend_from_slice(key.as_slice());
                assert(out@ =~= encode_element(self@));
            },
            Element::Tree(Some(root)) => {
                out.push(TREE_TAG);
                out.extend_from_slice(root.as_slice());
                assert(out@ =~= encode_element(self@));
            },
            Element::Tree(None) => {
                out.push(TREE_TAG);
                out.push(EMPTY_TREE_MARKER);
                assert(out@ =~= encode_element(self@));
            },
        }
        out
    }

    /// The element that `bytes` is the stored form of. Bytes that are no
    /// stored form are corrupted data.
    pub fn decode(bytes: &[u8]) -> (r: Result<Element, Error>)
        ensures
            match r {
                Ok(element) => decode_element(bytes@) == Some(element@),
                Err(error) => error == Error::CorruptedData && decode_element(bytes@) is None,
            },
    {
        if bytes.len() == 0 {
            return Err(Error::CorruptedData);
        }
        let tag = bytes[0];
        if tag == ITEM_TAG {
            Ok(Element::Item(copy_bytes(slice_subrange(bytes, 1, bytes.len()))))
        } else if tag == REFERENCE_TAG {
            decode_reference(bytes)
        } else if tag == TREE_TAG {
            if bytes.len() == 2 && bytes[1] == EMPTY_TREE_MARKER {
                Ok(Element::Tree(None))
            } else if bytes.len() == 1 + HASH_LENGTH {
                match hash_from_bytes(slice_subrange(bytes, 1, bytes.len())) {
                    Some(root) => Ok(Element::Tree(Some(root))),
                    None => Err(Error::CorruptedData),
                }
            } else {
                Err(Error::CorruptedData)
            }
        } else {
            Err(Error::CorruptedData)
        }
    }
}

/// Decodes the stored form of a reference.
fn decode_reference(bytes: &[u8]) -> (r: Result<Element, Error>)
    requires
        bytes@.len() > 0,
        bytes@[0] == REFERENCE_TAG,
    ensures
        match r {
            Ok(element) => decode_element(bytes@) == Some(element@),
            Err(error) => error == Error::CorruptedData && decode_element(bytes@) is None,
        },
{
    if bytes.len() < 9 {
        return Err(Error::CorruptedData);
    }
    let n = u64_from_le_bytes(slice_subrange(bytes, 1, 9));
    let ghost whole = bytes@.subrange(9, bytes@.len() as int);
    let mut path: Vec<Vec<u8>> = Vec::new();
    let mut pos: usize = 9;
    let mut count: u64 = 0;
    assert(owned_path_view(path@) =~= Seq::<Seq<u8>>::empty());
    assert(bytes@.subrange(pos as int, bytes@.len() as int) == whole);
    while count < n
        invariant
            9 <= pos <= bytes@.len(),
            bytes@[0] == REFERENCE_TAG,
            n == spec_u64_from_le_bytes(bytes@.subrange(1, 9)),
            count <= n,
            whole == bytes@.subrange(9, bytes@.len() as int),
            parse_segments(whole, n as nat, Seq::empty()) == parse_segments(
                bytes@.subrange(pos as int, bytes@.len() as int),
                (n - count) as nat,
                owned_path_view(path@),
            ),
        decreases n - count,
    {
        let ghost b = bytes@.subrange(pos as int, bytes@.len() as int);
        if bytes.len() - pos < 8 {
            assert(parse_segments(b, (n - count) as nat, owned_path_view(path@)) is None);
            return Err(Error::CorruptedData);
        }
        let len = u64_from_le_bytes(slice_subrange(bytes, pos, pos + 8));
        assert(bytes@.subrange(pos as int, pos + 8) =~= b.subrange(0, 8));
        let room = bytes.len() - pos - 8;
        if (room as u64) < len {
            assert(parse_segments(b, (n - count) as nat, owned_path_view(path@)) is None);
            return Err(Error::CorruptedData);
        }
        let width = len as usize;
        let segment = copy_bytes(slice_subrange(bytes, pos + 8, pos + 8 + width));
        proof {
            assert(segment@ =~= b.subrange(8, 8 + len));
            assert(bytes@.subrange(pos + 8 + width, bytes@.len() as int) =~= b.subrange(
                8 + len,
                b.len() as int,
            ));
            assert(owned_path_view(path@.push(segment)) =~= owned_path_view(path@).push(
                segment@,
            ));
        }
        path.push(segment);
        pos = pos + 8 + width;
        count = count + 1;
    }
    let key = copy_bytes(slice_subrange(bytes, pos, bytes.len()));
    Ok(Element::Reference(path, key))
}

} // verus!
