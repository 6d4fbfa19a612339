//! Paths and their prefixes: a path is encoded with each segment behind its
//! length, and the hash of that encoding is the prefix under which the
//! subtree's entries are stored.
use vstd::prelude::*;
use vstd::bytes::{
    lemma_auto_spec_u64_to_from_le_bytes, spec_u64_from_le_bytes, spec_u64_to_le_bytes,
    u64_to_le_bytes,
};
use crate::bytes::copy_bytes;
use crate::hash::{hash, hash_of, HASH_LENGTH};

verus! {

/// A path as a sequence of byte strings.
pub type PathView = Seq<Seq<u8>>;

/// The view of a path held as slices.
pub open spec fn path_view(path: Seq<&[u8]>) -> PathView {
    Seq::new(path.len(), |i: int| path[i]@)
}

/// The view of a path held as vectors.
pub open spec fn owned_path_view(path: Seq<Vec<u8>>) -> PathView {
    Seq::new(path.len(), |i: int| path[i]@)
}

/// One segment behind its length, the length as eight little-endian bytes.
pub open spec fn encode_segment(segment: Seq<u8>) -> Seq<u8> {
    spec_u64_to_le_bytes(segment.len() as u64) + segment
}

/// The segments of `path`, each behind its length.
pub open spec fn encode_path(path: PathView) -> Seq<u8>
    decreases path.len(),
{
    if path.len() == 0 {
        Seq::empty()
    } else {
        encode_segment(path[0]) + encode_path(path.drop_first())
    }
}

/// Every segment of `path` has a length that eight bytes can hold.
pub open spec fn segments_bounded(path: PathView) -> bool {
    forall|i: int| 0 <= i < path.len() ==> (#[trigger] path[i]).len() <= u64::MAX
}

/// The prefix of the subtree at `path`.
pub open spec fn prefix_of(path: PathView) -> Seq<u8> {
    hash_of(encode_path(path))
}

/// Every prefix has the width of a hash.
pub proof fn lemma_prefix_length(path: PathView)
    ensures
        prefix_of(path).len() == HASH_LENGTH,
{
}

/// The encoding of a path with one more segment at its end.
pub proof fn lemma_encode_path_push(path: PathView, segment: Seq<u8>)
    ensures
        encode_path(path.push(segment)) == encode_path(path) + encode_segment(segment),
    decreases path.len(),
{
    if path.len() == 0 {
        let one = path.push(segment);
        assert(one.drop_first() =~= Seq::<Seq<u8>>::empty());
        assert(encode_path(one.drop_first()) =~= Seq::<u8>::empty());
        assert(encode_path(path) =~= Seq::<u8>::empty());
        assert(encode_path(one) == encode_segment(one[0]) + encode_path(one.drop_first()));
        assert(encode_path(one) =~= encode_path(path) + encode_segment(segment));
    } else {
        assert(path.push(segment).drop_first() =~= path.drop_first().push(segment));
        lemma_encode_path_push(path.drop_first(), segment);
        assert(encode_path(path.push(segment)) =~= encode_path(path) + encode_segment(segment));
    }
}

/// Length-delimiting makes the encoding unambiguous: two paths with the same
/// encoding are the same path.
pub proof fn lemma_encode_path_injective(a: PathView, b: PathView)
    requires
        segments_bounded(a),
        segments_bounded(b),
        encode_path(a) == encode_path(b),
    ensures
        a == b,
    decreases a.len(),
{
    lemma_auto_spec_u64_to_from_le_bytes();
    if a.len() == 0 {
        if b.len() > 0 {
            assert(encode_path(b).len() >= 8);
        }
        assert(a =~= b);
    } else {
        if b.len() == 0 {
            assert(encode_path(a).len() >= 8);
        }
        let ea = encode_path(a);
        let eb = encode_path(b);
        let la = spec_u64_to_le_bytes(a[0].len() as u64);
        let lb = spec_u64_to_le_bytes(b[0].len() as u64);
        assert(ea.subrange(0, 8) =~= la);
        assert(eb.subrange(0, 8) =~= lb);
        assert(spec_u64_from_le_bytes(la) == a[0].len() as u64);
        assert(spec_u64_from_le_bytes(lb) == b[0].len() as u64);
        assert(a[0].len() == b[0].len());
        let n = a[0].len() as int;
        assert(ea.subrange(8, 8 + n) =~= a[0]);
        assert(eb.subrange(8, 8 + n) =~= b[0]);
        assert(ea.subrange(8 + n, ea.len() as int) =~= encode_path(a.drop_first()));
        assert(eb.subrange(8 + n, eb.len() as int) =~= encode_path(b.drop_first()));
        assert(segments_bounded(a.drop_first())) by {
            assert forall|i: int| 0 <= i < a.drop_first().len() implies (
            #[trigger] a.drop_first()[i]).len() <= u64::MAX by {
                assert(a.drop_first()[i] == a[i + 1]);
            }
        }
        assert(segments_bounded(b.drop_first())) by {
            assert forall|i: int| 0 <= i < b.drop_first().len() implies (
            #[trigger] b.drop_first()[i]).len() <= u64::MAX by {
                assert(b.drop_first()[i] == b[i + 1]);
            }
        }
        lemma_encode_path_injective(a.drop_first(), b.drop_first());
        assert(a =~= b) by {
            assert forall|i: int| 0 <= i < a.len() implies a[i] == b[i] by {
                if i > 0 {
                    assert(a[i] == a.drop_first()[i - 1]);
                    assert(b[i] == b.drop_first()[i - 1]);
                }
            }
        }
    }
}

/// Appends `segment` behind its length to `out`.
pub fn push_segment(out: &mut Vec<u8>, segment: &[u8])
    ensures
        final(out)@ == old(out)@ + encode_segment(segment@),
{
    let length = u64_to_le_bytes(segment.len() as u64);
    out.extend_from_slice(length.as_slice());
    out.extend_from_slice(segment);
    assert(out@ =~= old(out)@ + encode_segment(segment@));
}

/// The encoding of `path`.
pub fn path_encoding(path: &[Vec<u8>]) -> (out: Vec<u8>)
    ensures
        out@ == encode_path(owned_path_view(path@)),
{
    let mut out: Vec<u8> = Vec::new();
    let mut i: usize = 0;
    let ghost whole = owned_path_view(path@);
    while i < path.len()
        invariant
            i <= path.len(),
            whole == owned_path_view(path@),
            out@ == encode_path(whole.subrange(0, i as int)),
        decreases path.len() - i,
    {
        push_segment(&mut out, path[i].as_slice());
        proof {
            lemma_encode_path_push(whole.subrange(0, i as int), path[i as int]@);
            assert(whole.subrange(0, i + 1) =~= whole.subrange(0, i as int).push(path[i as int]@));
        }
        i += 1;
    }
    assert(whole.subrange(0, i as int) =~= whole);
    out
}

/// The prefix under which the subtree at `path` keeps its entries.
pub fn path_prefix(path: &[Vec<u8>]) -> (prefix: Vec<u8>)
    ensures
        prefix@ == prefix_of(owned_path_view(path@)),
        prefix@.len() == HASH_LENGTH,
{
    let encoding = path_encoding(path);
    let digest = hash(encoding.as_slice());
    copy_bytes(digest.as_slice())
}

/// A copy of `path` that owns its segments.
pub fn to_owned_path(path: &[&[u8]]) -> (owned: Vec<Vec<u8>>)
    ensures
        owned_path_view(owned@) == path_view(path@),
{
    let mut owned: Vec<Vec<u8>> = Vec::new();
    let mut i: usize = 0;
    while i < path.len()
        invariant
            i <= path.len(),
            owned@.len() == i,
            forall|j: int| 0 <= j < i ==> (#[trigger] owned@[j])@ == path@[j]@,
        decreases path.len() - i,
    {
        owned.push(copy_bytes(path[i]));
        i += 1;
    }
    assert(owned_path_view(owned@) =~= path_view(path@));
    owned
}

/// A copy of `path`.
pub fn clone_path(path: &[Vec<u8>]) -> (copy: Vec<Vec<u8>>)
    ensures
        owned_path_view(copy@) == owned_path_view(path@),
{
    let mut copy: Vec<Vec<u8>> = Vec::new();
    let mut i: usize = 0;
    while i < path.len()
        invariant
            i <= path.len(),
            copy@.len() == i,
            forall|j: int| 0 <= j < i ==> (#[trigger] copy@[j])@ == path@[j]@,
        decreases path.len() - i,
    {
        copy.push(copy_bytes(path[i].as_slice()));
        i += 1;
    }
    assert(owned_path_view(copy@) =~= owned_path_view(path@));
    copy
}

} // verus!
