//! The cryptographic hash behind prefixes and root hashes.
use vstd::prelude::*;

verus! {

/// The width of a hash, and so of every prefix and root hash.
pub const HASH_LENGTH: usize = 32;

/// The BLAKE3 digest of `input`.
pub uninterp spec fn digest_of(input: Seq<u8>) -> Seq<u8>;

/// The hash of `input`: its BLAKE3 digest. The digest has `HASH_LENGTH`
/// bytes; so that every hash has that width whatever is known of the
/// digest, zeros stand in for a digest of another width.
pub open spec fn hash_of(input: Seq<u8>) -> Seq<u8> {
    if digest_of(input).len() == HASH_LENGTH {
        digest_of(input)
    } else {
        Seq::new(HASH_LENGTH as nat, |i: int| 0u8)
    }
}

/// `blake3::hash`: the digest of `input` in the default output size. The
/// contract names the digest; that it has 32 bytes is the type of the
/// function's result.
#[verifier::external_body]
fn blake3_digest(input: &[u8]) -> (out: [u8; 32])
    ensures
        out@ == digest_of(input@),
{
    *blake3::hash(input).as_bytes()
}

/// The hash of `input`.
pub fn hash(input: &[u8]) -> (out: [u8; 32])
    ensures
        out@ == hash_of(input@),
{
    blake3_digest(input)
}

/// A root hash that may be absent, as bytes.
pub open spec fn root_view(root: Option<[u8; 32]>) -> Option<Seq<u8>> {
    match root {
        Some(hash) => Some(hash@),
        None => None,
    }
}

/// `bytes` as a hash, if they have the width of one.
pub fn hash_from_bytes(bytes: &[u8]) -> (hash: Option<[u8; 32]>)
    ensures
        hash is Some <==> bytes@.len() == HASH_LENGTH,
        hash is Some ==> hash.unwrap()@ == bytes@,
{
    if bytes.len() != HASH_LENGTH {
        return None;
    }
    let mut hash: [u8; 32] = [0u8; 32];
    let mut i: usize = 0;
    while i < 32
        invariant
            i <= 32,
            bytes@.len() == 32,
            forall|j: int| 0 <= j < i ==> hash@[j] == bytes@[j],
        decreases 32 - i,
    {
        hash[i] = bytes[i];
        i += 1;
    }
    assert(hash@ =~= bytes@);
    Some(hash)
}

} // verus!
