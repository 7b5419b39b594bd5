//! Fixed-size digests and the empty-subtree sentinel.
use vstd::prelude::*;

verus! {

/// Length of a digest in bytes.
pub const HASH_LEN: usize = 32;

/// A SHA-512/256 digest.
pub type Digest = [u8; 32];

/// The SHA-512/256 digest of a byte string.
pub uninterp spec fn sha512_256_of(b: Seq<u8>) -> Seq<u8>;

/// The empty-hash sentinel: the digest of the empty byte string, which is not
/// the encoding of any node.
pub open spec fn empty_hash_spec() -> Seq<u8> {
    sha512_256_of(Seq::empty())
}

/// Relies on `sha2::Sha512_256::digest`: the 32-byte digest of the input,
/// which depends on the input bytes alone.
#[verifier::external_body]
fn sha512_256(b: &[u8]) -> (r: Digest)
    ensures
        r@ == sha512_256_of(b@),
{
    <sha2::Sha512_256 as sha2::Digest>::digest(b).into()
}

/// The digest of a byte string.
pub fn digest_bytes(b: &[u8]) -> (r: Digest)
    ensures
        r@ == sha512_256_of(b@),
{
    sha512_256(b)
}

/// The empty-hash sentinel.
pub fn empty_hash() -> (r: Digest)
    ensures
        r@ == empty_hash_spec(),
{
    let e: Vec<u8> = Vec::new();
    proof {
        assert(e@ =~= Seq::<u8>::empty());
    }
    digest_bytes(e.as_slice())
}

/// Byte-wise equality of two digests.
pub fn hash_eq(a: &Digest, b: &Digest) -> (r: bool)
    ensures
        r == (a@ == b@),
{
    let mut i: usize = 0;
    while i < HASH_LEN
        invariant
            i <= HASH_LEN,
            a@.len() == HASH_LEN,
            b@.len() == HASH_LEN,
            forall|j: int| 0 <= j < i ==> a@[j] == b@[j],
        decreases HASH_LEN - i,
    {
        if a[i] != b[i] {
            return false;
        }
        i = i + 1;
    }
    proof {
        assert(a@ =~= b@);
    }
    true
}

/// Whether a digest is the empty-hash sentinel.
pub fn is_empty_hash(h: &Digest) -> (r: bool)
    ensures
        r == (h@ == empty_hash_spec()),
{
    let e = empty_hash();
    hash_eq(h, &e)
}

} // verus!
