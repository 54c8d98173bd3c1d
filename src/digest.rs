use vstd::prelude::*;
use sha1::{Digest, Sha1};

verus! {

/// The SHA-1 digest of a byte string.
pub uninterp spec fn sha1_of(b: Seq<u8>) -> Seq<u8>;

/// Relies on the sha1 crate (`Sha1::new`, `update`, `finalize`): the
/// digest of the bytes given, which depends on those bytes alone.
#[verifier::external_body]
fn sha1_digest(src: &[u8]) -> (r: [u8; 20])
    ensures
        r@ == sha1_of(src@),
{
    let mut hasher = Sha1::new();
    hasher.update(src);
    hasher.finalize().into()
}

/// The SHA-1 digest of `src`.
pub fn make_sha1(src: &[u8]) -> (r: [u8; 20])
    ensures
        r@ == sha1_of(src@),
{
    sha1_digest(src)
}

/// Whether two digests are the same.
pub fn is_equal_sha1(left: &[u8; 20], right: &[u8; 20]) -> (r: bool)
    ensures
        r == (left@ == right@),
{
    is_equal_sha1_slice(left, right)
}

/// Whether two byte strings are the same.
pub fn is_equal_sha1_slice(left: &[u8], right: &[u8]) -> (r: bool)
    ensures
        r == (left@ == right@),
{
    if left.len() != right.len() {
        return false;
    }
    let mut i: usize = 0;
    while i < left.len()
        invariant
            i <= left.len(),
            left.len() == right.len(),
            forall|j: int| 0 <= j < i ==> left@[j] == right@[j],
        decreases left.len() - i,
    {
        if left[i] != right[i] {
            return false;
        }
        i = i + 1;
    }
    assert(left@ =~= right@);
    true
}

} // verus!
