//! SHA-1 digests, computed by the `crypto` crate.

use vstd::prelude::*;
use crypto::digest::Digest;
use crypto::sha1::Sha1;

verus! {

/// The SHA-1 digest of `data`: what `Sha1` of the `crypto` crate computes.
pub uninterp spec fn sha1(data: Seq<u8>) -> Seq<u8>;

/// Longest input, in bytes, that the hasher takes: its bit counter has 64
/// bits.
pub open spec fn hashable(data: Seq<u8>) -> bool {
    data.len() < 0x2000_0000_0000_0000
}

/// `Sha1::new`, `Digest::input` and `Digest::result` of the `crypto` crate:
/// a fresh hasher is fed `data` once and its 20-byte digest is read out. The
/// digest depends on the bytes alone. The hasher panics where the length in
/// bits overflows 64 bits, which `hashable` rules out.
#[verifier::external_body]
pub(crate) fn sha1_digest(data: &[u8]) -> (r: [u8; 20])
    requires
        hashable(data@),
    ensures
        r@ == sha1(data@),
{
    let mut hasher = Sha1::new();
    hasher.input(data);
    let mut out = [0u8; 20];
    hasher.result(&mut out);
    out
}

/// Whether two hashes are the same bytes.
pub fn same_hash(a: &[u8; 20], b: &[u8; 20]) -> (r: bool)
    ensures
        r == (a@ == b@),
{
    let mut i: usize = 0;
    while i < 20
        invariant
            i <= 20,
            forall|j: int| 0 <= j < i ==> a@[j] == b@[j],
        decreases 20 - i,
    {
        if a[i] != b[i] {
            return false;
        }
        i += 1;
    }
    proof {
        assert(a@ =~= b@);
    }
    true
}

} // verus!
