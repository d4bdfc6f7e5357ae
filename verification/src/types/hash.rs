//! Hashing of byte strings.

use vstd::prelude::*;
use crate::bytes::{array_of, lemma_array_of_view};
use crate::crypto::{sha3_256, sha3_digest};
use crate::types::Digest;

verus! {

/// A hash function from byte strings to 32-byte digests.
pub trait Hash {
    /// The digest of `s`.
    spec fn digest(s: Seq<u8>) -> Seq<u8>;

    fn hash(s: &[u8]) -> (out: [u8; 32])
        ensures
            out@ == Self::digest(s@),
    ;
}

/// SHA3-256.
#[derive(Clone, Copy, Debug)]
pub struct Sha3Hasher;

impl Hash for Sha3Hasher {
    open spec fn digest(s: Seq<u8>) -> Seq<u8> {
        sha3_256(s)
    }

    fn hash(s: &[u8]) -> (out: [u8; 32]) {
        sha3_digest(s)
    }
}

/// The SHA3-256 digest of `data`, as the ledger holds digests.
pub open spec fn digest_of(data: Seq<u8>) -> Digest {
    array_of::<32>(sha3_256(data))
}

/// The SHA3-256 digest of `data`.
pub fn digest(data: &[u8]) -> (d: Digest)
    ensures
        d == digest_of(data@),
{
    let d = Sha3Hasher::hash(data);
    proof {
        lemma_array_of_view(d);
    }
    d
}

} // verus!
