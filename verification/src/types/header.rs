//! What a header is worth: its hash, and the proof of work in it.

use vstd::prelude::*;
use vstd::arithmetic::div_mod::lemma_div_is_ordered_by_denominator;
use crate::bytes::push_bytes;
use crate::codec::{enc_header, encode_header};
use crate::types::hash::{digest, digest_of};
use crate::types::{Digest, Header};

verus! {

/// The first four bytes of a digest, read as a big-endian number.
pub open spec fn hash_prefix(d: Digest) -> int {
    d[0] * 16777216 + d[1] * 65536 + d[2] * 256 + d[3]
}

/// The work that a proof-of-work hash stands for: the number of attempts
/// expected until a hash with a prefix this small or smaller turns up.
pub open spec fn hash_work(prefix: int) -> int {
    4294967296int / (prefix + 1)
}

/// A smaller hash stands for at least as much work, and every hash for some.
pub proof fn lemma_work_monotone(harder: Digest, easier: Digest)
    requires
        hash_prefix(harder) <= hash_prefix(easier),
    ensures
        hash_work(hash_prefix(harder)) >= hash_work(hash_prefix(easier)) >= 1,
        hash_work(hash_prefix(harder)) <= 4294967296,
{
    let a = hash_prefix(harder);
    let b = hash_prefix(easier);
    lemma_div_is_ordered_by_denominator(4294967296, a + 1, b + 1);
    lemma_div_is_ordered_by_denominator(4294967296, b + 1, 4294967296);
    lemma_div_is_ordered_by_denominator(4294967296, 1, a + 1);
}

/// Whether a proof-of-work hash is within a difficulty target: its prefix
/// is at most the target.
pub fn hash_meets_target(d: &Digest, target: u32) -> (ok: bool)
    ensures
        ok == (hash_prefix(*d) <= target),
{
    let prefix: u64 = (d[0] as u64) * 16777216 + (d[1] as u64) * 65536 + (d[2] as u64) * 256 + (
    d[3] as u64);
    prefix <= target as u64
}

/// The work that a proof-of-work hash stands for.
pub fn hash_power(d: &Digest) -> (power: u64)
    ensures
        power == hash_work(hash_prefix(*d)),
        1 <= power <= 4294967296,
{
    let prefix: u64 = (d[0] as u64) * 16777216 + (d[1] as u64) * 65536 + (d[2] as u64) * 256 + (
    d[3] as u64);
    proof {
        lemma_work_monotone(*d, *d);
    }
    4294967296u64 / (prefix + 1)
}

/// The hash of a header.
pub open spec fn header_digest(h: Header) -> Digest {
    digest_of(enc_header(h))
}

/// The proof-of-work hash of a header under a key: the digest of the key
/// followed by the header.
pub open spec fn pow_digest(h: Header, key: Seq<u8>) -> Digest {
    digest_of(key + enc_header(h))
}

pub open spec fn header_meets_target(h: Header, key: Seq<u8>) -> bool {
    hash_prefix(pow_digest(h, key)) <= h.proof_of_work.target
}

pub open spec fn header_power(h: Header, key: Seq<u8>) -> int {
    hash_work(hash_prefix(pow_digest(h, key)))
}

impl Header {
    pub fn hash(&self) -> (d: Digest)
        ensures
            d == header_digest(*self),
    {
        let bytes = encode_header(self);
        digest(bytes.as_slice())
    }

    /// The proof-of-work hash under `key`.
    pub fn pow_hash(&self, key: &[u8]) -> (d: Digest)
        ensures
            d == pow_digest(*self, key@),
    {
        let mut bytes: Vec<u8> = Vec::new();
        push_bytes(&mut bytes, key);
        let encoded = encode_header(self);
        push_bytes(&mut bytes, encoded.as_slice());
        assert(bytes@ =~= key@ + enc_header(*self));
        digest(bytes.as_slice())
    }

    /// The work that went into this header, under `key`.
    pub fn power(&self, key: &[u8]) -> (power: u64)
        ensures
            power == header_power(*self, key@),
            1 <= power <= 4294967296,
    {
        let d = self.pow_hash(key);
        hash_power(&d)
    }

    /// Whether the proof of work is within the header's own target, under `key`.
    pub fn meets_target(&self, key: &[u8]) -> (ok: bool)
        ensures
            ok == header_meets_target(*self, key@),
    {
        let d = self.pow_hash(key);
        hash_meets_target(&d, self.proof_of_work.target)
    }
}

} // verus!
