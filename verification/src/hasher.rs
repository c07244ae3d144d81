//! Deterministic hashing of byte strings to 64-bit ring identifiers: the
//! first eight bytes of a SHA-256 digest, read big-endian. Every peer must
//! compute the same function for the overlay to cohere.

use vstd::prelude::*;

use sha2::Digest;

verus! {

/// The SHA-256 digest of a byte string. The digest is a function of the
/// bytes alone; what it is on given bytes is known only to the hash
/// implementation.
pub uninterp spec fn sha256_of(bytes: Seq<u8>) -> Seq<u8>;

/// Relies on sha2's `Sha256::digest`: a 32-byte digest computed from the
/// input bytes alone, identical across processes and machines.
#[verifier::external_body]
fn sha256_digest(bytes: &[u8]) -> (r: Vec<u8>)
    ensures
        r@ == sha256_of(bytes@),
        r@.len() == 32,
{
    sha2::Sha256::digest(bytes).to_vec()
}

/// The big-endian reading of a byte string as an unsigned number.
pub open spec fn spec_u64_from_be(s: Seq<u8>) -> u64
    recommends
        s.len() <= 8,
    decreases s.len(),
{
    if s.len() == 0 {
        0
    } else {
        (spec_u64_from_be(s.drop_last()) * 256 + s.last()) as u64
    }
}

/// The big-endian reading of `n` bytes is below `2^(8n)`.
proof fn lemma_u64_from_be_bound(s: Seq<u8>)
    requires
        s.len() <= 8,
    ensures
        spec_u64_from_be(s) < vstd::arithmetic::power2::pow2(8 * s.len()),
    decreases s.len(),
{
    vstd::arithmetic::power2::lemma2_to64();
    if s.len() > 0 {
        lemma_u64_from_be_bound(s.drop_last());
        vstd::arithmetic::power2::lemma_pow2_adds(8 * (s.len() - 1) as nat, 8);
    }
}

/// The identifier derived from a byte string: the first eight digest bytes,
/// read big-endian.
pub open spec fn spec_hash_once(bytes: Seq<u8>) -> u64 {
    spec_u64_from_be(sha256_of(bytes).subrange(0, 8))
}

/// The hasher that derives ring identifiers from byte strings.
#[derive(Debug)]
pub struct Sha256Hasher;

impl Sha256Hasher {
    /// Hashes `bytes` to a 64-bit ring identifier.
    pub fn hash_once(bytes: &[u8]) -> (r: u64)
        ensures
            r == spec_hash_once(bytes@),
    {
        let digest = sha256_digest(bytes);
        let ghost prefix = digest@.subrange(0, 8);
        let mut acc: u64 = 0;
        let mut i: usize = 0;
        while i < 8
            invariant
                digest@.len() == 32,
                prefix == digest@.subrange(0, 8),
                0 <= i <= 8,
                acc == spec_u64_from_be(prefix.take(i as int)),
            decreases 8 - i,
        {
            proof {
                lemma_u64_from_be_bound(prefix.take(i as int));
                vstd::arithmetic::power2::lemma_pow2_adds(8 * (i as nat), 8);
                if i < 7 {
                    vstd::arithmetic::power2::lemma_pow2_strictly_increases(
                        8 * (i as nat) + 8,
                        64,
                    );
                }
                vstd::arithmetic::power2::lemma2_to64();
                vstd::arithmetic::power2::lemma2_to64_rest();
                assert(prefix.take(i + 1).drop_last() =~= prefix.take(i as int));
                assert(prefix.take(i + 1).last() == digest@[i as int]);
            }
            acc = acc * 256 + (digest[i] as u64);
            i = i + 1;
        }
        proof {
            assert(prefix.take(8) =~= prefix);
        }
        acc
    }

    /// Hashes `bytes` and returns the eight identifier bytes themselves.
    pub fn hash_once_to_vec(bytes: &[u8]) -> (r: Vec<u8>)
        ensures
            r@ == sha256_of(bytes@).subrange(0, 8),
            r@.len() == 8,
    {
        let digest = sha256_digest(bytes);
        let mut r: Vec<u8> = Vec::new();
        let mut i: usize = 0;
        while i < 8
            invariant
                digest@.len() == 32,
                0 <= i <= 8,
                r@ == digest@.subrange(0, i as int),
            decreases 8 - i,
        {
            r.push(digest[i]);
            proof {
                assert(r@ =~= digest@.subrange(0, i + 1));
            }
            i = i + 1;
        }
        r
    }
}

} // verus!
