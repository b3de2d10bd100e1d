//! Deterministic, non-cryptographic 64-bit content hashing (FNV-1a).
//!
//! A definition's identity is a digest of its raw file bytes: the digest
//! changes exactly when the bytes change, and two runs over the same bytes
//! always agree.

use vstd::prelude::*;

verus! {

/// FNV-1a offset basis.
pub const FNV_OFFSET: u64 = 0xcbf29ce484222325;

/// FNV-1a prime.
pub const FNV_PRIME: u64 = 0x100000001b3;

/// The FNV-1a digest of `bytes` starting from accumulator `acc`.
pub open spec fn fnv1a_from(acc: u64, bytes: Seq<u8>) -> u64
    decreases bytes.len(),
{
    if bytes.len() == 0 {
        acc
    } else {
        fnv1a_from(mul_wrap(acc ^ (bytes[0] as u64), FNV_PRIME), bytes.skip(1))
    }
}

/// Wrapping 64-bit multiplication, as executable `wrapping_mul` performs it.
pub open spec fn mul_wrap(a: u64, b: u64) -> u64 {
    ((a * b) % 0x10000000000000000) as u64
}

/// The content hash of a byte sequence: FNV-1a from the standard offset basis.
pub open spec fn spec_content_hash(bytes: Seq<u8>) -> u64 {
    fnv1a_from(FNV_OFFSET, bytes)
}

/// Computes the 64-bit FNV-1a digest of the raw bytes of a definition file.
pub fn content_hash(bytes: &Vec<u8>) -> (r: u64)
    ensures
        r == spec_content_hash(bytes@),
{
    let mut acc: u64 = FNV_OFFSET;
    let mut i: usize = 0;
    proof {
        assert(bytes@.skip(0) =~= bytes@);
    }
    while i < bytes.len()
        invariant
            i <= bytes.len(),
            spec_content_hash(bytes@) == fnv1a_from(acc, bytes@.skip(i as int)),
        decreases bytes.len() - i,
    {
        proof {
            assert(bytes@.skip(i as int)[0] == bytes@[i as int]);
            assert(bytes@.skip(i as int).skip(1) =~= bytes@.skip(i + 1));
        }
        acc = (acc ^ (bytes[i] as u64)).wrapping_mul(FNV_PRIME);
        i = i + 1;
    }
    proof {
        assert(bytes@.skip(i as int) =~= Seq::<u8>::empty());
    }
    acc
}

/// Hashing is deterministic: two byte sequences with the same contents have
/// the same content hash, in any run.
pub proof fn lemma_content_hash_deterministic(a: Seq<u8>, b: Seq<u8>)
    requires
        a =~= b,
    ensures
        spec_content_hash(a) == spec_content_hash(b),
{
}

} // verus!
