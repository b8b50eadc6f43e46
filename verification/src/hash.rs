//! Per-key hash triple for bucket-and-displacement placement schemes.

use vstd::prelude::*;

verus! {

/// The 64-bit hash of a byte string under XXH3 with a seed: a pure function
/// of the bytes and the seed.
pub uninterp spec fn xxh3_of(data: Seq<u8>, seed: u64) -> u64;

/// Relies on `xxhash_rust::xxh3::xxh3_64_with_seed`: a seeded 64-bit hash
/// whose result depends on the bytes and the seed alone.
#[verifier::external_body]
fn xxh3_64(data: &[u8], seed: u64) -> (r: u64)
    ensures
        r == xxh3_of(data@, seed),
{
    xxhash_rust::xxh3::xxh3_64_with_seed(data, seed)
}

/// Three independent 64-bit hashes of one key, derived from three seeds.
#[derive(Clone, Copy, Debug)]
pub struct KeyHash {
    /// Bucket selector.
    pub h1: u64,
    /// Base offset.
    pub h2: u64,
    /// Multiplier for the displacement (spreads positions).
    pub h3: u64,
}

impl KeyHash {
    /// Hash `bytes` under three seeds derived from `salt`.
    pub fn from_key(bytes: &[u8], salt: u64) -> (r: KeyHash)
        ensures
            r.h1 == xxh3_of(bytes@, salt ^ 0x9E37_79B9_7F4A_7C15u64),
            r.h2 == xxh3_of(
                bytes@,
                vstd::wrapping::u64_specs::wrapping_mul(salt, 0xA24B_1F6Fu64),
            ),
            r.h3 == xxh3_of(bytes@, salt ^ 0x853C_49E6_0A6C_9D39u64),
    {
        let s1 = salt ^ 0x9E37_79B9_7F4A_7C15u64;
        let s2 = salt.wrapping_mul(0xA24B_1F6Fu64);
        let s3 = salt ^ 0x853C_49E6_0A6C_9D39u64;
        KeyHash { h1: xxh3_64(bytes, s1), h2: xxh3_64(bytes, s2), h3: xxh3_64(bytes, s3) }
    }

    /// The bucket of this key among `buckets` buckets (at least one bucket
    /// is always assumed).
    pub fn bucket(&self, buckets: u64) -> (r: usize)
        ensures
            r == (self.h1 % (if buckets == 0 {
                1u64
            } else {
                buckets
            })) as usize,
            buckets > 0 ==> (r as u64) < buckets,
    {
        let den = if buckets == 0 {
            1u64
        } else {
            buckets
        };
        (self.h1 % den) as usize
    }

    /// The position of this key for displacement `d` over `n` slots:
    /// `(h2 + d * h3) mod n`, with 64-bit wrapping arithmetic.
    pub fn place(&self, n: u64, d: u64) -> (r: usize)
        ensures
            r == (vstd::wrapping::u64_specs::wrapping_add(
                self.h2,
                vstd::wrapping::u64_specs::wrapping_mul(d, self.h3),
            ) % (if n == 0 {
                1u64
            } else {
                n
            })) as usize,
            n > 0 ==> (r as u64) < n,
    {
        let den = if n == 0 {
            1u64
        } else {
            n
        };
        let mixed = self.h2.wrapping_add(d.wrapping_mul(self.h3));
        (mixed % den) as usize
    }
}

} // verus!
