//! The indexer: a pure function mapping a key and a capacity to a bucket
//! index, using the 64-bit FNV-1a hash with wraparound arithmetic.

use vstd::prelude::*;

verus! {

/// FNV-1a 64-bit offset basis.
pub const FNV_OFFSET: u64 = 0xcbf2_9ce4_8422_2325;

/// FNV-1a 64-bit prime.
pub const FNV_PRIME: u64 = 0x0000_0100_0000_01b3;

/// One step of FNV-1a: XOR a byte into the accumulator, then multiply by
/// the prime modulo 2^64.
pub open spec fn fnv_step(h: u64, b: u8) -> u64 {
    vstd::wrapping::u64_specs::wrapping_mul(h ^ (b as u64), FNV_PRIME)
}

/// The FNV-1a hash of a byte sequence, folding bytes in left to right.
pub open spec fn fnv_hash(s: Seq<u8>) -> u64
    decreases s.len(),
{
    if s.len() == 0 {
        FNV_OFFSET
    } else {
        fnv_step(fnv_hash(s.drop_last()), s.last())
    }
}

/// The bucket index of a key in a table of `cap` buckets: the hash reduced
/// modulo the capacity. Identical key and capacity always yield the same
/// index, in `[0, cap)`.
pub open spec fn bucket_index(k: Seq<u8>, cap: int) -> int
    recommends
        cap > 0,
{
    fnv_hash(k) as int % cap
}

/// Computes the FNV-1a hash of `key`.
fn hash_bytes(key: &[u8]) -> (h: u64)
    ensures
        h == fnv_hash(key@),
{
    let mut h: u64 = FNV_OFFSET;
    let mut i: usize = 0;
    while i < key.len()
        invariant
            0 <= i <= key@.len(),
            h == fnv_hash(key@.subrange(0, i as int)),
        decreases key@.len() - i,
    {
        let ghost h0 = h;
        h = (h ^ (key[i] as u64)).wrapping_mul(FNV_PRIME);
        proof {
            assert(h == fnv_step(h0, key@[i as int]));
            assert(key@.subrange(0, i + 1).drop_last() =~= key@.subrange(0, i as int));
            assert(key@.subrange(0, i + 1).last() == key@[i as int]);
            assert(fnv_hash(key@.subrange(0, i + 1)) == fnv_step(h0, key@[i as int]));
        }
        i = i + 1;
    }
    proof {
        assert(key@.subrange(0, key@.len() as int) =~= key@);
    }
    h
}

/// Computes the bucket index of `key` for a table of `cap` buckets.
pub(crate) fn bucket_of(key: &[u8], cap: usize) -> (i: usize)
    requires
        cap > 0,
    ensures
        i as int == bucket_index(key@, cap as int),
        i < cap,
{
    let h = hash_bytes(key);
    (h % (cap as u64)) as usize
}

} // verus!
