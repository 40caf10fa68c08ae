//! The 64-bit FNV-1a hash that names stored sources.
use vstd::prelude::*;

verus! {

/// The FNV-1a offset basis.
pub const FNV_OFFSET: u64 = 0xcbf29ce484222325;

/// The FNV-1a prime.
pub const FNV_PRIME: u64 = 0x100000001b3;

/// FNV-1a of the bytes: from the offset basis, each byte is xored in and
/// the hash multiplied by the prime, wrapping.
pub open spec fn fnv1a_spec(bytes: Seq<u8>) -> u64
    decreases bytes.len(),
{
    if bytes.len() == 0 {
        FNV_OFFSET
    } else {
        vstd::wrapping::u64_specs::wrapping_mul(fnv1a_spec(bytes.drop_last()) ^ (bytes.last() as u64), FNV_PRIME)
    }
}

/// FNV-1a of the bytes.
pub fn fnv1a(bytes: &[u8]) -> (r: u64)
    ensures
        r == fnv1a_spec(bytes@),
{
    let mut hash: u64 = FNV_OFFSET;
    let n = bytes.len();
    let mut i: usize = 0;
    while i < n
        invariant
            n == bytes@.len(),
            i <= n,
            hash == fnv1a_spec(bytes@.take(i as int)),
        decreases n - i,
    {
        assert(bytes@.take(i + 1).drop_last() =~= bytes@.take(i as int));
        hash = hash ^ (bytes[i] as u64);
        hash = hash.wrapping_mul(FNV_PRIME);
        i = i + 1;
    }
    assert(bytes@.take(n as int) =~= bytes@);
    hash
}

} // verus!
