//! Integer helpers.
use vstd::prelude::*;
use vstd::arithmetic::power2::pow2;

verus! {

/// Whether `p` is a power of two.
pub open spec fn is_pow2(p: nat) -> bool {
    exists|k: nat| p == pow2(k)
}

/// The smallest power of two at least `n` (1 for 0).
pub fn next_power_of_two(n: usize) -> (r: usize)
    requires
        n <= usize::MAX / 2 + 1,
    ensures
        is_pow2(r as nat),
        r >= n,
        r >= 1,
        r == 1 || r / 2 < n,
{
    let mut p: usize = 1;
    let ghost mut k: nat = 0;
    proof {
        vstd::arithmetic::power2::lemma2_to64();
    }
    while p < n
        invariant
            p == pow2(k),
            p >= 1,
            p == 1 || p / 2 < n,
            n <= usize::MAX / 2 + 1,
        decreases usize::MAX - p,
    {
        proof {
            vstd::arithmetic::power2::lemma_pow2_adds(k, 1);
            vstd::arithmetic::power2::lemma2_to64();
        }
        p = p * 2;
        proof {
            k = k + 1;
        }
    }
    assert(p == pow2(k));
    p
}

} // verus!
