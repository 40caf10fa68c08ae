//! Storage and tier settings, and the checks on the encoding and retrieval
//! settings.
use vstd::prelude::*;
use vstd::arithmetic::power2::{pow2, lemma_pow2_strictly_increases, lemma_pow2_adds, lemma2_to64};
use crate::math::is_pow2;

verus! {

/// Where fragments are stored and how segments are managed.
#[derive(Debug, Clone)]
pub struct StorageConfig {
    pub data_dir: String,
    pub max_segment_size: usize,
    pub auto_compact: bool,
    pub sync_on_write: bool,
}

impl Default for StorageConfig {
    /// `./holographic_data`, segments of 64 MiB, compaction on, no sync on
    /// each write.
    fn default() -> (r: Self)
        ensures
            r.data_dir@ == "./holographic_data"@,
            r.max_segment_size == 64 * 1024 * 1024,
            r.auto_compact,
            !r.sync_on_write,
    {
        StorageConfig {
            data_dir: String::from_str("./holographic_data"),
            max_segment_size: 64 * 1024 * 1024,
            auto_compact: true,
            sync_on_write: false,
        }
    }
}

/// The sizes of the tiers of the index and when a fragment moves up.
#[derive(Debug, Clone)]
pub struct TieredConfig {
    pub l0_capacity: usize,
    pub l1_memtable_capacity: usize,
    pub l1_dir: String,
    pub promote_threshold: usize,
    pub demote_after_access: bool,
}

impl Default for TieredConfig {
    /// 1024 fragments in memory, memtables of 1024, the disk tier under
    /// `holo_tiered_l1`, promotion after three reads.
    fn default() -> (r: Self)
        ensures
            r.l0_capacity == 1024,
            r.l1_memtable_capacity == 1024,
            r.l1_dir@ == "holo_tiered_l1"@,
            r.promote_threshold == 3,
            !r.demote_after_access,
    {
        TieredConfig {
            l0_capacity: 1024,
            l1_memtable_capacity: 1024,
            l1_dir: String::from_str("holo_tiered_l1"),
            promote_threshold: 3,
            demote_after_access: false,
        }
    }
}

/// No power of two lies strictly between two consecutive ones.
proof fn lemma_not_pow2_between(n: nat, k: nat)
    requires
        pow2(k) < n < pow2(k + 1),
    ensures
        !is_pow2(n),
{
    if is_pow2(n) {
        let j = choose|j: nat| n == pow2(j);
        if j <= k {
            if j < k {
                lemma_pow2_strictly_increases(j, k);
            }
        } else {
            if j > k + 1 {
                lemma_pow2_strictly_increases(k + 1, j);
            }
        }
    }
}

/// Whether `n` is a power of two.
fn power_of_two(n: usize) -> (r: bool)
    ensures
        r == is_pow2(n as nat),
{
    proof {
        lemma2_to64();
    }
    if n == 0 {
        proof {
            if is_pow2(0) {
                let j = choose|j: nat| 0 == pow2(j);
                vstd::arithmetic::power2::lemma_pow2_pos(j);
            }
        }
        return false;
    }
    let mut p: usize = 1;
    let ghost mut k: nat = 0;
    while p < n && p <= usize::MAX / 2
        invariant
            n >= 1,
            p == pow2(k),
            p >= 1,
            k == 0 || pow2((k - 1) as nat) < n,
        decreases usize::MAX - p,
    {
        proof {
            lemma_pow2_adds(k, 1);
            lemma2_to64();
        }
        p = p * 2;
        proof {
            k = k + 1;
        }
    }
    let r = p == n;
    proof {
        if r {
            assert(n as nat == pow2(k));
        } else {
            lemma_pow2_adds(k, 1);
            lemma2_to64();
            assert(pow2(k + 1) == 2 * pow2(k));
            if p < n {
                assert(pow2(k) < n < pow2(k + 1));
                lemma_not_pow2_between(n as nat, k);
            } else {
                assert(k > 0);
                let k1 = (k - 1) as nat;
                lemma_pow2_adds(k1, 1);
                assert(pow2(k1) < n < pow2(k1 + 1));
                lemma_not_pow2_between(n as nat, k1);
            }
        }
    }
    r
}

/// Checks the encoding and retrieval settings, in this order: the FFT
/// window is a power of two; the overlap ratio lies in `[0, 1)`; the
/// redundancy level is positive; the similarity threshold lies in
/// `[0, 1]`. The two range checks on fractions are made by the caller,
/// which passes their outcomes.
pub fn check_settings(
    fft_window_size: usize,
    overlap_in_range: bool,
    redundancy_level: u8,
    threshold_in_range: bool,
) -> (r: Result<(), String>)
    ensures
        !is_pow2(fft_window_size as nat) ==> (r matches Err(m) && m@ == "fft_window_size 必须是 2 的幂"@),
        is_pow2(fft_window_size as nat) && !overlap_in_range ==> (r matches Err(m)
            && m@ == "overlap_ratio 必须在 [0.0, 1.0) 范围内"@),
        is_pow2(fft_window_size as nat) && overlap_in_range && redundancy_level == 0 ==> (r matches Err(m)
            && m@ == "redundancy_level 必须大于 0"@),
        is_pow2(fft_window_size as nat) && overlap_in_range && redundancy_level > 0 && !threshold_in_range
            ==> (r matches Err(m) && m@ == "similarity_threshold 必须在 [0.0, 1.0] 范围内"@),
        r is Ok <==> (is_pow2(fft_window_size as nat) && overlap_in_range && redundancy_level > 0
            && threshold_in_range),
{
    if !power_of_two(fft_window_size) {
        return Err(String::from_str("fft_window_size 必须是 2 的幂"));
    }
    if !overlap_in_range {
        return Err(String::from_str("overlap_ratio 必须在 [0.0, 1.0) 范围内"));
    }
    if redundancy_level == 0 {
        return Err(String::from_str("redundancy_level 必须大于 0"));
    }
    if !threshold_in_range {
        return Err(String::from_str("similarity_threshold 必须在 [0.0, 1.0] 范围内"));
    }
    Ok(())
}

} // verus!
