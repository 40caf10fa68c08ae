//! Window and fragment-size settings of the encoders, and how a spectrum
//! is cut into fragments.
use vstd::prelude::*;
use crate::math::{next_power_of_two, is_pow2};

verus! {

/// The smallest power of two at least `n`.
pub open spec fn pow2_ceil(n: nat, p: nat) -> bool {
    is_pow2(p) && p >= n && (p == 1 || p / 2 < n)
}

/// Chooses FFT windows between two powers of two.
#[derive(Debug, Clone, Copy)]
pub struct AdaptiveWindowSelector {
    min_window: usize,
    max_window: usize,
}

impl AdaptiveWindowSelector {
    pub closed spec fn min(&self) -> usize {
        self.min_window
    }

    pub closed spec fn max(&self) -> usize {
        self.max_window
    }

    /// Windows from `min_window` (at least 64) to `max_window` (at least
    /// 256), each raised to a power of two.
    pub fn new(min_window: usize, max_window: usize) -> (r: Self)
        requires
            min_window <= usize::MAX / 2 + 1,
            max_window <= usize::MAX / 2 + 1,
        ensures
            pow2_ceil(if min_window >= 64 { min_window as nat } else { 64 }, r.min() as nat),
            pow2_ceil(if max_window >= 256 { max_window as nat } else { 256 }, r.max() as nat),
    {
        let lo = if min_window >= 64 { min_window } else { 64 };
        let hi = if max_window >= 256 { max_window } else { 256 };
        AdaptiveWindowSelector { min_window: next_power_of_two(lo), max_window: next_power_of_two(hi) }
    }

    pub fn min_window(&self) -> (r: usize)
        ensures
            r == self.min(),
    {
        self.min_window
    }

    pub fn max_window(&self) -> (r: usize)
        ensures
            r == self.max(),
    {
        self.max_window
    }
}

/// How many fragments of `size` values a spectrum of `total` values makes
/// (at least one).
pub open spec fn span_count(total: nat, size: nat) -> nat {
    let c = total / size + if total % size == 0 { 0nat } else { 1nat };
    if c >= 1 { c } else { 1 }
}

/// Cuts spectra into fragments of a fixed size (at least 1).
#[derive(Debug, Clone, Copy)]
pub struct HologramFragmenter {
    fragment_size: usize,
}

impl HologramFragmenter {
    pub closed spec fn size(&self) -> usize {
        self.fragment_size
    }

    #[verifier::type_invariant]
    spec fn size_positive(&self) -> bool {
        self.fragment_size >= 1
    }

    /// A fragmenter of the given size, raised to 1 when 0.
    pub fn new(fragment_size: usize) -> (r: Self)
        ensures
            r.size() == if fragment_size >= 1 { fragment_size } else { 1 },
    {
        HologramFragmenter { fragment_size: if fragment_size >= 1 { fragment_size } else { 1 } }
    }

    pub fn fragment_size(&self) -> (r: usize)
        ensures
            r == self.size(),
            r >= 1,
    {
        proof {
            use_type_invariant(self);
        }
        self.fragment_size
    }

    /// The values each fragment of a spectrum of `total` (> 0) values takes:
    /// consecutive runs of `size` values, the last one shorter.
    pub fn output_spans(&self, total: usize) -> (r: Vec<(usize, usize)>)
        requires
            total > 0,
        ensures
            r@.len() == span_count(total as nat, self.size() as nat),
            forall|k: int| #![trigger r@[k]] 0 <= k < r@.len() ==> r@[k].0 == k * self.size() && r@[k].1 == (if k * self.size() + self.size() <= total {
                k * self.size() + self.size()
            } else {
                total as int
            }),
    {
        proof {
            use_type_invariant(self);
        }
        let size = self.fragment_size;
        let mut out: Vec<(usize, usize)> = Vec::new();
        let mut start: usize = 0;
        assert(out@.len() * size == 0) by (nonlinear_arith)
            requires
                out@.len() == 0,
        ;
        while start < total
            invariant
                size == self.size(),
                size >= 1,
                total > 0,
                start <= total,
                start < total ==> start == out@.len() * size,
                start <= out@.len() * size,
                forall|k: int| #![trigger out@[k]] 0 <= k < out@.len() ==> out@[k].0 == k * size && out@[k].1 == (if k * size + size <= total {
                    k * size + size
                } else {
                    total as int
                }),
                out@.len() > 0 ==> (out@.len() - 1) * size < total,
            decreases total - start,
        {
            let end: usize = if size <= total - start { start + size } else { total };
            let ghost k = out@.len();
            out.push((start, end));
            assert((k + 1) * size == k * size + size) by (nonlinear_arith);
            start = end;
        }
        proof {
            let m = out@.len();
            let q = total / size;
            let rm = total % size;
            assert(total == q * size + rm) by (nonlinear_arith)
                requires
                    q == total / size,
                    rm == total % size,
                    size >= 1,
            ;
            assert(m > 0);
            assert((m - 1) * size < total);
            if rm == 0 {
                assert(m == q) by (nonlinear_arith)
                    requires
                        (m - 1) * size < total,
                        total <= m * size,
                        total == q * size,
                        size >= 1,
                        m > 0,
                ;
            } else {
                assert(m == q + 1) by (nonlinear_arith)
                    requires
                        (m - 1) * size < total,
                        total <= m * size,
                        total == q * size + rm,
                        0 < rm < size,
                        size >= 1,
                        m > 0,
                ;
            }
        }
        out
    }
}

/// How many frames, `step` values apart, cover a signal padded to `p`
/// values (at least one).
pub open spec fn frame_count(p: nat, step: nat) -> nat {
    if p <= step {
        1
    } else {
        (((p - 1) as nat) / step + 1) as nat
    }
}

/// The bounds of frame `k`: from `k * step` for `window_size` values, cut
/// at the padded length `p`.
pub open spec fn frame_bounds(k: int, step: int, window_size: int, p: int) -> (int, int) {
    (k * step, if k * step + window_size <= p { k * step + window_size } else { p })
}

/// Every frame starts inside the padded signal.
proof fn lemma_frame_start(k: int, step: int, p: int, count: int)
    requires
        step > 0,
        p >= 1,
        0 <= k < count,
        count == if p <= step { 1 } else { (p - 1) / step + 1 },
    ensures
        k * step <= p - 1,
{
    if p > step {
        let q = (p - 1) / step;
        assert(k <= q);
        assert(k * step <= q * step) by (nonlinear_arith)
            requires
                k <= q,
                step > 0,
        ;
        assert(q * step <= p - 1) by (nonlinear_arith)
            requires
                q == (p - 1) / step,
                step > 0,
                p >= 1,
        ;
    } else {
        assert(k == 0);
        assert(k * step == 0);
    }
}

/// The frames an encoder cuts a signal of `n` values into: the signal is
/// padded with zeros to the smallest power of two at least `n` and
/// `window_size`, and a frame of `window_size` values starts every `step`
/// values. Gives the padded length and each frame's bounds; an empty signal
/// has no frames.
pub fn frame_windows(n: usize, window_size: usize, step: usize) -> (r: (usize, Vec<(usize, usize)>))
    requires
        n > 0 ==> step > 0,
        n <= usize::MAX / 2 + 1,
        window_size <= usize::MAX / 2 + 1,
    ensures
        n == 0 ==> r.0 == 0 && r.1@.len() == 0,
        n > 0 ==> pow2_ceil(if n >= window_size { n as nat } else { window_size as nat }, r.0 as nat),
        n > 0 ==> r.1@.len() == frame_count(r.0 as nat, step as nat),
        forall|k: int| #![trigger r.1@[k]] 0 <= k < r.1@.len()
            ==> (r.1@[k].0 as int, r.1@[k].1 as int) == frame_bounds(k, step as int, window_size as int, r.0 as int),
{
    if n == 0 {
        return (0, Vec::new());
    }
    let m = if n >= window_size { n } else { window_size };
    let p = next_power_of_two(m);
    let count: usize = if p <= step { 1 } else { (p - 1) / step + 1 };
    let mut frames: Vec<(usize, usize)> = Vec::new();
    let mut k: usize = 0;
    while k < count
        invariant
            step > 0,
            p >= 1,
            count == frame_count(p as nat, step as nat),
            k <= count,
            frames@.len() == k,
            forall|j: int| #![trigger frames@[j]] 0 <= j < k
                ==> (frames@[j].0 as int, frames@[j].1 as int) == frame_bounds(j, step as int, window_size as int, p as int),
        decreases count - k,
    {
        proof {
            lemma_frame_start(k as int, step as int, p as int, count as int);
        }
        let start = k * step;
        let end = if window_size <= p - start { start + window_size } else { p };
        frames.push((start, end));
        k += 1;
    }
    (p, frames)
}

} // verus!
