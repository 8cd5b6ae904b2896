//! The perceptual mapper: compresses the magnitude spectrum into a fixed
//! count of perceptually weighted visual buckets spanning the audible window.
//!
//! The formulas carry deliberate departures from textbook bin math (see
//! `spec_quarter`); they are tunable display constants, not physical laws,
//! and the contracts pin them down exactly as written.

use vstd::prelude::*;
use vstd::arithmetic::power2::{pow2, lemma2_to64, lemma2_to64_rest};
use vstd::arithmetic::div_mod::{
    lemma_div_is_ordered, lemma_div_by_multiple, lemma_div_nonincreasing, lemma_div_pos_is_pos,
};
use crate::fixed::{spec_log2_fp, log2_fp, lemma_log2_fp_upper, lemma_log2_fp_lower};

verus! {

/// Every decibel value is at most this (about `20 * log10(2^31 / FP_ONE)`
/// fixed-point, rounded far up).
pub const DB_LIMIT: u64 = 0x40000;

/// Every perceptual weight is at most this.
pub const WARP_LIMIT: u64 = 0x2000000;

/// Every visual bucket value is at most this.
pub const BUCKET_LIMIT: u64 = 0x40000 * 0x2000000;

/// `max(20 * log10(m / FP_ONE), 0)` in fixed point.  A magnitude at or below
/// one fixed-point unit — including exactly zero — is floored to the unit,
/// whose logarithm is zero, so the value is defined and non-negative for
/// every magnitude; this is the epsilon floor that keeps a silent bin from
/// producing a non-finite logarithm.
pub open spec fn spec_db20(m: nat) -> int {
    if m <= 1024 {
        0
    } else {
        20 * (spec_log2_fp(m) - 10240) * 1024 / 3402
    }
}

pub proof fn lemma_db20_bounds(m: nat)
    requires
        m < 0x80000000,
    ensures
        0 <= spec_db20(m) <= DB_LIMIT,
{
    if m <= 1024 {
    } else {
        lemma2_to64();
        lemma_log2_fp_lower(m, 10);
        lemma_log2_fp_upper(m, 31);
    }
}

/// The decibel formula, executable.
pub fn db20(m: u64) -> (r: u64)
    requires
        m < 0x80000000,
    ensures
        r == spec_db20(m as nat),
        r <= DB_LIMIT,
{
    proof {
        lemma_db20_bounds(m as nat);
    }
    if m <= 1024 {
        0
    } else {
        proof {
            lemma2_to64();
            lemma_log2_fp_lower(m as nat, 10);
            lemma_log2_fp_upper(m as nat, 31);
        }
        let l: u64 = log2_fp(m);
        20 * (l - 10240) * 1024 / 3402
    }
}

/// The argument of the warp's logarithm: `1 + max(f, 1000) / 700`, fixed
/// point.  The clamp at 1000 Hz keeps the argument away from 1 (and the
/// logarithm away from a near-zero blowup) at very low frequencies.
pub open spec fn spec_warp_arg(f: nat) -> nat {
    1024 + (if f < 1000 {
        1000nat
    } else {
        f
    }) * 1024 / 700
}

/// The perceptual frequency warp `2595 * log10(1 + max(f, 1000) / 700)` in
/// fixed point: a pitch-perception curve that hands low frequencies more
/// visual resolution.
pub open spec fn spec_warp(f: nat) -> int {
    2595 * ((spec_log2_fp(spec_warp_arg(f)) - 10240) * 1024 / 3402)
}

pub proof fn lemma_warp_bounds(f: nat)
    requires
        f <= 0x20000000000,
    ensures
        0 <= spec_warp(f) <= WARP_LIMIT,
{
    lemma2_to64();
    lemma2_to64_rest();
    let a = spec_warp_arg(f);
    assert(a >= 2486);
    lemma_log2_fp_lower(a, 11);
    assert(a < pow2(42));
    lemma_log2_fp_upper(a, 42);
}

/// The warp, executable.
pub fn warp(f: u64) -> (r: u64)
    requires
        f <= 0x20000000000,
    ensures
        r == spec_warp(f as nat),
        r <= WARP_LIMIT,
{
    let fmax: u64 = if f < 1000 {
        1000
    } else {
        f
    };
    let a: u64 = 1024 + fmax * 1024 / 700;
    proof {
        lemma2_to64();
        lemma2_to64_rest();
        assert(a == spec_warp_arg(f as nat));
        lemma_log2_fp_lower(a as nat, 11);
        assert((a as nat) < pow2(42));
        lemma_log2_fp_upper(a as nat, 42);
    }
    let l: u64 = log2_fp(a);
    2595 * ((l - 10240) * 1024 / 3402)
}

/// One bin's contribution: its decibel value times its perceptual weight.
pub open spec fn spec_weighted(m: nat, f: nat) -> int {
    spec_db20(m) * spec_warp(f)
}

pub proof fn lemma_weighted_bounds(m: nat, f: nat)
    requires
        m < 0x80000000,
        f <= 0x20000000000,
    ensures
        0 <= spec_weighted(m, f) <= BUCKET_LIMIT,
{
    lemma_db20_bounds(m);
    lemma_warp_bounds(f);
    assert(0 <= spec_db20(m) * spec_warp(f) <= 0x40000 * 0x2000000) by (nonlinear_arith)
        requires
            0 <= spec_db20(m) <= 0x40000,
            0 <= spec_warp(f) <= 0x2000000,
    ;
}

/// The weighted contribution, executable.
pub fn weighted(m: u64, f: u64) -> (r: u64)
    requires
        m < 0x80000000,
        f <= 0x20000000000,
    ensures
        r == spec_weighted(m as nat, f as nat),
        r <= BUCKET_LIMIT,
{
    proof {
        lemma_weighted_bounds(m as nat, f as nat);
    }
    let d: u64 = db20(m);
    let w: u64 = warp(f);
    proof {
        assert(d * w <= 0x40000 * 0x2000000) by (nonlinear_arith)
            requires
                d <= 0x40000,
                w <= 0x2000000,
        ;
    }
    d * w
}

/// Reduces `N/2` magnitude bins to `M` perceptually weighted buckets over
/// the audible window `[min_freq, max_freq]`.
pub struct PerceptualMapper {
    /// Transform size `N`.
    pub n: usize,
    pub sample_rate: u64,
    /// Output bucket count `M`.
    pub bins: usize,
    pub min_freq: u64,
    pub max_freq: u64,
    /// Width of the forward averaging window.
    pub avg_factor: usize,
}

impl PerceptualMapper {
    pub open spec fn wf(&self) -> bool {
        &&& 4 <= self.n <= 0x100000
        &&& 2 <= self.sample_rate <= 0x400000
        &&& 1 <= self.bins <= 0x100000
        &&& 1 <= self.avg_factor <= 64
        &&& self.min_freq <= self.max_freq <= 0x100000
    }

    /// Half the sample rate: the highest representable frequency.
    pub open spec fn spec_nyquist(&self) -> int {
        self.sample_rate as int / 2
    }

    /// The bin-spacing divisor is a quarter of the transform size — twice as
    /// wide as the conventional Nyquist-relative `N/2` spacing.  This is a
    /// deliberate, load-bearing display choice of this mapping;
    /// "correcting" it would change the visual mapping materially, so it is
    /// kept as a named quantity rather than silently normalized.
    pub open spec fn spec_quarter(&self) -> int {
        self.n as int / 4
    }

    /// Center frequency in Hz assigned to magnitude bin `i`.
    pub open spec fn spec_bin_freq(&self, i: int) -> int {
        i * self.spec_nyquist() / self.spec_quarter()
    }

    /// A bin is kept exactly when its frequency lies in the audible window.
    pub open spec fn spec_accepts(&self, i: int) -> bool {
        self.min_freq <= self.spec_bin_freq(i) <= self.max_freq
    }

    pub proof fn lemma_bin_freq_bounds(&self, i: int)
        requires
            self.wf(),
            0 <= i <= 0x80000,
        ensures
            0 <= self.spec_bin_freq(i) <= 0x20000000000,
    {
        let ny = self.spec_nyquist();
        let p = i * ny;
        assert(0 <= i * ny <= 0x80000 * 0x200000) by (nonlinear_arith)
            requires
                0 <= i <= 0x80000,
                0 <= ny <= 0x200000,
        ;
        lemma_div_pos_is_pos(p, self.spec_quarter());
        lemma_div_nonincreasing(p, self.spec_quarter());
    }

    /// Frequency of bin `i`, executable.
    pub fn bin_freq(&self, i: usize) -> (r: u64)
        requires
            self.wf(),
            i <= 0x80000,
        ensures
            r == self.spec_bin_freq(i as int),
            r <= 0x20000000000,
    {
        proof {
            self.lemma_bin_freq_bounds(i as int);
            assert((i as u64) * (self.sample_rate / 2) <= 0x80000 * 0x200000) by (nonlinear_arith)
                requires
                    i <= 0x80000,
                    self.sample_rate / 2 <= 0x200000,
            ;
        }
        let nyquist: u64 = self.sample_rate / 2;
        let quarter: u64 = (self.n / 4) as u64;
        (i as u64 * nyquist) / quarter
    }

    /// Sum of the forward window's weighted contributions from offset `k`
    /// on: the `k`-th later bin contributes with linearly decaying weight
    /// `avg_factor - k`; offsets past the end of the spectrum are skipped.
    pub open spec fn spec_window_sum(&self, mags: Seq<u64>, i: int, k: int) -> int
        decreases self.avg_factor - k,
    {
        if k >= self.avg_factor {
            0
        } else {
            (if i + k < mags.len() {
                spec_weighted(mags[i + k] as nat, self.spec_bin_freq(i + k) as nat) * (
                self.avg_factor - k)
            } else {
                0
            }) + self.spec_window_sum(mags, i, k + 1)
        }
    }

    /// Total weight of the window from offset `k` on, matching
    /// `spec_window_sum` term for term.
    pub open spec fn spec_window_count(&self, len: int, i: int, k: int) -> int
        decreases self.avg_factor - k,
    {
        if k >= self.avg_factor {
            0
        } else {
            (if i + k < len {
                self.avg_factor - k
            } else {
                0
            }) + self.spec_window_count(len, i, k + 1)
        }
    }

    pub proof fn lemma_window_count_bounds(&self, len: int, i: int, k: int)
        requires
            self.wf(),
            0 <= k,
        ensures
            0 <= self.spec_window_count(len, i, k),
            k <= self.avg_factor ==> self.spec_window_count(len, i, k) <= (self.avg_factor - k)
                * self.avg_factor,
            self.spec_window_count(len, i, k) <= self.avg_factor * self.avg_factor,
        decreases self.avg_factor - k,
    {
        let af = self.avg_factor as int;
        assert(0 <= af * af) by (nonlinear_arith)
            requires
                1 <= af,
        ;
        if k >= af {
            assert(self.spec_window_count(len, i, k) == 0);
            if k == af {
                assert((af - k) * af == 0) by (nonlinear_arith)
                    requires
                        k == af,
                ;
            }
        } else {
            self.lemma_window_count_bounds(len, i, k + 1);
            let rest = self.spec_window_count(len, i, k + 1);
            assert((af - k) + (af - k - 1) * af <= (af - k) * af) by (nonlinear_arith)
                requires
                    1 <= af,
                    0 <= k < af,
            ;
            assert((af - k) * af <= af * af) by (nonlinear_arith)
                requires
                    1 <= af,
                    0 <= k,
            ;
        }
    }

    pub proof fn lemma_window_sum_bounds(&self, mags: Seq<u64>, i: int, k: int)
        requires
            self.wf(),
            0 <= i,
            0 <= k,
            mags.len() <= 0x80000,
            forall|j: int| 0 <= j < mags.len() ==> #[trigger] mags[j] < 0x80000000,
        ensures
            0 <= self.spec_window_sum(mags, i, k) <= self.spec_window_count(
                mags.len() as int,
                i,
                k,
            ) * BUCKET_LIMIT,
        decreases self.avg_factor - k,
    {
        let len = mags.len() as int;
        if k >= self.avg_factor {
        } else {
            self.lemma_window_sum_bounds(mags, i, k + 1);
            let rest = self.spec_window_sum(mags, i, k + 1);
            let restc = self.spec_window_count(len, i, k + 1);
            self.lemma_window_count_bounds(len, i, k + 1);
            if i + k < len {
                self.lemma_bin_freq_bounds(i + k);
                lemma_weighted_bounds(mags[i + k] as nat, self.spec_bin_freq(i + k) as nat);
                let w = spec_weighted(mags[i + k] as nat, self.spec_bin_freq(i + k) as nat);
                assert(0 <= w * (self.avg_factor - k) <= (self.avg_factor - k) * BUCKET_LIMIT)
                    by (nonlinear_arith)
                    requires
                        0 <= w <= BUCKET_LIMIT,
                        k < self.avg_factor,
                ;
                assert((self.avg_factor - k) * BUCKET_LIMIT + restc * BUCKET_LIMIT == ((
                self.avg_factor - k) + restc) * BUCKET_LIMIT) by (nonlinear_arith);
            }
        }
    }

    /// The bucket anchored at accepted bin `i`: the bin's own weighted value
    /// seeds the average at full window weight, the forward window is added,
    /// and the total is divided by the total weight.
    pub open spec fn spec_bucket(&self, mags: Seq<u64>, i: int) -> int {
        let first = spec_weighted(mags[i] as nat, self.spec_bin_freq(i) as nat)
            * self.avg_factor;
        let total = first + self.spec_window_sum(mags, i, 0);
        let count = self.avg_factor + self.spec_window_count(mags.len() as int, i, 0);
        total / count
    }

    pub proof fn lemma_bucket_bounds(&self, mags: Seq<u64>, i: int)
        requires
            self.wf(),
            0 <= i < mags.len(),
            mags.len() <= 0x80000,
            forall|j: int| 0 <= j < mags.len() ==> #[trigger] mags[j] < 0x80000000,
        ensures
            0 <= self.spec_bucket(mags, i) <= BUCKET_LIMIT,
    {
        let len = mags.len() as int;
        self.lemma_bin_freq_bounds(i);
        lemma_weighted_bounds(mags[i] as nat, self.spec_bin_freq(i) as nat);
        let w0 = spec_weighted(mags[i] as nat, self.spec_bin_freq(i) as nat);
        let af = self.avg_factor as int;
        assert(0 <= w0 * af <= af * BUCKET_LIMIT) by (nonlinear_arith)
            requires
                0 <= w0 <= BUCKET_LIMIT,
                1 <= af,
        ;
        let first = w0 * self.avg_factor;
        self.lemma_window_sum_bounds(mags, i, 0);
        let ws = self.spec_window_sum(mags, i, 0);
        let wc = self.spec_window_count(len, i, 0);
        self.lemma_window_count_bounds(len, i, 0);
        let total = first + ws;
        let count = self.avg_factor + wc;
        assert(af * BUCKET_LIMIT + wc * BUCKET_LIMIT == (af + wc) * BUCKET_LIMIT)
            by (nonlinear_arith);
        lemma_div_pos_is_pos(total, count);
        lemma_div_is_ordered(total, count * BUCKET_LIMIT as int, count);
        lemma_div_by_multiple(BUCKET_LIMIT as int, count);
    }

    /// The bucket values produced from bin `i` on, while `room` output slots
    /// remain: each accepted bin appends one bucket until the spectrum is
    /// exhausted or the output is full.
    pub open spec fn spec_buckets(&self, mags: Seq<u64>, i: int, room: int) -> Seq<u64>
        decreases mags.len() - i,
    {
        if i >= mags.len() || room <= 0 || i < 0 {
            Seq::empty()
        } else if self.spec_accepts(i) {
            seq![self.spec_bucket(mags, i) as u64] + self.spec_buckets(mags, i + 1, room - 1)
        } else {
            self.spec_buckets(mags, i + 1, room)
        }
    }

    pub proof fn lemma_buckets_bounds(&self, mags: Seq<u64>, i: int, room: int)
        requires
            self.wf(),
            mags.len() <= 0x80000,
            forall|j: int| 0 <= j < mags.len() ==> #[trigger] mags[j] < 0x80000000,
        ensures
            self.spec_buckets(mags, i, room).len() <= (if room >= 0 {
                room
            } else {
                0
            }),
            forall|j: int|
                0 <= j < self.spec_buckets(mags, i, room).len() ==> #[trigger] self.spec_buckets(
                    mags,
                    i,
                    room,
                )[j] <= BUCKET_LIMIT,
        decreases mags.len() - i,
    {
        if i >= mags.len() || room <= 0 || i < 0 {
        } else if self.spec_accepts(i) {
            self.lemma_bucket_bounds(mags, i);
            self.lemma_buckets_bounds(mags, i + 1, room - 1);
        } else {
            self.lemma_buckets_bounds(mags, i + 1, room);
        }
    }

    /// One accepted bin's bucket value, executable.
    fn bucket_value(&self, mags: &Vec<u64>, i: usize) -> (r: u64)
        requires
            self.wf(),
            i < mags@.len(),
            mags@.len() <= 0x80000,
            forall|j: int| 0 <= j < mags@.len() ==> #[trigger] mags@[j] < 0x80000000,
        ensures
            r == self.spec_bucket(mags@, i as int),
            r <= BUCKET_LIMIT,
    {
        let ghost len: int = mags@.len() as int;
        let af: usize = self.avg_factor;
        let freq0: u64 = self.bin_freq(i);
        let w0: u64 = weighted(mags[i], freq0);
        proof {
            assert(w0 * (af as u64) <= 64 * BUCKET_LIMIT) by (nonlinear_arith)
                requires
                    w0 <= BUCKET_LIMIT,
                    af <= 64,
            ;
        }
        let mut total: u64 = w0 * (af as u64);
        let mut count: u64 = af as u64;
        let mut k: usize = 0;
        proof {
            assert(total <= count * BUCKET_LIMIT) by (nonlinear_arith)
                requires
                    total == w0 * count,
                    w0 <= BUCKET_LIMIT,
                    0 <= count,
            ;
        }
        while k < af
            invariant
                k <= af,
                af == self.avg_factor,
                self.wf(),
                i < mags@.len() <= 0x80000,
                forall|j: int| 0 <= j < mags@.len() ==> #[trigger] mags@[j] < 0x80000000,
                w0 == spec_weighted(mags@[i as int] as nat, self.spec_bin_freq(i as int) as nat),
                total == w0 * af + self.spec_window_sum(mags@, i as int, 0)
                    - self.spec_window_sum(mags@, i as int, k as int),
                count == af + self.spec_window_count(len, i as int, 0) - self.spec_window_count(
                    len,
                    i as int,
                    k as int,
                ),
                len == mags@.len() as int,
                total <= count * BUCKET_LIMIT,
                count <= 64 + 64 * 64,
            decreases af - k,
        {
            proof {
                self.lemma_window_sum_bounds(mags@, i as int, k as int);
                self.lemma_window_sum_bounds(mags@, i as int, k + 1);
                self.lemma_window_count_bounds(len, i as int, k as int);
                self.lemma_window_count_bounds(len, i as int, k + 1);
                self.lemma_window_count_bounds(len, i as int, 0);
                assert(self.spec_window_count(len, i as int, 0) <= 64 * 64) by (nonlinear_arith)
                    requires
                        self.spec_window_count(len, i as int, 0) <= self.avg_factor
                            * self.avg_factor,
                        0 <= self.avg_factor <= 64,
                ;
                assert(self.spec_window_sum(mags@, i as int, k as int) == (if i + k < mags@.len() {
                    spec_weighted(mags@[i + k] as nat, self.spec_bin_freq(i + k) as nat) * (
                    self.avg_factor - k)
                } else {
                    0
                }) + self.spec_window_sum(mags@, i as int, k + 1));
                assert(self.spec_window_count(len, i as int, k as int) == (if i + k < len {
                    self.avg_factor - k
                } else {
                    0
                }) + self.spec_window_count(len, i as int, k + 1));
                assert(total <= (64 + 64 * 64) * BUCKET_LIMIT) by (nonlinear_arith)
                    requires
                        total <= count * BUCKET_LIMIT,
                        0 <= count <= 64 + 64 * 64,
                ;
            }
            if i + k < mags.len() {
                let fk: u64 = self.bin_freq(i + k);
                let wk: u64 = weighted(mags[i + k], fk);
                let wt: u64 = af as u64 - k as u64;
                proof {
                    assert(wk * wt <= 64 * BUCKET_LIMIT) by (nonlinear_arith)
                        requires
                            wk <= BUCKET_LIMIT,
                            wt <= 64,
                    ;
                    assert(count * BUCKET_LIMIT + wt * BUCKET_LIMIT == (count + wt)
                        * BUCKET_LIMIT) by (nonlinear_arith);
                    assert(wk * wt <= wt * BUCKET_LIMIT) by (nonlinear_arith)
                        requires
                            wk <= BUCKET_LIMIT,
                    ;
                }
                total = total + wk * wt;
                count = count + wt;
            }
            k = k + 1;
        }
        proof {
            assert(self.spec_window_sum(mags@, i as int, af as int) == 0);
            assert(self.spec_window_count(len, i as int, af as int) == 0);
            self.lemma_window_count_bounds(len, i as int, 0);
            assert(count >= 1);
            self.lemma_bucket_bounds(mags@, i as int);
            lemma_div_is_ordered(total as int, count as int * BUCKET_LIMIT as int, count as int);
            lemma_div_by_multiple(BUCKET_LIMIT as int, count as int);
        }
        total / count
    }

    /// Map one frame's magnitudes into the per-frame bucket array.  Slots
    /// past what this frame produced retain their previous (stale) contents;
    /// the array is zero-initialized once at startup.
    pub fn reduce(&self, mags: &Vec<u64>, out: &mut Vec<u64>)
        requires
            self.wf(),
            mags@.len() == self.n / 2,
            forall|j: int| 0 <= j < mags@.len() ==> #[trigger] mags@[j] < 0x80000000,
            old(out)@.len() == self.bins,
        ensures
            final(out)@.len() == self.bins,
            final(out)@ == self.spec_buckets(mags@, 0, self.bins as int) + old(out)@.skip(
                self.spec_buckets(mags@, 0, self.bins as int).len() as int,
            ),
            forall|j: int|
                0 <= j < self.spec_buckets(mags@, 0, self.bins as int).len()
                    ==> #[trigger] final(out)@[j] <= BUCKET_LIMIT,
    {
        let ghost full: Seq<u64> = self.spec_buckets(mags@, 0, self.bins as int);
        let len: usize = mags.len();
        let mut i: usize = 0;
        let mut filled: usize = 0;
        while i < len && filled < self.bins
            invariant
                0 <= i <= len,
                filled <= self.bins,
                filled <= i,
                len == mags@.len(),
                self.wf(),
                mags@.len() == self.n / 2,
                forall|j: int| 0 <= j < mags@.len() ==> #[trigger] mags@[j] < 0x80000000,
                out@.len() == self.bins,
                full == self.spec_buckets(mags@, 0, self.bins as int),
                full == out@.take(filled as int) + self.spec_buckets(
                    mags@,
                    i as int,
                    self.bins - filled,
                ),
                forall|j: int| filled <= j < out@.len() ==> #[trigger] out@[j] == old(out)@[j],
                forall|j: int| 0 <= j < filled ==> #[trigger] out@[j] <= BUCKET_LIMIT,
            decreases len - i,
        {
            let freq: u64 = self.bin_freq(i);
            if freq >= self.min_freq && freq <= self.max_freq {
                let b: u64 = self.bucket_value(mags, i);
                let ghost oldout: Seq<u64> = out@;
                out[filled] = b;
                proof {
                    assert(out@.take(filled + 1) =~= oldout.take(filled as int).push(b));
                    assert(out@.take(filled + 1) + self.spec_buckets(
                        mags@,
                        i + 1,
                        self.bins - (filled + 1),
                    ) =~= oldout.take(filled as int) + (seq![b] + self.spec_buckets(
                        mags@,
                        i + 1,
                        self.bins - (filled + 1),
                    )));
                }
                filled = filled + 1;
            } else {
                proof {
                    assert(!self.spec_accepts(i as int));
                }
            }
            i = i + 1;
        }
        proof {
            assert(self.spec_buckets(mags@, i as int, self.bins - filled) =~= Seq::<u64>::empty());
            assert(full =~= out@.take(filled as int));
            assert(out@ =~= full + old(out)@.skip(filled as int));
        }
    }
}

} // verus!
