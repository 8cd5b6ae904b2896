//! The per-frame pipeline: drain → magnitudes → buckets → smoothing, with
//! one fixed configuration chosen at startup.
//!
//! The host's frame loop briefly locks the capture buffer to copy and drain,
//! releases it, runs the frequency transform, and hands the coefficients to
//! `Pipeline::frame`; when too few samples arrived it calls
//! `Pipeline::frame_idle` instead, so smoothing still runs every frame.

use vstd::prelude::*;
use vstd::arithmetic::div_mod::lemma_div_of0;
use crate::analyzer::{SpectralAnalyzer, SpectrumPoint, spec_magnitude, SPECTRUM_COMPONENT_LIMIT};
use crate::mapper::{PerceptualMapper, BUCKET_LIMIT, spec_weighted, spec_db20};
use crate::smoother::{TemporalSmoother, spec_smooth_step, spec_seq_max};

verus! {

/// Default audible window and averaging width of the mapping stage.
pub const DEFAULT_MIN_FREQ: u64 = 20;

pub const DEFAULT_MAX_FREQ: u64 = 20000;

pub const DEFAULT_AVG_FACTOR: usize = 16;

/// Default silence floor: `0.1` in the doubled fixed-point scale bucket
/// values carry (a decibel value times a warp weight, each `FP_ONE`-scaled).
pub const DEFAULT_SILENCE_FLOOR: u64 = 104857;

/// Fixed configuration, not runtime-editable.
pub struct PipelineConfig {
    /// Transform size `N`.
    pub n: usize,
    pub sample_rate: u64,
    /// Visual bucket count `M`.
    pub bins: usize,
    pub min_freq: u64,
    pub max_freq: u64,
    pub avg_factor: usize,
    pub alpha_num: u64,
    pub alpha_den: u64,
    pub silence_floor: u64,
}

impl PipelineConfig {
    pub open spec fn wf(&self) -> bool {
        &&& 4 <= self.n <= 0x100000
        &&& 2 <= self.sample_rate <= 0x400000
        &&& 1 <= self.bins <= 0x100000
        &&& 1 <= self.avg_factor <= 64
        &&& self.min_freq <= self.max_freq <= 0x100000
        &&& 1 <= self.alpha_num <= self.alpha_den <= 1024
        &&& self.silence_floor <= BUCKET_LIMIT
    }

    /// The startup derivation: a tenth of the sample rate as the transform
    /// size, a quarter of that less the sub-audible bins as the bucket
    /// count, and the default tunables everywhere else.
    pub fn default_for(sample_rate: u64) -> (r: Self)
        requires
            8000 <= sample_rate <= 0x400000,
        ensures
            r.wf(),
            r.n == sample_rate as int / 10,
            r.sample_rate == sample_rate,
            r.bins == r.n as int / 4 - 199,
            r.min_freq == DEFAULT_MIN_FREQ,
            r.max_freq == DEFAULT_MAX_FREQ,
            r.avg_factor == DEFAULT_AVG_FACTOR,
            r.alpha_num == 1,
            r.alpha_den == 4,
            r.silence_floor == DEFAULT_SILENCE_FLOOR,
    {
        let n: usize = (sample_rate / 10) as usize;
        PipelineConfig {
            n,
            sample_rate,
            bins: n / 4 - 199,
            min_freq: DEFAULT_MIN_FREQ,
            max_freq: DEFAULT_MAX_FREQ,
            avg_factor: DEFAULT_AVG_FACTOR,
            alpha_num: 1,
            alpha_den: 4,
            silence_floor: DEFAULT_SILENCE_FLOOR,
        }
    }
}

/// The magnitude sequence of one frame, as the carried values.
pub open spec fn spec_frame_mags(sp: Seq<SpectrumPoint>) -> Seq<u64> {
    Seq::new((sp.len() / 2) as nat, |i: int| spec_magnitude(sp[i]) as u64)
}

/// The whole per-frame state: one analyzer, one mapper, one smoother, and
/// the persistent raw bucket array (slots a sparse frame does not fill keep
/// stale values by design; the array is zero-initialized at startup).
pub struct Pipeline {
    pub analyzer: SpectralAnalyzer,
    pub mapper: PerceptualMapper,
    pub smoother: TemporalSmoother,
    pub raw: Vec<u64>,
}

impl Pipeline {
    pub open spec fn wf(&self) -> bool {
        &&& self.analyzer.wf()
        &&& self.mapper.wf()
        &&& self.smoother.wf()
        &&& self.analyzer.n == self.mapper.n
        &&& self.raw@.len() == self.mapper.bins
        &&& self.smoother.smoothed@.len() == self.mapper.bins
        &&& forall|i: int| 0 <= i < self.raw@.len() ==> #[trigger] self.raw@[i] <= BUCKET_LIMIT
    }

    pub fn new(cfg: &PipelineConfig) -> (r: Self)
        requires
            cfg.wf(),
        ensures
            r.wf(),
            r.analyzer.n == cfg.n,
            r.mapper == (PerceptualMapper {
                n: cfg.n,
                sample_rate: cfg.sample_rate,
                bins: cfg.bins,
                min_freq: cfg.min_freq,
                max_freq: cfg.max_freq,
                avg_factor: cfg.avg_factor,
            }),
            r.smoother.alpha_num == cfg.alpha_num,
            r.smoother.alpha_den == cfg.alpha_den,
            r.smoother.silence_floor == cfg.silence_floor,
            r.smoother.running_max == 0,
            r.raw@.len() == cfg.bins,
            forall|i: int| 0 <= i < cfg.bins ==> #[trigger] r.raw@[i] == 0,
            forall|i: int| 0 <= i < cfg.bins ==> #[trigger] r.smoother.smoothed@[i] == 0,
    {
        let analyzer = SpectralAnalyzer::new(cfg.n);
        let mapper = PerceptualMapper {
            n: cfg.n,
            sample_rate: cfg.sample_rate,
            bins: cfg.bins,
            min_freq: cfg.min_freq,
            max_freq: cfg.max_freq,
            avg_factor: cfg.avg_factor,
        };
        let smoother = TemporalSmoother::new(
            cfg.alpha_num,
            cfg.alpha_den,
            cfg.silence_floor,
            cfg.bins,
        );
        let mut raw: Vec<u64> = Vec::new();
        let mut i: usize = 0;
        while i < cfg.bins
            invariant
                i <= cfg.bins,
                raw@.len() == i,
                forall|j: int| 0 <= j < i ==> #[trigger] raw@[j] == 0,
            decreases cfg.bins - i,
        {
            raw.push(0);
            i = i + 1;
        }
        Pipeline { analyzer, mapper, smoother, raw }
    }

    /// A full frame: extract magnitudes from the transform window, reduce
    /// them to buckets, then smooth and ratchet.
    pub fn frame(&mut self, spectrum: &Vec<SpectrumPoint>)
        requires
            old(self).wf(),
            spectrum@.len() == old(self).analyzer.n,
            forall|i: int|
                0 <= i < spectrum@.len() ==> -SPECTRUM_COMPONENT_LIMIT <= (
                #[trigger] spectrum@[i]).re <= SPECTRUM_COMPONENT_LIMIT
                    && -SPECTRUM_COMPONENT_LIMIT <= spectrum@[i].im <= SPECTRUM_COMPONENT_LIMIT,
        ensures
            final(self).wf(),
            final(self).analyzer == old(self).analyzer,
            final(self).mapper == old(self).mapper,
            final(self).smoother.alpha_num == old(self).smoother.alpha_num,
            final(self).smoother.alpha_den == old(self).smoother.alpha_den,
            final(self).smoother.silence_floor == old(self).smoother.silence_floor,
            final(self).raw@ == old(self).mapper.spec_buckets(
                spec_frame_mags(spectrum@),
                0,
                old(self).mapper.bins as int,
            ) + old(self).raw@.skip(
                old(self).mapper.spec_buckets(
                    spec_frame_mags(spectrum@),
                    0,
                    old(self).mapper.bins as int,
                ).len() as int,
            ),
            final(self).raw@.len() == old(self).mapper.bins,
            final(self).smoother.smoothed@.len() == old(self).mapper.bins,
            forall|i: int|
                0 <= i < final(self).raw@.len() ==> #[trigger] final(self).smoother.smoothed@[i]
                    == spec_smooth_step(
                    old(self).smoother.smoothed@[i] as int,
                    final(self).raw@[i] as int,
                    old(self).smoother.alpha_num as int,
                    old(self).smoother.alpha_den as int,
                ),
            final(self).smoother.running_max == (if spec_seq_max(final(self).raw@) >= old(
                self,
            ).smoother.running_max {
                spec_seq_max(final(self).raw@)
            } else {
                old(self).smoother.running_max as int
            }),
            old(self).smoother.running_max <= final(self).smoother.running_max,
    {
        let mags: Vec<u64> = self.analyzer.process(spectrum);
        proof {
            assert(mags@ =~= spec_frame_mags(spectrum@));
        }
        self.mapper.reduce(&mags, &mut self.raw);
        proof {
            let vals = self.mapper.spec_buckets(mags@, 0, self.mapper.bins as int);
            assert forall|j: int| 0 <= j < self.raw@.len() implies #[trigger] self.raw@[j]
                <= BUCKET_LIMIT by {
                if j >= vals.len() {
                    assert(self.raw@[j] == old(self).raw@.skip(vals.len() as int)[j - vals.len()]);
                }
            }
        }
        self.smoother.update(&self.raw);
    }

    /// A frame in which the transform was skipped for lack of samples: the
    /// raw array is left as it stands — or held at the silence floor when
    /// the capture buffer was entirely empty — and smoothing runs anyway.
    pub fn frame_idle(&mut self, buffer_was_empty: bool)
        requires
            old(self).wf(),
        ensures
            final(self).wf(),
            final(self).analyzer == old(self).analyzer,
            final(self).mapper == old(self).mapper,
            final(self).smoother.alpha_num == old(self).smoother.alpha_num,
            final(self).smoother.alpha_den == old(self).smoother.alpha_den,
            final(self).smoother.silence_floor == old(self).smoother.silence_floor,
            final(self).raw@.len() == old(self).raw@.len(),
            buffer_was_empty ==> forall|i: int|
                0 <= i < final(self).raw@.len() ==> #[trigger] final(self).raw@[i] == old(
                    self,
                ).smoother.silence_floor,
            !buffer_was_empty ==> final(self).raw@ == old(self).raw@,
            final(self).smoother.smoothed@.len() == old(self).smoother.smoothed@.len(),
            forall|i: int|
                0 <= i < final(self).raw@.len() ==> #[trigger] final(self).smoother.smoothed@[i]
                    == spec_smooth_step(
                    old(self).smoother.smoothed@[i] as int,
                    final(self).raw@[i] as int,
                    old(self).smoother.alpha_num as int,
                    old(self).smoother.alpha_den as int,
                ),
            final(self).smoother.running_max == (if spec_seq_max(final(self).raw@) >= old(
                self,
            ).smoother.running_max {
                spec_seq_max(final(self).raw@)
            } else {
                old(self).smoother.running_max as int
            }),
            old(self).smoother.running_max <= final(self).smoother.running_max,
    {
        if buffer_was_empty {
            self.smoother.apply_silence_floor(&mut self.raw);
        }
        self.smoother.update(&self.raw);
    }
}

/// Silence in, zeros out, first stage: a window whose coefficients are all
/// zero has an all-zero magnitude spectrum.
pub proof fn lemma_zero_window_zero_magnitudes(sp: Seq<SpectrumPoint>)
    requires
        forall|i: int| 0 <= i < sp.len() ==> (#[trigger] sp[i]).re == 0 && sp[i].im == 0,
    ensures
        forall|i: int|
            0 <= i < spec_frame_mags(sp).len() ==> #[trigger] spec_frame_mags(sp)[i] == 0,
{
    assert forall|i: int|
        0 <= i < spec_frame_mags(sp).len() implies #[trigger] spec_frame_mags(sp)[i] == 0 by {
        assert(sp[i].re * sp[i].re + sp[i].im * sp[i].im == 0);
        assert(crate::fixed::spec_isqrt(0nat) == 0);
    }
}

/// The forward window over all-zero magnitudes sums to zero.
pub proof fn lemma_window_sum_zero(m: PerceptualMapper, mags: Seq<u64>, i: int, k: int)
    requires
        m.wf(),
        0 <= i,
        0 <= k,
        forall|j: int| 0 <= j < mags.len() ==> #[trigger] mags[j] == 0,
    ensures
        m.spec_window_sum(mags, i, k) == 0,
    decreases m.avg_factor - k,
{
    if k >= m.avg_factor {
    } else {
        lemma_window_sum_zero(m, mags, i, k + 1);
        if i + k < mags.len() {
            assert(spec_db20(mags[i + k] as nat) == 0);
            assert(spec_weighted(mags[i + k] as nat, m.spec_bin_freq(i + k) as nat) == 0);
        }
    }
}

/// Silence in, zeros out, second stage: all-zero magnitudes give all-zero
/// buckets — the floored logarithm of a silent bin contributes exactly zero.
pub proof fn lemma_zero_magnitudes_zero_buckets(
    m: PerceptualMapper,
    mags: Seq<u64>,
    i: int,
    room: int,
)
    requires
        m.wf(),
        0 <= i,
        mags.len() <= 0x80000,
        forall|j: int| 0 <= j < mags.len() ==> #[trigger] mags[j] == 0,
    ensures
        forall|j: int|
            0 <= j < m.spec_buckets(mags, i, room).len() ==> #[trigger] m.spec_buckets(
                mags,
                i,
                room,
            )[j] == 0,
    decreases mags.len() - i,
{
    if i >= mags.len() || room <= 0 || i < 0 {
    } else if m.spec_accepts(i) {
        lemma_zero_magnitudes_zero_buckets(m, mags, i + 1, room - 1);
        lemma_window_sum_zero(m, mags, i, 0);
        m.lemma_window_count_bounds(mags.len() as int, i, 0);
        assert(spec_weighted(mags[i] as nat, m.spec_bin_freq(i) as nat) == 0);
        let count = m.avg_factor + m.spec_window_count(mags.len() as int, i, 0);
        lemma_div_of0(count);
        assert(m.spec_bucket(mags, i) == 0);
        assert forall|j: int|
            0 <= j < m.spec_buckets(mags, i, room).len() implies #[trigger] m.spec_buckets(
            mags,
            i,
            room,
        )[j] == 0 by {
            assert(m.spec_buckets(mags, i, room) == seq![m.spec_bucket(mags, i) as u64]
                + m.spec_buckets(mags, i + 1, room - 1));
            if j == 0 {
                assert(m.spec_buckets(mags, i, room)[0] == m.spec_bucket(mags, i) as u64);
            } else {
                assert(m.spec_buckets(mags, i, room)[j] == m.spec_buckets(mags, i + 1, room - 1)[j
                    - 1]);
            }
        }
    } else {
        lemma_zero_magnitudes_zero_buckets(m, mags, i + 1, room);
        assert forall|j: int|
            0 <= j < m.spec_buckets(mags, i, room).len() implies #[trigger] m.spec_buckets(
            mags,
            i,
            room,
        )[j] == 0 by {
            assert(m.spec_buckets(mags, i, room) == m.spec_buckets(mags, i + 1, room));
            assert(m.spec_buckets(mags, i + 1, room)[j] == 0);
        }
    }
}

/// End-to-end silence: an all-zero transform window yields an all-zero
/// magnitude spectrum, which yields an all-zero bucket array.
pub proof fn lemma_zero_window_zero_frame(m: PerceptualMapper, sp: Seq<SpectrumPoint>, room: int)
    requires
        m.wf(),
        sp.len() <= 0x100000,
        forall|i: int| 0 <= i < sp.len() ==> (#[trigger] sp[i]).re == 0 && sp[i].im == 0,
    ensures
        forall|i: int|
            0 <= i < spec_frame_mags(sp).len() ==> #[trigger] spec_frame_mags(sp)[i] == 0,
        forall|j: int|
            0 <= j < m.spec_buckets(spec_frame_mags(sp), 0, room).len() ==> #[trigger] m.spec_buckets(
                spec_frame_mags(sp),
                0,
                room,
            )[j] == 0,
{
    lemma_zero_window_zero_magnitudes(sp);
    lemma_zero_magnitudes_zero_buckets(m, spec_frame_mags(sp), 0, room);
}

} // verus!
