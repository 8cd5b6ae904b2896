//! The spectral analyzer: turns one fixed-size window's frequency-domain
//! transform into its magnitude spectrum.
//!
//! The forward transform itself is complex floating-point work done by the
//! host; the analyzer consumes its coefficients in fixed-point form, keeps
//! only the first half (the rest mirrors it for real input) and extracts the
//! complex norm of each coefficient with an exact integer square root.

use vstd::prelude::*;
use crate::fixed::{isqrt, spec_isqrt};

verus! {

/// One complex coefficient of the transform, `FP_ONE`-scaled.
#[derive(Clone, Copy, PartialEq, Eq, Structural, Debug)]
pub struct SpectrumPoint {
    pub re: i64,
    pub im: i64,
}

/// Largest magnitude either component of a coefficient may have (`2^30`); a
/// window of `FP_ONE`-scaled samples of length at most `2^20` keeps its
/// transform inside this bound, and the host clamps before handing over.
pub const SPECTRUM_COMPONENT_LIMIT: i64 = 0x40000000;

/// Every extracted magnitude is below this bound (`2^31`).
pub const MAGNITUDE_LIMIT: u64 = 0x80000000;

/// The complex norm of one coefficient: `floor(sqrt(re^2 + im^2))`.
pub open spec fn spec_magnitude(c: SpectrumPoint) -> nat {
    spec_isqrt((c.re * c.re + c.im * c.im) as nat)
}

/// The magnitude spectrum: norms of the first half of the coefficients.
pub open spec fn spec_magnitudes(sp: Seq<SpectrumPoint>) -> Seq<nat> {
    Seq::new((sp.len() / 2) as nat, |i: int| spec_magnitude(sp[i]))
}

/// Deterministic pure transform from one spectrum window to magnitudes;
/// configured once with the transform size `N`.
pub struct SpectralAnalyzer {
    pub n: usize,
}

impl SpectralAnalyzer {
    pub open spec fn wf(&self) -> bool {
        4 <= self.n <= 0x100000
    }

    pub fn new(n: usize) -> (r: Self)
        requires
            4 <= n <= 0x100000,
        ensures
            r.wf(),
            r.n == n,
    {
        SpectralAnalyzer { n }
    }

    /// Magnitude spectrum of exactly one window.  The window length must be
    /// exactly `N`: an undersized window is a programming error, not a
    /// recoverable state, so it is excluded here rather than padded.
    pub fn process(&self, spectrum: &Vec<SpectrumPoint>) -> (mags: Vec<u64>)
        requires
            self.wf(),
            spectrum@.len() == self.n,
            forall|i: int|
                0 <= i < spectrum@.len() ==> -SPECTRUM_COMPONENT_LIMIT <= (
                #[trigger] spectrum@[i]).re <= SPECTRUM_COMPONENT_LIMIT
                    && -SPECTRUM_COMPONENT_LIMIT <= spectrum@[i].im <= SPECTRUM_COMPONENT_LIMIT,
        ensures
            mags@.len() == self.n / 2,
            forall|i: int|
                0 <= i < mags@.len() ==> #[trigger] mags@[i] == spec_magnitudes(spectrum@)[i],
            forall|i: int| 0 <= i < mags@.len() ==> #[trigger] mags@[i] < MAGNITUDE_LIMIT,
    {
        let half: usize = self.n / 2;
        let mut mags: Vec<u64> = Vec::new();
        let mut i: usize = 0;
        while i < half
            invariant
                i <= half,
                half == self.n / 2,
                spectrum@.len() == self.n,
                self.wf(),
                forall|k: int|
                    0 <= k < spectrum@.len() ==> -SPECTRUM_COMPONENT_LIMIT <= (
                    #[trigger] spectrum@[k]).re <= SPECTRUM_COMPONENT_LIMIT
                        && -SPECTRUM_COMPONENT_LIMIT <= spectrum@[k].im <= SPECTRUM_COMPONENT_LIMIT,
                mags@.len() == i,
                forall|k: int| 0 <= k < i ==> #[trigger] mags@[k] == spec_magnitude(spectrum@[k]),
                forall|k: int| 0 <= k < i ==> #[trigger] mags@[k] < MAGNITUDE_LIMIT,
            decreases half - i,
        {
            let c: SpectrumPoint = spectrum[i];
            proof {
                assert(0 <= c.re * c.re <= 0x1000000000000000) by (nonlinear_arith)
                    requires
                        -0x40000000 <= c.re <= 0x40000000,
                ;
                assert(0 <= c.im * c.im <= 0x1000000000000000) by (nonlinear_arith)
                    requires
                        -0x40000000 <= c.im <= 0x40000000,
                ;
            }
            let energy: i64 = c.re * c.re + c.im * c.im;
            let m: u64 = isqrt(energy as u64);
            mags.push(m);
            i = i + 1;
        }
        mags
    }
}

/// Determinism: the magnitude transform is a function of its input alone —
/// any two outputs that `process`'s contract admits for the same spectrum
/// window are equal, element for element.
pub proof fn lemma_process_deterministic(sp: Seq<SpectrumPoint>, a: Seq<u64>, b: Seq<u64>)
    requires
        a.len() == sp.len() / 2,
        b.len() == sp.len() / 2,
        forall|i: int| 0 <= i < a.len() ==> #[trigger] a[i] == spec_magnitudes(sp)[i],
        forall|i: int| 0 <= i < b.len() ==> #[trigger] b[i] == spec_magnitudes(sp)[i],
    ensures
        a == b,
{
    assert(a =~= b);
}

} // verus!
