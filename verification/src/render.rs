//! Draw-instruction geometry: turns the smoothed bucket array (or the raw
//! waveform) into an ordered list of line segments with positions, widths
//! and colors, all `FP_ONE`-scaled so the host only divides by the unit and
//! draws.  The host supplies the display geometry once per frame.

use vstd::prelude::*;
use vstd::arithmetic::div_mod::{
    lemma_div_is_ordered, lemma_div_by_multiple, lemma_div_nonincreasing,
};
use crate::fixed::{isqrt, spec_isqrt};
use crate::mapper::BUCKET_LIMIT;

verus! {

/// One line segment to draw: endpoints and thickness in `FP_ONE`-scaled
/// pixels, color channels `FP_ONE`-scaled in roughly `[0, 1]`.
#[derive(Clone, Copy, PartialEq, Eq, Structural, Debug)]
pub struct LineCmd {
    pub x0: i64,
    pub y0: i64,
    pub x1: i64,
    pub y1: i64,
    pub thickness: i64,
    pub red: i64,
    pub green: i64,
    pub blue: i64,
    pub alpha: i64,
}

/// The low-frequency stretch of the spectrum display: column `it` of `len`
/// is widened by the factor `(len - it) * LOW_STRETCH_NUM / LOW_STRETCH_DEN`
/// — the display constant `4800 / 9.9`, kept as the exact ratio
/// `16000 / 33` rather than "corrected", since it shapes the picture.
pub const LOW_STRETCH_NUM: u64 = 33;

pub const LOW_STRETCH_DEN: u64 = 16000;

/// Base column width: the display width split evenly over the buckets.
pub open spec fn spec_freq_base_delta(len: int, w: int) -> int {
    w * 1024 / len
}

/// Stretched width of column `it`.
pub open spec fn spec_freq_xdelta(len: int, w: int, it: int) -> int {
    spec_freq_base_delta(len, w) * (len - it) * 33 / 16000
}

/// Left edge of column `it`: the sum of all earlier column widths.
pub open spec fn spec_freq_x(len: int, w: int, it: int) -> int
    decreases it,
{
    if it <= 0 {
        0
    } else {
        spec_freq_x(len, w, it - 1) + spec_freq_xdelta(len, w, it - 1)
    }
}

/// A bucket value normalized against the running maximum, `FP_ONE`-scaled
/// into `[0, 1]`.  Before the first non-silent frame the maximum is zero and
/// every value is zero as well; the display is blank rather than divided by
/// zero.
pub open spec fn spec_normal(v: int, rm: int) -> int {
    if rm == 0 {
        0
    } else {
        v * 1024 / rm
    }
}

/// `sqrt(it / len)`, `FP_ONE`-scaled: the color ramp position of column `it`.
pub open spec fn spec_color_ramp(it: int, len: int) -> int {
    spec_isqrt(((it * 1024 / len) * 1024) as nat) as int
}

/// The spectrum column for bucket `it`: a vertical line from the bottom
/// edge, its height half the display scaled by the normalized value, colored
/// from red at the low end to blue at the high end.
pub open spec fn spec_freq_cmd(s: Seq<u64>, rm: int, w: int, h: int, it: int) -> LineCmd {
    let len = s.len() as int;
    let xq = spec_freq_x(len, w, it);
    let hq = h * 1024;
    let nq = spec_normal(s[it] as int, rm);
    let ramp = spec_color_ramp(it, len);
    LineCmd {
        x0: xq as i64,
        y0: hq as i64,
        x1: xq as i64,
        y1: (hq - nq * hq / 2048) as i64,
        thickness: spec_freq_xdelta(len, w, it) as i64,
        red: (1024 - ramp) as i64,
        green: 0,
        blue: ramp as i64,
        alpha: 1024,
    }
}

/// The spectrum display: one instruction per visual bucket, in increasing
/// frequency order.
pub fn frequency_draw_commands(
    smoothed: &Vec<u64>,
    running_max: u64,
    width_px: u64,
    height_px: u64,
) -> (r: Vec<LineCmd>)
    requires
        forall|i: int| 0 <= i < smoothed@.len() ==> #[trigger] smoothed@[i] <= running_max,
        running_max <= BUCKET_LIMIT,
        1 <= width_px <= 0x10000,
        height_px <= 0x10000,
        smoothed@.len() <= 0x100000,
    ensures
        r@.len() == smoothed@.len(),
        forall|it: int|
            0 <= it < r@.len() ==> #[trigger] r@[it] == spec_freq_cmd(
                smoothed@,
                running_max as int,
                width_px as int,
                height_px as int,
                it,
            ),
{
    let mut r: Vec<LineCmd> = Vec::new();
    let len: usize = smoothed.len();
    if len == 0 {
        return r;
    }
    let base: u64 = width_px * 1024 / (len as u64);
    proof {
        lemma_div_nonincreasing(width_px as int * 1024, len as int);
    }
    let hq: u64 = height_px * 1024;
    let mut cur_x: u64 = 0;
    let mut it: usize = 0;
    while it < len
        invariant
            it <= len,
            1 <= len == smoothed@.len() <= 0x100000,
            forall|i: int| 0 <= i < smoothed@.len() ==> #[trigger] smoothed@[i] <= running_max,
            running_max <= BUCKET_LIMIT,
            1 <= width_px <= 0x10000,
            height_px <= 0x10000,
            base == spec_freq_base_delta(len as int, width_px as int),
            base <= 0x4000000,
            hq == height_px * 1024,
            cur_x == spec_freq_x(len as int, width_px as int, it as int),
            cur_x <= 0x8000000000 * (it as u64),
            r@.len() == it,
            forall|j: int|
                0 <= j < it ==> #[trigger] r@[j] == spec_freq_cmd(
                    smoothed@,
                    running_max as int,
                    width_px as int,
                    height_px as int,
                    j,
                ),
        decreases len - it,
    {
        let rem: u64 = (len - it) as u64;
        proof {
            assert(base * rem <= 0x4000000 * 0x100000) by (nonlinear_arith)
                requires
                    base <= 0x4000000,
                    rem <= 0x100000,
            ;
        }
        let xd: u64 = base * rem * 33 / 16000;
        let v: u64 = smoothed[it];
        let nq: u64 = if running_max == 0 {
            0
        } else {
            proof {
                lemma_div_is_ordered(
                    v as int * 1024,
                    running_max as int * 1024,
                    running_max as int,
                );
                lemma_div_by_multiple(1024, running_max as int);
            }
            (v * 1024) / running_max
        };
        proof {
            assert(nq * hq <= 1024 * 0x4000000) by (nonlinear_arith)
                requires
                    nq <= 1024,
                    hq <= 0x4000000,
            ;
            assert(nq * hq <= 2048 * hq) by (nonlinear_arith)
                requires
                    nq <= 1024,
            ;
            lemma_div_is_ordered(nq as int * hq as int, 2048 * hq as int, 2048);
            lemma_div_by_multiple(hq as int, 2048);
        }
        let dip: u64 = nq * hq / 2048;
        proof {
            lemma_div_is_ordered(it as int * 1024, len as int * 1024, len as int);
            lemma_div_by_multiple(1024, len as int);
        }
        let pct: u64 = (it as u64) * 1024 / (len as u64);
        let pq: u64 = pct * 1024;
        let ramp: u64 = isqrt(pq);
        proof {
            assert(ramp <= 1024) by (nonlinear_arith)
                requires
                    ramp * ramp <= pq,
                    pq <= 0x100000,
            ;
        }
        let cmd = LineCmd {
            x0: cur_x as i64,
            y0: hq as i64,
            x1: cur_x as i64,
            y1: (hq - dip) as i64,
            thickness: xd as i64,
            red: (1024 - ramp) as i64,
            green: 0,
            blue: ramp as i64,
            alpha: 1024,
        };
        r.push(cmd);
        proof {
            assert(cmd == spec_freq_cmd(
                smoothed@,
                running_max as int,
                width_px as int,
                height_px as int,
                it as int,
            ));
        }
        cur_x = cur_x + xd;
        it = it + 1;
    }
    r
}

/// Sampling stride of the waveform display: at least one, wider when there
/// are more samples than display columns.
pub open spec fn spec_wave_stride(len: int, w: int) -> int {
    if len / w >= 1 {
        len / w
    } else {
        1
    }
}

/// A sample offset in `FP_ONE`-scaled pixels: the sample value (already
/// `FP_ONE`-scaled) times the display amplitude, truncated toward zero.
pub open spec fn spec_scaled_offset(s: int, amp: int) -> int {
    if s >= 0 {
        s * amp / 1024
    } else {
        -((-s) * amp / 1024)
    }
}

/// The waveform color position: the sample against a `0.4` full-scale,
/// i.e. `|s| * 5 / 2` in `FP_ONE` scale, deliberately not clamped — the
/// host's color type tolerates out-of-range channels.
pub open spec fn spec_wave_color(s: int) -> int {
    (if s >= 0 {
        s
    } else {
        -s
    }) * 5 / 2
}

/// The waveform segment starting at sample `it`, connecting it to the sample
/// one stride later.
pub open spec fn spec_wave_cmd(samples: Seq<i32>, w: int, h: int, it: int) -> LineCmd {
    let len = samples.len() as int;
    let stride = spec_wave_stride(len, w);
    let base = w * 1024 / len;
    let amp = h * 1024 / 4;
    let mid = h * 1024 / 2;
    let dn = spec_wave_color(samples[it] as int);
    LineCmd {
        x0: (it * base) as i64,
        y0: (mid + spec_scaled_offset(samples[it] as int, amp)) as i64,
        x1: ((it + stride) * base) as i64,
        y1: (mid + spec_scaled_offset(samples[it + stride] as int, amp)) as i64,
        thickness: 2048,
        red: dn as i64,
        green: 0,
        blue: (1024 - dn) as i64,
        alpha: 1024,
    }
}

/// The waveform segments from sample `it` on, one per stride, stopping a
/// stride short of the end.
pub open spec fn spec_wave_cmds(samples: Seq<i32>, w: int, h: int, it: int) -> Seq<LineCmd>
    decreases samples.len() - it,
{
    let len = samples.len() as int;
    let stride = spec_wave_stride(len, w);
    if it < 0 || stride < 1 || it + 1 + stride >= len {
        Seq::empty()
    } else {
        seq![spec_wave_cmd(samples, w, h, it)] + spec_wave_cmds(samples, w, h, it + stride)
    }
}

/// The raw waveform display: the sample stream drawn as connected segments,
/// red where loud, blue where quiet.
pub fn wave_draw_commands(samples: &Vec<i32>, width_px: u64, height_px: u64) -> (r: Vec<LineCmd>)
    requires
        samples@.len() <= 0x40000000,
        1 <= width_px <= 0x10000,
        height_px <= 0x10000,
    ensures
        r@ == spec_wave_cmds(samples@, width_px as int, height_px as int, 0),
{
    let ghost w: int = width_px as int;
    let ghost h: int = height_px as int;
    let mut r: Vec<LineCmd> = Vec::new();
    let len: usize = samples.len();
    if len == 0 {
        proof {
            assert(spec_wave_cmds(samples@, w, h, 0) =~= Seq::<LineCmd>::empty());
        }
        return r;
    }
    let mut stride: usize = len / (width_px as usize);
    if stride < 1 {
        stride = 1;
    }
    let base: u64 = width_px * 1024 / (len as u64);
    proof {
        lemma_div_nonincreasing(width_px as int * 1024, len as int);
    }
    let amp: u64 = height_px * 1024 / 4;
    let mid: u64 = height_px * 1024 / 2;
    let mut it: usize = 0;
    while it + 1 + stride < len
        invariant
            0 <= it < len,
            len == samples@.len() <= 0x40000000,
            1 <= width_px <= 0x10000,
            height_px <= 0x10000,
            stride == spec_wave_stride(len as int, w),
            1 <= stride <= len,
            base == w * 1024 / len as int,
            base <= 0x4000000,
            amp == h * 1024 / 4,
            mid == h * 1024 / 2,
            w == width_px as int,
            h == height_px as int,
            spec_wave_cmds(samples@, w, h, 0) == r@ + spec_wave_cmds(samples@, w, h, it as int),
        decreases len - it,
    {
        proof {
            assert((it as u64) * base <= 0x40000000 * 0x4000000) by (nonlinear_arith)
                requires
                    it <= 0x40000000,
                    base <= 0x4000000,
            ;
            assert(((it + stride) as u64) * base <= 0x80000000 * 0x4000000) by (nonlinear_arith)
                requires
                    it + stride <= 0x80000000,
                    base <= 0x4000000,
            ;
        }
        let s0: i32 = samples[it];
        let s1: i32 = samples[it + stride];
        let cmd = LineCmd {
            x0: ((it as u64) * base) as i64,
            y0: mid as i64 + scaled_offset(s0, amp),
            x1: (((it + stride) as u64) * base) as i64,
            y1: mid as i64 + scaled_offset(s1, amp),
            thickness: 2048,
            red: wave_color(s0),
            green: 0,
            blue: 1024 - wave_color(s0),
            alpha: 1024,
        };
        proof {
            assert(cmd == spec_wave_cmd(samples@, w, h, it as int));
            assert(spec_wave_cmds(samples@, w, h, it as int) == seq![
                spec_wave_cmd(samples@, w, h, it as int),
            ] + spec_wave_cmds(samples@, w, h, it + stride));
            assert(r@.push(cmd) + spec_wave_cmds(samples@, w, h, it + stride) =~= r@ + (seq![
                spec_wave_cmd(samples@, w, h, it as int),
            ] + spec_wave_cmds(samples@, w, h, it + stride)));
        }
        r.push(cmd);
        it = it + stride;
    }
    proof {
        assert(spec_wave_cmds(samples@, w, h, it as int) =~= Seq::<LineCmd>::empty());
        assert(r@ =~= r@ + spec_wave_cmds(samples@, w, h, it as int));
    }
    r
}

/// One sample's vertical offset, executable.
fn scaled_offset(s: i32, amp: u64) -> (r: i64)
    requires
        amp <= 0x1000000,
    ensures
        r == spec_scaled_offset(s as int, amp as int),
        -0x200000000000 <= r <= 0x200000000000,
{
    proof {
        assert((0x80000000 as u64) * amp <= 0x80000000 * 0x1000000) by (nonlinear_arith)
            requires
                amp <= 0x1000000,
        ;
        assert forall|a: u64| a <= 0x80000000 implies #[trigger] (a * amp) <= 0x80000000 * amp by {
            assert(a * amp <= 0x80000000 * amp) by (nonlinear_arith)
                requires
                    a <= 0x80000000,
            ;
        }
    }
    if s >= 0 {
        let m: u64 = (s as u64) * amp / 1024;
        proof {
            lemma_div_nonincreasing((s as u64 * amp) as int, 1024);
        }
        m as i64
    } else {
        let a: u64 = (-(s as i64)) as u64;
        let m: u64 = a * amp / 1024;
        proof {
            lemma_div_nonincreasing((a * amp) as int, 1024);
        }
        -(m as i64)
    }
}

/// One sample's color position, executable.
fn wave_color(s: i32) -> (r: i64)
    ensures
        r == spec_wave_color(s as int),
        0 <= r <= 0x200000000,
{
    if s >= 0 {
        ((s as i64) * 5 / 2)
    } else {
        ((-(s as i64)) * 5 / 2)
    }
}

/// Which of the display variants runs each frame; chosen at configuration
/// time, not per frame.
pub enum VisualizationStrategy {
    /// The raw waveform of the captured samples.
    AudioWave,
    /// The perceptually mapped, smoothed spectrum.
    FrequencySpectrum,
}

/// The frame's draw instructions under the selected strategy.
pub fn draw_commands(
    strategy: &VisualizationStrategy,
    samples: &Vec<i32>,
    smoothed: &Vec<u64>,
    running_max: u64,
    width_px: u64,
    height_px: u64,
) -> (r: Vec<LineCmd>)
    requires
        forall|i: int| 0 <= i < smoothed@.len() ==> #[trigger] smoothed@[i] <= running_max,
        running_max <= BUCKET_LIMIT,
        1 <= width_px <= 0x10000,
        height_px <= 0x10000,
        smoothed@.len() <= 0x100000,
        samples@.len() <= 0x40000000,
    ensures
        match strategy {
            VisualizationStrategy::AudioWave => r@ == spec_wave_cmds(
                samples@,
                width_px as int,
                height_px as int,
                0,
            ),
            VisualizationStrategy::FrequencySpectrum => {
                &&& r@.len() == smoothed@.len()
                &&& forall|it: int|
                    0 <= it < r@.len() ==> #[trigger] r@[it] == spec_freq_cmd(
                        smoothed@,
                        running_max as int,
                        width_px as int,
                        height_px as int,
                        it,
                    )
            },
        },
{
    match strategy {
        VisualizationStrategy::AudioWave => wave_draw_commands(samples, width_px, height_px),
        VisualizationStrategy::FrequencySpectrum => frequency_draw_commands(
            smoothed,
            running_max,
            width_px,
            height_px,
        ),
    }
}

} // verus!
