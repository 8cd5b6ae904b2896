//! The temporal smoother: stabilizes the raw per-frame bucket array into a
//! persistent smoothed array and keeps the global normalization ratchet.
//!
//! The running maximum is an explicit field constructed at startup and
//! threaded through every update — the monotone "maximum ever seen" without
//! shared mutable global state.

use vstd::prelude::*;
use vstd::arithmetic::div_mod::{
    lemma_div_is_ordered, lemma_div_by_multiple, lemma_div_pos_is_pos, lemma_fundamental_div_mod,
    lemma_mod_bound,
};
use crate::mapper::BUCKET_LIMIT;

verus! {

/// One exponential smoothing step `s + alpha * (r - s)` with
/// `alpha = num / den`; the fixed-point division truncates toward the
/// current value, so the step never overshoots the target.
pub open spec fn spec_smooth_step(s: int, r: int, num: int, den: int) -> int {
    if r >= s {
        s + num * (r - s) / den
    } else {
        s - num * (s - r) / den
    }
}

/// One plain moving-average step `alpha * r + (1 - alpha) * s`: the
/// documented interchangeable alternative to exponential smoothing.
pub open spec fn spec_moving_avg_step(s: int, r: int, num: int, den: int) -> int {
    (num * r + (den - num) * s) / den
}

/// Absolute difference.
pub open spec fn spec_gap(a: int, b: int) -> int {
    if a >= b {
        a - b
    } else {
        b - a
    }
}

/// The largest value of a sequence (zero for an empty one — values here are
/// never negative).
pub open spec fn spec_seq_max(s: Seq<u64>) -> int
    decreases s.len(),
{
    if s.len() == 0 {
        0
    } else {
        let rest = spec_seq_max(s.drop_last());
        if s.last() as int >= rest {
            s.last() as int
        } else {
            rest
        }
    }
}

pub proof fn lemma_seq_max_bounds(s: Seq<u64>, bound: int)
    requires
        forall|i: int| 0 <= i < s.len() ==> #[trigger] s[i] <= bound,
        0 <= bound,
    ensures
        0 <= spec_seq_max(s) <= bound,
        forall|i: int| 0 <= i < s.len() ==> #[trigger] s[i] <= spec_seq_max(s),
    decreases s.len(),
{
    if s.len() == 0 {
    } else {
        lemma_seq_max_bounds(s.drop_last(), bound);
        assert forall|i: int| 0 <= i < s.len() implies #[trigger] s[i] <= spec_seq_max(s) by {
            if i < s.len() - 1 {
                assert(s.drop_last()[i] == s[i]);
            }
        }
    }
}

/// A smoothing step lands between the current value and the target: it never
/// overshoots and never leaves the non-negative range.
pub proof fn lemma_smooth_step_between(s: int, r: int, num: int, den: int)
    requires
        0 <= s,
        0 <= r,
        1 <= num <= den,
    ensures
        r >= s ==> s <= spec_smooth_step(s, r, num, den) <= r,
        r < s ==> r <= spec_smooth_step(s, r, num, den) <= s,
        0 <= spec_smooth_step(s, r, num, den),
{
    if r >= s {
        let e = r - s;
        assert(0 <= num * e <= den * e) by (nonlinear_arith)
            requires
                1 <= num <= den,
                0 <= e,
        ;
        lemma_div_pos_is_pos(num * e, den);
        lemma_div_is_ordered(num * e, den * e, den);
        lemma_div_by_multiple(e, den);
        assert(den * e == e * den) by (nonlinear_arith);
    } else {
        let e = s - r;
        assert(0 <= num * e <= den * e) by (nonlinear_arith)
            requires
                1 <= num <= den,
                0 <= e,
        ;
        lemma_div_pos_is_pos(num * e, den);
        lemma_div_is_ordered(num * e, den * e, den);
        lemma_div_by_multiple(e, den);
        assert(den * e == e * den) by (nonlinear_arith);
    }
}

/// Smoothing convergence: a step moves the value toward the target, and the
/// remaining gap contracts by the factor `(den - num) / den` each frame, up
/// to one unit of fixed-point rounding.  Repeated on a constant target, the
/// smoothed value converges to it.
pub proof fn lemma_smoothing_convergence(s: int, v: int, num: int, den: int)
    requires
        0 <= s,
        0 <= v,
        1 <= num <= den,
    ensures
        spec_gap(spec_smooth_step(s, v, num, den), v) <= spec_gap(s, v),
        den * spec_gap(spec_smooth_step(s, v, num, den), v) <= (den - num) * spec_gap(s, v) + (den
            - 1),
{
    lemma_smooth_step_between(s, v, num, den);
    if v >= s {
        let e = v - s;
        let q = num * e / den;
        lemma_fundamental_div_mod(num * e, den);
        lemma_mod_bound(num * e, den);
        assert(den * q >= num * e - (den - 1));
        assert(den * (e - q) <= (den - num) * e + (den - 1)) by (nonlinear_arith)
            requires
                den * q >= num * e - (den - 1),
                1 <= den,
        ;
    } else {
        let e = s - v;
        let q = num * e / den;
        lemma_fundamental_div_mod(num * e, den);
        lemma_mod_bound(num * e, den);
        assert(den * q >= num * e - (den - 1));
        assert(den * (e - q) <= (den - num) * e + (den - 1)) by (nonlinear_arith)
            requires
                den * q >= num * e - (den - 1),
                1 <= den,
        ;
    }
}

/// Silence decay: when the capture buffer stays empty the raw array is held
/// at the positive silence floor, and each smoothing step pulls the visible
/// value toward that floor — contracting like any other step — while never
/// going negative.
pub proof fn lemma_silence_decay(s: int, floor: int, num: int, den: int)
    requires
        0 <= s,
        0 <= floor,
        1 <= num <= den,
    ensures
        0 <= spec_smooth_step(s, floor, num, den),
        spec_smooth_step(s, floor, num, den) <= (if s >= floor {
            s
        } else {
            floor
        }),
        spec_gap(spec_smooth_step(s, floor, num, den), floor) <= spec_gap(s, floor),
        den * spec_gap(spec_smooth_step(s, floor, num, den), floor) <= (den - num) * spec_gap(
            s,
            floor,
        ) + (den - 1),
{
    lemma_smooth_step_between(s, floor, num, den);
    lemma_smoothing_convergence(s, floor, num, den);
}

proof fn lemma_chain_le(history: Seq<u64>, i: int, j: int)
    requires
        forall|k: int| 0 <= k < history.len() - 1 ==> #[trigger] history[k] <= history[k + 1],
        0 <= i <= j < history.len(),
    ensures
        history[i] <= history[j],
    decreases j - i,
{
    if i < j {
        lemma_chain_le(history, i, j - 1);
        assert(history[j - 1] <= history[j]);
    }
}

/// The ratchet over a whole session: every frame's update leaves the
/// running maximum at least where it was (its contract says so), and so
/// over any sequence of frames the recorded maxima never decrease.
pub proof fn lemma_running_max_monotone(history: Seq<u64>)
    requires
        forall|k: int| 0 <= k < history.len() - 1 ==> #[trigger] history[k] <= history[k + 1],
    ensures
        forall|i: int, j: int|
            0 <= i <= j < history.len() ==> #[trigger] history[i] <= #[trigger] history[j],
{
    assert forall|i: int, j: int|
        0 <= i <= j < history.len() implies #[trigger] history[i] <= #[trigger] history[j] by {
        lemma_chain_le(history, i, j);
    }
}

/// Exponentially smooths bucket values frame to frame and carries the
/// monotone running maximum used for display normalization.
pub struct TemporalSmoother {
    /// Smoothing weight `alpha = alpha_num / alpha_den`, in `(0, 1]`.
    pub alpha_num: u64,
    pub alpha_den: u64,
    /// The small positive value the raw array is held at during silence, so
    /// the display decays gradually instead of snapping to zero.
    pub silence_floor: u64,
    /// The persistent smoothed array: zero-initialized once, then mutated in
    /// place every frame.
    pub smoothed: Vec<u64>,
    /// The largest raw bucket value ever observed; never decreases.
    pub running_max: u64,
}

impl TemporalSmoother {
    pub open spec fn wf(&self) -> bool {
        &&& 1 <= self.alpha_num <= self.alpha_den <= 1024
        &&& self.silence_floor <= BUCKET_LIMIT
        &&& self.running_max <= BUCKET_LIMIT
        &&& forall|i: int|
            0 <= i < self.smoothed@.len() ==> #[trigger] self.smoothed@[i] <= self.running_max
    }

    pub fn new(alpha_num: u64, alpha_den: u64, silence_floor: u64, bins: usize) -> (r: Self)
        requires
            1 <= alpha_num <= alpha_den <= 1024,
            silence_floor <= BUCKET_LIMIT,
        ensures
            r.wf(),
            r.alpha_num == alpha_num,
            r.alpha_den == alpha_den,
            r.silence_floor == silence_floor,
            r.running_max == 0,
            r.smoothed@.len() == bins,
            forall|i: int| 0 <= i < bins ==> #[trigger] r.smoothed@[i] == 0,
    {
        let mut smoothed: Vec<u64> = Vec::new();
        let mut i: usize = 0;
        while i < bins
            invariant
                i <= bins,
                smoothed@.len() == i,
                forall|j: int| 0 <= j < i ==> #[trigger] smoothed@[j] == 0,
            decreases bins - i,
        {
            smoothed.push(0);
            i = i + 1;
        }
        TemporalSmoother { alpha_num, alpha_den, silence_floor, smoothed, running_max: 0 }
    }

    /// The silence policy: hold every raw slot at the positive floor, so
    /// that smoothing decays the display gradually toward it.
    pub fn apply_silence_floor(&self, raw: &mut Vec<u64>)
        ensures
            final(raw)@.len() == old(raw)@.len(),
            forall|i: int|
                0 <= i < final(raw)@.len() ==> #[trigger] final(raw)@[i] == self.silence_floor,
    {
        let n: usize = raw.len();
        let mut i: usize = 0;
        while i < n
            invariant
                i <= n,
                raw@.len() == n,
                forall|j: int| 0 <= j < i ==> #[trigger] raw@[j] == self.silence_floor,
            decreases n - i,
        {
            raw[i] = self.silence_floor;
            i = i + 1;
        }
    }

    /// One frame's update: smooth every slot toward its raw value and ratchet
    /// the running maximum.  Applied every frame, whether or not the spectral
    /// stages ran.  The running maximum never decreases.
    pub fn update(&mut self, raw: &Vec<u64>)
        requires
            old(self).wf(),
            raw@.len() == old(self).smoothed@.len(),
            forall|i: int| 0 <= i < raw@.len() ==> #[trigger] raw@[i] <= BUCKET_LIMIT,
        ensures
            final(self).wf(),
            final(self).alpha_num == old(self).alpha_num,
            final(self).alpha_den == old(self).alpha_den,
            final(self).silence_floor == old(self).silence_floor,
            final(self).smoothed@.len() == old(self).smoothed@.len(),
            forall|i: int|
                0 <= i < raw@.len() ==> #[trigger] final(self).smoothed@[i] == spec_smooth_step(
                    old(self).smoothed@[i] as int,
                    raw@[i] as int,
                    old(self).alpha_num as int,
                    old(self).alpha_den as int,
                ),
            final(self).running_max == (if spec_seq_max(raw@) >= old(self).running_max {
                spec_seq_max(raw@)
            } else {
                old(self).running_max as int
            }),
            old(self).running_max <= final(self).running_max,
    {
        let n: usize = self.smoothed.len();
        let num: u64 = self.alpha_num;
        let den: u64 = self.alpha_den;
        let ghost old_smoothed: Seq<u64> = self.smoothed@;
        let mut i: usize = 0;
        while i < n
            invariant
                i <= n,
                n == old_smoothed.len() == raw@.len(),
                self.smoothed@.len() == n,
                num == self.alpha_num == old(self).alpha_num,
                den == self.alpha_den == old(self).alpha_den,
                self.silence_floor == old(self).silence_floor,
                self.running_max == old(self).running_max,
                old_smoothed == old(self).smoothed@,
                1 <= num <= den <= 1024,
                forall|j: int| 0 <= j < raw@.len() ==> #[trigger] raw@[j] <= BUCKET_LIMIT,
                forall|j: int| 0 <= j < n ==> #[trigger] old_smoothed[j] <= old(self).running_max,
                old(self).running_max <= BUCKET_LIMIT,
                forall|j: int|
                    i <= j < n ==> #[trigger] self.smoothed@[j] == old_smoothed[j],
                forall|j: int|
                    0 <= j < i ==> #[trigger] self.smoothed@[j] == spec_smooth_step(
                        old_smoothed[j] as int,
                        raw@[j] as int,
                        num as int,
                        den as int,
                    ),
                forall|j: int|
                    0 <= j < i ==> #[trigger] self.smoothed@[j] <= (if old_smoothed[j]
                        >= raw@[j] {
                        old_smoothed[j]
                    } else {
                        raw@[j]
                    }),
            decreases n - i,
        {
            let s: u64 = self.smoothed[i];
            let r: u64 = raw[i];
            proof {
                lemma_smooth_step_between(s as int, r as int, num as int, den as int);
                assert(num * (if r >= s {
                    r - s
                } else {
                    s - r
                }) <= 1024 * BUCKET_LIMIT) by (nonlinear_arith)
                    requires
                        num <= 1024,
                        0 <= (if r >= s {
                            r - s
                        } else {
                            s - r
                        }) <= BUCKET_LIMIT,
                ;
            }
            let stepped: u64 = if r >= s {
                s + num * (r - s) / den
            } else {
                s - num * (s - r) / den
            };
            self.smoothed[i] = stepped;
            i = i + 1;
        }
        let mut mx: u64 = 0;
        let mut k: usize = 0;
        while k < n
            invariant
                k <= n,
                n == raw@.len(),
                mx == spec_seq_max(raw@.take(k as int)),
                forall|j: int| 0 <= j < raw@.len() ==> #[trigger] raw@[j] <= BUCKET_LIMIT,
                mx <= BUCKET_LIMIT,
            decreases n - k,
        {
            proof {
                assert(raw@.take(k + 1).drop_last() =~= raw@.take(k as int));
                assert(raw@.take(k + 1).last() == raw@[k as int]);
                lemma_seq_max_bounds(raw@.take(k + 1), BUCKET_LIMIT as int);
            }
            let v: u64 = raw[k];
            if v > mx {
                mx = v;
            }
            k = k + 1;
        }
        proof {
            assert(raw@.take(n as int) =~= raw@);
            lemma_seq_max_bounds(raw@, BUCKET_LIMIT as int);
        }
        if mx > self.running_max {
            self.running_max = mx;
        }
        proof {
            assert forall|j: int| 0 <= j < self.smoothed@.len() implies #[trigger] self.smoothed@[j]
                <= self.running_max by {
                lemma_seq_max_bounds(raw@, BUCKET_LIMIT as int);
            }
        }
    }

    /// One frame's update under the alternative moving-average policy: the
    /// smoothing rule is swapped, the ratchet is kept.
    pub fn update_moving_average(&mut self, raw: &Vec<u64>)
        requires
            old(self).wf(),
            raw@.len() == old(self).smoothed@.len(),
            forall|i: int| 0 <= i < raw@.len() ==> #[trigger] raw@[i] <= BUCKET_LIMIT,
        ensures
            final(self).wf(),
            final(self).alpha_num == old(self).alpha_num,
            final(self).alpha_den == old(self).alpha_den,
            final(self).silence_floor == old(self).silence_floor,
            final(self).smoothed@.len() == old(self).smoothed@.len(),
            forall|i: int|
                0 <= i < raw@.len() ==> #[trigger] final(self).smoothed@[i]
                    == spec_moving_avg_step(
                    old(self).smoothed@[i] as int,
                    raw@[i] as int,
                    old(self).alpha_num as int,
                    old(self).alpha_den as int,
                ),
            final(self).running_max == (if spec_seq_max(raw@) >= old(self).running_max {
                spec_seq_max(raw@)
            } else {
                old(self).running_max as int
            }),
            old(self).running_max <= final(self).running_max,
    {
        let n: usize = self.smoothed.len();
        let num: u64 = self.alpha_num;
        let den: u64 = self.alpha_den;
        let ghost old_smoothed: Seq<u64> = self.smoothed@;
        let mut i: usize = 0;
        while i < n
            invariant
                i <= n,
                n == old_smoothed.len() == raw@.len(),
                self.smoothed@.len() == n,
                num == self.alpha_num == old(self).alpha_num,
                den == self.alpha_den == old(self).alpha_den,
                self.silence_floor == old(self).silence_floor,
                self.running_max == old(self).running_max,
                old_smoothed == old(self).smoothed@,
                1 <= num <= den <= 1024,
                forall|j: int| 0 <= j < raw@.len() ==> #[trigger] raw@[j] <= BUCKET_LIMIT,
                forall|j: int| 0 <= j < n ==> #[trigger] old_smoothed[j] <= old(self).running_max,
                old(self).running_max <= BUCKET_LIMIT,
                forall|j: int| i <= j < n ==> #[trigger] self.smoothed@[j] == old_smoothed[j],
                forall|j: int|
                    0 <= j < i ==> #[trigger] self.smoothed@[j] == spec_moving_avg_step(
                        old_smoothed[j] as int,
                        raw@[j] as int,
                        num as int,
                        den as int,
                    ),
                forall|j: int|
                    0 <= j < i ==> #[trigger] self.smoothed@[j] <= (if old_smoothed[j] >= raw@[j] {
                        old_smoothed[j]
                    } else {
                        raw@[j]
                    }),
            decreases n - i,
        {
            let s: u64 = self.smoothed[i];
            let r: u64 = raw[i];
            proof {
                assert(num * r <= 1024 * BUCKET_LIMIT && (den - num) * s <= 1024 * BUCKET_LIMIT)
                    by (nonlinear_arith)
                    requires
                        1 <= num <= den <= 1024,
                        r <= BUCKET_LIMIT,
                        s <= BUCKET_LIMIT,
                ;
                let t = num * r + (den - num) * s;
                assert(t <= den * (if s >= r {
                    s
                } else {
                    r
                })) by (nonlinear_arith)
                    requires
                        t == num * r + (den - num) * s,
                        1 <= num <= den,
                        0 <= r,
                        0 <= s,
                ;
                lemma_div_pos_is_pos(t as int, den as int);
                lemma_div_is_ordered(
                    t as int,
                    den as int * (if s >= r {
                        s
                    } else {
                        r
                    }) as int,
                    den as int,
                );
                lemma_div_by_multiple(
                    (if s >= r {
                        s
                    } else {
                        r
                    }) as int,
                    den as int,
                );
                assert(den as int * (if s >= r {
                    s
                } else {
                    r
                }) as int == (if s >= r {
                    s
                } else {
                    r
                }) as int * den as int) by (nonlinear_arith);
            }
            let stepped: u64 = (num * r + (den - num) * s) / den;
            self.smoothed[i] = stepped;
            i = i + 1;
        }
        let mut mx: u64 = 0;
        let mut k: usize = 0;
        while k < n
            invariant
                k <= n,
                n == raw@.len(),
                mx == spec_seq_max(raw@.take(k as int)),
                forall|j: int| 0 <= j < raw@.len() ==> #[trigger] raw@[j] <= BUCKET_LIMIT,
                mx <= BUCKET_LIMIT,
            decreases n - k,
        {
            proof {
                assert(raw@.take(k + 1).drop_last() =~= raw@.take(k as int));
                assert(raw@.take(k + 1).last() == raw@[k as int]);
                lemma_seq_max_bounds(raw@.take(k + 1), BUCKET_LIMIT as int);
            }
            let v: u64 = raw[k];
            if v > mx {
                mx = v;
            }
            k = k + 1;
        }
        proof {
            assert(raw@.take(n as int) =~= raw@);
            lemma_seq_max_bounds(raw@, BUCKET_LIMIT as int);
        }
        if mx > self.running_max {
            self.running_max = mx;
        }
        proof {
            assert forall|j: int| 0 <= j < self.smoothed@.len() implies #[trigger] self.smoothed@[j]
                <= self.running_max by {
                lemma_seq_max_bounds(raw@, BUCKET_LIMIT as int);
            }
        }
    }
}

} // verus!
