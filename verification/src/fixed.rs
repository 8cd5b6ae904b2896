//! Fixed-point helpers: all real-valued quantities of the pipeline are
//! carried as integers scaled by `FP_ONE`, and the two irrational helpers the
//! mapping stage needs — a binary logarithm and a square root — are computed
//! here on integers with exact contracts.

use vstd::prelude::*;
use vstd::arithmetic::power2::{
    pow2, lemma_pow2_adds, lemma_pow2_subtracts, lemma_pow2_unfold, lemma_pow2_strictly_increases,
    lemma_pow2_pos, lemma2_to64, lemma2_to64_rest,
};
use vstd::arithmetic::div_mod::{
    lemma_div_denominator, lemma_div_is_ordered, lemma_fundamental_div_mod,
};

verus! {

/// The fixed-point unit: a stored value `v` stands for the real `v / FP_ONE`.
pub const FP_ONE: u64 = 1024;

/// Number of fractional bits produced by `log2_fp` (`FP_ONE == 2^FRAC_BITS`).
pub const FRAC_BITS: u64 = 10;

/// `log2(10)` in fixed-point form, rounded: `floor(log2(10) * FP_ONE) + 1`.
/// Used to turn base-2 logarithms into the decibel scale.
pub const LOG2_10_FP: u64 = 3402;

/// `floor(log2(x))` for `x >= 1`, as a recurrence on halving.
pub open spec fn spec_floor_log2(x: nat) -> nat
    decreases x,
{
    if x < 2 {
        0
    } else {
        1 + spec_floor_log2(x / 2)
    }
}

/// The defining property of `spec_floor_log2`: it brackets `x` between two
/// consecutive powers of two.
pub proof fn lemma_floor_log2_bounds(x: nat)
    requires
        1 <= x,
    ensures
        pow2(spec_floor_log2(x)) <= x < pow2(spec_floor_log2(x) + 1),
    decreases x,
{
    lemma2_to64();
    if x < 2 {
    } else {
        lemma_floor_log2_bounds(x / 2);
        let e = spec_floor_log2(x / 2);
        lemma_pow2_unfold(e + 1);
        lemma_pow2_unfold(e + 2);
        assert(pow2(e) <= x / 2 < pow2(e + 1));
        assert(2 * (x / 2) <= x < 2 * (x / 2) + 2);
    }
}

/// If `x < 2^e` then `floor(log2(x)) < e`.
pub proof fn lemma_floor_log2_le(x: nat, e: nat)
    requires
        1 <= x,
        x < pow2(e),
    ensures
        spec_floor_log2(x) < e,
{
    lemma_floor_log2_bounds(x);
    let f = spec_floor_log2(x);
    if f >= e {
        if f > e {
            lemma_pow2_strictly_increases(e, f);
        }
        assert(pow2(e) <= pow2(f));
        assert(false);
    }
}

/// `floor(log2(x))` for `x >= 1`.
pub fn floor_log2(x: u64) -> (r: u64)
    requires
        1 <= x,
    ensures
        r == spec_floor_log2(x as nat),
        r <= 63,
{
    proof {
        lemma2_to64();
        lemma2_to64_rest();
        lemma_floor_log2_le(x as nat, 64);
    }
    let mut v: u64 = x;
    let mut r: u64 = 0;
    while v >= 2
        invariant
            1 <= v,
            r + spec_floor_log2(v as nat) == spec_floor_log2(x as nat),
            spec_floor_log2(x as nat) <= 63,
        decreases v,
    {
        v = v / 2;
        r = r + 1;
    }
    r
}

/// `x` scaled into `[2^31, 2^32)` by a power of two: the mantissa from which
/// the fractional bits of the logarithm are squeezed.
pub open spec fn spec_normalized(x: nat) -> nat {
    let e = spec_floor_log2(x);
    if e <= 31 {
        x * pow2((31 - e) as nat)
    } else {
        x / pow2((e - 31) as nat)
    }
}

pub proof fn lemma_normalized_range(x: nat)
    requires
        1 <= x,
    ensures
        0x80000000 <= spec_normalized(x) < 0x100000000,
{
    lemma2_to64();
    lemma_floor_log2_bounds(x);
    let e = spec_floor_log2(x);
    if e <= 31 {
        let k = (31 - e) as nat;
        lemma_pow2_adds(e, k);
        lemma_pow2_adds(e + 1, k);
        lemma_pow2_pos(k);
        assert(pow2(e) * pow2(k) <= x * pow2(k)) by (nonlinear_arith)
            requires
                pow2(e) <= x,
                pow2(k) >= 1,
        ;
        assert(x * pow2(k) < pow2(e + 1) * pow2(k)) by (nonlinear_arith)
            requires
                x < pow2(e + 1),
                pow2(k) >= 1,
        ;
        assert(pow2(e + k) == 0x80000000);
        assert(pow2(e + 1 + k) == 0x100000000);
    } else {
        let k = (e - 31) as nat;
        lemma_pow2_pos(k);
        lemma_div_is_ordered(pow2(e) as int, x as int, pow2(k) as int);
        lemma_pow2_subtracts(k, e);
        assert(pow2((e - k) as nat) == pow2(e) / pow2(k));
        assert(pow2((e - k) as nat) == 0x80000000);
        // upper bound: x <= pow2(e + 1) - 1 == pow2(32) * pow2(k) - 1
        lemma_pow2_adds(32, k);
        lemma_div_is_ordered(x as int, pow2(e + 1) - 1, pow2(k) as int);
        assert(pow2(32) * pow2(k) - 1 == (pow2(32) - 1) * pow2(k) + (pow2(k) - 1))
            by (nonlinear_arith);
        vstd::arithmetic::div_mod::lemma_fundamental_div_mod_converse_div(
            pow2(e + 1) - 1,
            pow2(k) as int,
            pow2(32) - 1,
            pow2(k) - 1,
        );
        assert((pow2(e + 1) - 1) / pow2(k) as int == pow2(32) - 1);
    }
}

/// The fractional bits of `log2` of a mantissa `y` in `[2^31, 2^32)`: square,
/// renormalize, and read off one bit, `k` times.  Truncation at each squaring
/// step is part of the definition.
pub open spec fn spec_log2_frac(y: nat, k: nat) -> nat
    decreases k,
{
    if k == 0 {
        0
    } else {
        let sq = (y * y) / 0x80000000;
        if sq >= 0x100000000 {
            pow2((k - 1) as nat) + spec_log2_frac(sq / 2, (k - 1) as nat)
        } else {
            spec_log2_frac(sq, (k - 1) as nat)
        }
    }
}

pub proof fn lemma_log2_frac_bound(y: nat, k: nat)
    ensures
        spec_log2_frac(y, k) < pow2(k),
    decreases k,
{
    lemma2_to64();
    if k == 0 {
    } else {
        let sq = (y * y) / 0x80000000;
        lemma_pow2_unfold(k);
        if sq >= 0x100000000 {
            lemma_log2_frac_bound(sq / 2, (k - 1) as nat);
        } else {
            lemma_log2_frac_bound(sq, (k - 1) as nat);
        }
    }
}

/// `floor(log2(x) * FP_ONE)`, up to the truncation inherent in
/// `spec_log2_frac`: the integer part is exact, the `FRAC_BITS` fractional
/// bits are a lower approximation.
pub open spec fn spec_log2_fp(x: nat) -> nat {
    spec_floor_log2(x) * 1024 + spec_log2_frac(spec_normalized(x), 10)
}

/// The integer part of `spec_log2_fp` is exactly `floor(log2(x))`.
pub proof fn lemma_log2_fp_bracket(x: nat)
    requires
        1 <= x,
    ensures
        spec_floor_log2(x) * 1024 <= spec_log2_fp(x),
        spec_log2_fp(x) < (spec_floor_log2(x) + 1) * 1024,
{
    lemma2_to64();
    lemma_log2_frac_bound(spec_normalized(x), 10);
}

/// `x < 2^e` gives `spec_log2_fp(x) < e * FP_ONE`.
pub proof fn lemma_log2_fp_upper(x: nat, e: nat)
    requires
        1 <= x,
        x < pow2(e),
    ensures
        spec_log2_fp(x) < e * 1024,
{
    lemma_floor_log2_le(x, e);
    lemma_log2_fp_bracket(x);
}

/// `x >= 2^e` gives `spec_log2_fp(x) >= e * FP_ONE`.
pub proof fn lemma_log2_fp_lower(x: nat, e: nat)
    requires
        pow2(e) <= x,
    ensures
        e * 1024 <= spec_log2_fp(x),
{
    lemma_pow2_pos(e);
    lemma_floor_log2_bounds(x);
    let f = spec_floor_log2(x);
    if f < e {
        lemma_pow2_strictly_increases(f + 1, e + 1);
        if f + 1 < e {
            lemma_pow2_strictly_increases(f + 1, e);
        }
        assert(pow2(f + 1) <= pow2(e));
        assert(false);
    }
    lemma_log2_fp_bracket(x);
}

/// Fixed-point base-2 logarithm: `FP_ONE`-scaled, with an exact integer part
/// and `FRAC_BITS` truncated fractional bits.
pub fn log2_fp(x: u64) -> (r: u64)
    requires
        1 <= x,
    ensures
        r == spec_log2_fp(x as nat),
        r < 64 * 1024,
{
    let ghost xn: nat = x as nat;
    let e: u64 = floor_log2(x);
    proof {
        lemma2_to64();
        lemma2_to64_rest();
        lemma_floor_log2_bounds(xn);
        lemma_normalized_range(xn);
    }
    let mut y: u64;
    if e <= 31 {
        let steps: u64 = 31 - e;
        y = x;
        let mut i: u64 = 0;
        while i < steps
            invariant
                i <= steps,
                steps == 31 - e,
                e == spec_floor_log2(xn),
                e <= 31,
                1 <= xn,
                xn < pow2((e + 1) as nat),
                y == xn * pow2(i as nat),
            decreases steps - i,
        {
            proof {
                lemma_pow2_unfold((i + 1) as nat);
                lemma_pow2_pos(i as nat);
                assert(y * 2 == xn * pow2((i + 1) as nat)) by (nonlinear_arith)
                    requires
                        y == xn * pow2(i as nat),
                        pow2((i + 1) as nat) == 2 * pow2(i as nat),
                ;
                if ((i + 1) as nat) < steps as nat {
                    lemma_pow2_strictly_increases((i + 1) as nat, steps as nat);
                }
                lemma_pow2_adds((e + 1) as nat, steps as nat);
                lemma2_to64();
                assert(xn * pow2((i + 1) as nat) < 0x100000000) by (nonlinear_arith)
                    requires
                        1 <= xn,
                        xn < pow2((e + 1) as nat),
                        pow2((i + 1) as nat) <= pow2(steps as nat),
                        1 <= pow2((i + 1) as nat),
                        pow2((e + 1) as nat) * pow2(steps as nat) == 0x100000000,
                ;
            }
            y = y * 2;
            i = i + 1;
        }
        proof {
            assert(y == spec_normalized(xn));
        }
    } else {
        let steps: u64 = e - 31;
        y = x;
        let mut i: u64 = 0;
        while i < steps
            invariant
                i <= steps,
                steps == e - 31,
                e == spec_floor_log2(xn),
                31 < e <= 63,
                1 <= xn,
                y == xn / pow2(i as nat),
            decreases steps - i,
        {
            proof {
                lemma_pow2_pos(i as nat);
                lemma_pow2_unfold((i + 1) as nat);
                lemma_div_denominator(xn as int, pow2(i as nat) as int, 2);
                assert((xn as int) / (pow2(i as nat) as int) / 2 == (xn as int) / ((pow2(
                    i as nat,
                ) * 2) as int));
            }
            y = y / 2;
            i = i + 1;
        }
        proof {
            assert(y == spec_normalized(xn));
        }
    }
    proof {
        assert(0x80000000 <= y < 0x100000000);
    }
    let ghost y0: nat = y as nat;
    let mut acc: u64 = 0;
    let mut left: u64 = FRAC_BITS;
    while left > 0
        invariant
            left <= 10,
            0x80000000 <= y < 0x100000000,
            acc * pow2(left as nat) + spec_log2_frac(y as nat, left as nat) == spec_log2_frac(
                y0,
                10,
            ),
            acc < pow2((10 - left) as nat),
        decreases left,
    {
        proof {
            lemma2_to64();
            lemma2_to64_rest();
            assert((y as nat * y as nat) < 0x10000000000000000) by (nonlinear_arith)
                requires
                    y < 0x100000000,
            ;
            assert(y as nat * y as nat >= 0x4000000000000000) by (nonlinear_arith)
                requires
                    y >= 0x80000000,
            ;
            lemma_div_is_ordered(0x4000000000000000, (y as nat * y as nat) as int, 0x80000000);
            lemma_div_is_ordered((y as nat * y as nat) as int, 0xffffffffffffffff, 0x80000000);
        }
        let sq: u64 = (y * y) / 0x80000000;
        let ghost oldy: nat = y as nat;
        let ghost oldacc: nat = acc as nat;
        let ghost oldleft: nat = left as nat;
        proof {
            lemma_pow2_unfold(oldleft);
        }
        if sq >= 0x100000000 {
            y = sq / 2;
            acc = acc * 2 + 1;
            proof {
                assert(spec_log2_frac(oldy, oldleft) == pow2((oldleft - 1) as nat)
                    + spec_log2_frac(y as nat, (oldleft - 1) as nat));
                assert((2 * oldacc + 1) * pow2((oldleft - 1) as nat) == oldacc * pow2(oldleft)
                    + pow2((oldleft - 1) as nat)) by (nonlinear_arith)
                    requires
                        pow2(oldleft) == 2 * pow2((oldleft - 1) as nat),
                ;
                lemma_pow2_unfold((10 - oldleft + 1) as nat);
            }
        } else {
            y = sq;
            acc = acc * 2;
            proof {
                assert(spec_log2_frac(oldy, oldleft) == spec_log2_frac(
                    y as nat,
                    (oldleft - 1) as nat,
                ));
                assert((2 * oldacc) * pow2((oldleft - 1) as nat) == oldacc * pow2(oldleft))
                    by (nonlinear_arith)
                    requires
                        pow2(oldleft) == 2 * pow2((oldleft - 1) as nat),
                ;
                lemma_pow2_unfold((10 - oldleft + 1) as nat);
            }
        }
        left = left - 1;
    }
    proof {
        lemma2_to64();
        lemma_log2_frac_bound(y0, 10);
        assert(spec_log2_frac(y as nat, 0nat) == 0);
        assert(acc * pow2(0nat) == acc) by (nonlinear_arith)
            requires
                pow2(0nat) == 1,
        ;
        assert(acc == spec_log2_frac(y0, 10));
    }
    e * 1024 + acc
}

/// Integer square root, as a recurrence counting up from zero.
pub open spec fn spec_isqrt(x: nat) -> nat
    decreases x,
{
    if x == 0 {
        0
    } else {
        let r = spec_isqrt((x - 1) as nat);
        if (r + 1) * (r + 1) <= x {
            r + 1
        } else {
            r
        }
    }
}

/// The defining property of `spec_isqrt`: the largest integer whose square
/// does not exceed `x`.
pub proof fn lemma_isqrt_bounds(x: nat)
    ensures
        spec_isqrt(x) * spec_isqrt(x) <= x,
        x < (spec_isqrt(x) + 1) * (spec_isqrt(x) + 1),
    decreases x,
{
    if x == 0 {
        assert(spec_isqrt(x) == 0);
        assert(x < (spec_isqrt(x) + 1) * (spec_isqrt(x) + 1)) by (nonlinear_arith)
            requires
                x == 0nat,
                spec_isqrt(x) == 0nat,
        ;
    } else {
        lemma_isqrt_bounds((x - 1) as nat);
        let r = spec_isqrt((x - 1) as nat);
        if (r + 1) * (r + 1) <= x {
            assert(spec_isqrt(x) == r + 1);
            assert(x < ((r + 1) + 1) * ((r + 1) + 1)) by (nonlinear_arith)
                requires
                    ((x - 1) as nat) < (r + 1) * (r + 1),
            ;
            assert(spec_isqrt(x) * spec_isqrt(x) <= x);
            assert(x < (spec_isqrt(x) + 1) * (spec_isqrt(x) + 1));
        } else {
            assert(spec_isqrt(x) == r);
            assert(r * r <= x);
            assert(spec_isqrt(x) * spec_isqrt(x) <= x);
            assert(x < (spec_isqrt(x) + 1) * (spec_isqrt(x) + 1));
        }
    }
}

/// Any integer bracketed the same way equals `spec_isqrt(x)`.
pub proof fn lemma_isqrt_unique(x: nat, r: nat)
    requires
        r * r <= x,
        x < (r + 1) * (r + 1),
    ensures
        r == spec_isqrt(x),
{
    lemma_isqrt_bounds(x);
    let s = spec_isqrt(x);
    if r < s {
        assert((r + 1) * (r + 1) <= s * s) by (nonlinear_arith)
            requires
                r + 1 <= s,
        ;
        assert(false);
    }
    if s < r {
        assert((s + 1) * (s + 1) <= r * r) by (nonlinear_arith)
            requires
                s + 1 <= r,
        ;
        assert(false);
    }
}

/// Integer square root by binary search.
pub fn isqrt(x: u64) -> (r: u64)
    requires
        x < 0x4000000000000000,
    ensures
        r == spec_isqrt(x as nat),
        r * r <= x,
        x < (r + 1) as nat * (r + 1) as nat,
        r < 0x80000000,
{
    let mut lo: u64 = 0;
    let mut hi: u64 = 0x80000000;
    proof {
        assert((0x80000000u64 as nat) * (0x80000000u64 as nat) > x as nat) by (nonlinear_arith)
            requires
                x < 0x4000000000000000,
        ;
    }
    while lo + 1 < hi
        invariant
            lo < hi <= 0x80000000,
            lo as nat * lo as nat <= x as nat,
            (x as nat) < hi as nat * hi as nat,
        decreases hi - lo,
    {
        let mid: u64 = lo + (hi - lo) / 2;
        proof {
            assert(mid < hi);
            assert((mid as nat * mid as nat) < 0x4000000000000000) by (nonlinear_arith)
                requires
                    mid < 0x80000000,
            ;
        }
        if mid * mid <= x {
            lo = mid;
        } else {
            hi = mid;
        }
    }
    proof {
        lemma_isqrt_unique(x as nat, lo as nat);
    }
    lo
}

} // verus!
