//! Fixed-point base-2 logarithm and the entropy formula derived from a
//! cell's cached weight sums. All arithmetic is integral: values carry
//! `LOG_SCALE` fractional steps per unit.

use vstd::prelude::*;
use vstd::arithmetic::power2::{
    pow2, lemma_pow2_pos, lemma_pow2_unfold, lemma_pow2_strictly_increases, lemma2_to64,
    lemma2_to64_rest,
};
use vstd::arithmetic::div_mod::lemma_multiply_divide_lt;

verus! {

/// Fractional resolution of the fixed-point logarithm.
pub const LOG_SCALE: u64 = 65536;

/// Largest exponent with the leading power of two at most `w`.
pub open spec fn spec_floor_log2(w: int) -> nat
    decreases w,
{
    if w <= 1 {
        0
    } else {
        (1 + spec_floor_log2(w / 2)) as nat
    }
}

/// `pow2(floor_log2(w)) <= w < 2 * pow2(floor_log2(w))` for `w >= 1`.
pub proof fn lemma_floor_log2_bounds(w: int)
    requires
        w >= 1,
    ensures
        pow2(spec_floor_log2(w)) <= w,
        w < 2 * pow2(spec_floor_log2(w)),
    decreases w,
{
    if w <= 1 {
        lemma2_to64();
    } else {
        lemma_floor_log2_bounds(w / 2);
        let f = spec_floor_log2(w / 2);
        lemma_pow2_unfold((f + 1) as nat);
    }
}

/// Fixed-point base-2 logarithm: the integer part exactly, the fraction
/// by linear interpolation between neighboring powers of two.
pub open spec fn spec_log2_fixed(w: int) -> int {
    if w <= 0 {
        0
    } else {
        let f = spec_floor_log2(w);
        f * LOG_SCALE as int + (w - pow2(f)) * LOG_SCALE as int / pow2(f) as int
    }
}

/// The fixed-point logarithm of a `u64` value sits below `64 * LOG_SCALE`.
pub proof fn lemma_log2_fixed_bounds(w: int)
    requires
        0 <= w <= u64::MAX,
    ensures
        0 <= spec_log2_fixed(w) < 64 * LOG_SCALE as int,
{
    if w >= 1 {
        let f = spec_floor_log2(w);
        lemma_floor_log2_bounds(w);
        lemma2_to64();
        lemma2_to64_rest();
        if f >= 64 {
            if f > 64 {
                lemma_pow2_strictly_increases(64, f);
            }
            assert(false);
        }
        lemma_pow2_pos(f);
        let p = pow2(f) as int;
        let s = LOG_SCALE as int;
        let frac = (w - p) * s / p;
        assert((w - p) * s < p * s) by (nonlinear_arith)
            requires 0 < p && w - p < p && s > 0,
        ;
        lemma_multiply_divide_lt((w - p) * s, p, s);
        assert((w - p) * s >= 0) by (nonlinear_arith)
            requires w - p >= 0 && s >= 0,
        ;
        assert(frac >= 0);
        assert(f * s <= 63 * s) by (nonlinear_arith)
            requires f <= 63 && s > 0,
        ;
    }
}

/// Power of two as an executable value.
fn pow2_exec(e: u32) -> (r: u64)
    requires
        e <= 63,
    ensures
        r as int == pow2(e as nat),
{
    proof {
        lemma2_to64();
    }
    let mut i: u32 = 0;
    let mut p: u64 = 1;
    while i < e
        invariant
            i <= e <= 63,
            p as int == pow2(i as nat),
        decreases e - i,
    {
        proof {
            lemma2_to64();
            lemma2_to64_rest();
            if i as nat + 1 <= 63 {
                if i as nat + 1 < 63 {
                    lemma_pow2_strictly_increases((i + 1) as nat, 63);
                }
            }
            lemma_pow2_unfold((i + 1) as nat);
        }
        p = p * 2;
        i = i + 1;
    }
    p
}

/// Fixed-point base-2 logarithm of `w`.
pub fn log2_fixed(w: u64) -> (r: u64)
    requires
        w >= 1,
    ensures
        r as int == spec_log2_fixed(w as int),
        r < 64 * LOG_SCALE,
{
    let mut m: u32 = 0;
    let mut t: u64 = w;
    proof {
        lemma2_to64();
    }
    while t >= 2
        invariant
            t >= 1,
            m <= 63,
            spec_floor_log2(w as int) == m + spec_floor_log2(t as int),
            pow2(m as nat) * t as int <= w as int,
        decreases t,
    {
        proof {
            lemma_pow2_unfold((m + 1) as nat);
            lemma_pow2_pos(m as nat);
            assert(pow2((m + 1) as nat) * (t as int / 2) <= pow2(m as nat) * t as int)
                by (nonlinear_arith)
                requires
                    pow2((m + 1) as nat) == 2 * pow2(m as nat),
                    pow2(m as nat) > 0,
                    t as int >= 2,
            ;
            if m >= 63 {
                lemma2_to64();
                lemma2_to64_rest();
                assert(pow2(63) * t as int >= pow2(63) * 2) by (nonlinear_arith)
                    requires t as int >= 2 && pow2(63) > 0,
                ;
                assert(false);
            }
        }
        t = t / 2;
        m = m + 1;
    }
    proof {
        lemma_floor_log2_bounds(w as int);
        lemma_pow2_pos(m as nat);
        assert(spec_floor_log2(t as int) == 0);
        assert(spec_floor_log2(w as int) == m as nat);
    }
    let p = pow2_exec(m);
    proof {
        let pi = p as int;
        let wi = w as int;
        let s = LOG_SCALE as int;
        assert(pi <= pow2(m as nat) * t as int) by (nonlinear_arith)
            requires t as int >= 1 && pi == pow2(m as nat) && pi > 0,
        ;
        assert((wi - pi) * s < pi * s) by (nonlinear_arith)
            requires 0 < pi && wi - pi < pi && s > 0,
        ;
        lemma_multiply_divide_lt((wi - pi) * s, pi, s);
        assert((wi - pi) * s >= 0) by (nonlinear_arith)
            requires wi - pi >= 0 && s >= 0,
        ;
        assert(2 * pow2(m as nat) > wi);
    }
    let frac: u64 = (((w - p) as u128 * LOG_SCALE as u128) / p as u128) as u64;
    let r: u64 = (m as u64) * LOG_SCALE + frac;
    proof {
        assert((m as u64) as int * LOG_SCALE as int <= 63 * LOG_SCALE as int)
            by (nonlinear_arith)
            requires m <= 63,
        ;
    }
    r
}

/// Entropy derived from a cell's cached sums:
/// `log2(W) - (sum of w*log2(w)) / W`, clamped at zero.
pub open spec fn spec_entropy(weight_sum: int, wlogw_sum: int) -> int {
    let l = spec_log2_fixed(weight_sum);
    let avg = wlogw_sum / weight_sum;
    if avg >= l {
        0
    } else {
        l - avg
    }
}

/// Executable entropy over the cached sums.
pub fn entropy_of(weight_sum: u64, wlogw_sum: u64) -> (r: u64)
    requires
        weight_sum >= 1,
    ensures
        r as int == spec_entropy(weight_sum as int, wlogw_sum as int),
{
    let l = log2_fixed(weight_sum);
    let avg = wlogw_sum / weight_sum;
    if avg >= l {
        0
    } else {
        l - avg
    }
}

} // verus!
