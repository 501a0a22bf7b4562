//! Q16.16 fixed-point primitives: linear range mapping, a piecewise-linear
//! base-2 logarithm, and a piecewise-linear base-2 exponential.
//!
//! A quantity `x` in Q16.16 represents the real number `x / 65536`. The
//! logarithm and exponential are exact at powers of two and linearly
//! interpolated in between; both are monotone, which is what the frequency
//! scales built on them need.

use vstd::prelude::*;
use vstd::arithmetic::div_mod::{
    lemma_div_is_ordered, lemma_div_multiples_vanish, lemma_fundamental_div_mod,
    lemma_multiply_divide_lt,
};
use vstd::arithmetic::logarithm::{
    lemma_log0, lemma_log_is_ordered, lemma_log_nonnegative, lemma_log_s, log,
};
use vstd::arithmetic::mul::{
    lemma_mul_inequality, lemma_mul_is_commutative, lemma_mul_strict_inequality,
};
use vstd::arithmetic::power2::{
    lemma2_to64, lemma2_to64_rest, lemma_pow2_pos,
    lemma_pow2_strictly_increases, lemma_pow2_unfold, pow2,
};

verus! {

/// The fixed-point unit: 1.0 in Q16.16.
pub const ONE: u64 = 65536;

/// Clamps `v` into `[lo, hi]` (callers establish `lo <= hi`).
pub open spec fn spec_clamp(v: int, lo: int, hi: int) -> int {
    if v < lo {
        lo
    } else if v > hi {
        hi
    } else {
        v
    }
}

/// Linear interpolation of `val` from the range `[x0, x1]` into `[y0, y1]`,
/// with `val` clamped into `[x0, x1]` first. A collapsed or inverted source
/// range yields the sentinel `y0` instead of dividing by zero.
pub open spec fn spec_map_range(val: int, x0: int, x1: int, y0: int, y1: int) -> int {
    if x1 <= x0 {
        y0
    } else {
        y0 + (y1 - y0) * (spec_clamp(val, x0, x1) - x0) / (x1 - x0)
    }
}

/// The mapped value never leaves the destination range.
pub proof fn lemma_map_range_in_range(val: int, x0: int, x1: int, y0: int, y1: int)
    requires
        y0 <= y1,
    ensures
        y0 <= spec_map_range(val, x0, x1, y0, y1) <= y1,
{
    if x1 > x0 {
        let cv = spec_clamp(val, x0, x1);
        let num = (y1 - y0) * (cv - x0);
        let den = x1 - x0;
        assert(num >= 0) by {
            lemma_mul_inequality(0, y1 - y0, cv - x0);
        }
        assert(num / den >= 0) by {
            lemma_div_is_ordered(0, num, den);
        }
        assert(num <= (y1 - y0) * den) by {
            lemma_mul_inequality(cv - x0, den, y1 - y0);
            lemma_mul_is_commutative(cv - x0, y1 - y0);
            lemma_mul_is_commutative(den, y1 - y0);
        }
        assert(num / den <= ((y1 - y0) * den) / den) by {
            lemma_div_is_ordered(num, (y1 - y0) * den, den);
        }
        assert(((y1 - y0) * den) / den == y1 - y0) by {
            lemma_div_multiples_vanish(y1 - y0, den);
        }
    }
}

/// Monotonicity of the range map in its input value.
pub proof fn lemma_map_range_monotone(v1: int, v2: int, x0: int, x1: int, y0: int, y1: int)
    requires
        v1 <= v2,
        y0 <= y1,
    ensures
        spec_map_range(v1, x0, x1, y0, y1) <= spec_map_range(v2, x0, x1, y0, y1),
{
    if x1 > x0 {
        let c1 = spec_clamp(v1, x0, x1);
        let c2 = spec_clamp(v2, x0, x1);
        assert(c1 <= c2);
        assert((y1 - y0) * (c1 - x0) <= (y1 - y0) * (c2 - x0)) by {
            lemma_mul_inequality(c1 - x0, c2 - x0, y1 - y0);
            lemma_mul_is_commutative(c1 - x0, y1 - y0);
            lemma_mul_is_commutative(c2 - x0, y1 - y0);
        }
        lemma_div_is_ordered((y1 - y0) * (c1 - x0), (y1 - y0) * (c2 - x0), x1 - x0);
    }
}

/// Maps `val` linearly from `[x0, x1]` to `[y0, y1]`, clamping `val` into
/// the source range and answering `y0` when the source range is collapsed.
pub fn map_range(val: u64, x0: u64, x1: u64, y0: u64, y1: u64) -> (r: u64)
    requires
        y0 <= y1,
    ensures
        r == spec_map_range(val as int, x0 as int, x1 as int, y0 as int, y1 as int),
        y0 <= r <= y1,
{
    proof {
        lemma_map_range_in_range(val as int, x0 as int, x1 as int, y0 as int, y1 as int);
    }
    if x1 <= x0 {
        y0
    } else {
        let cv: u64 = if val < x0 {
            x0
        } else if val > x1 {
            x1
        } else {
            val
        };
        proof {
            assert((y1 - y0) as int * (cv - x0) as int <= 0xffffffffffffffffu64 as int
                * 0xffffffffffffffffu64 as int) by (nonlinear_arith)
                requires
                    0 <= (y1 - y0) as int <= 0xffffffffffffffffu64 as int,
                    0 <= (cv - x0) as int <= 0xffffffffffffffffu64 as int,
            ;
        }
        let num: u128 = ((y1 - y0) as u128) * ((cv - x0) as u128);
        let den: u128 = (x1 - x0) as u128;
        let q: u128 = num / den;
        proof {
            lemma_mul_inequality(cv as int - x0 as int, x1 as int - x0 as int, y1 as int - y0 as int);
            lemma_mul_is_commutative(cv as int - x0 as int, y1 as int - y0 as int);
            lemma_mul_is_commutative(x1 as int - x0 as int, y1 as int - y0 as int);
            lemma_div_is_ordered(
                (y1 - y0) * (cv as int - x0 as int),
                (y1 - y0) * (x1 as int - x0 as int),
                x1 as int - x0 as int,
            );
            lemma_div_multiples_vanish(y1 as int - y0 as int, x1 as int - x0 as int);
        }
        y0 + (q as u64)
    }
}

/// The base-2 integer logarithm brackets its argument between two adjacent
/// powers of two.
pub proof fn lemma_log2_bounds(x: int)
    requires
        x >= 1,
    ensures
        log(2, x) >= 0,
        pow2(log(2, x) as nat) <= x < pow2((log(2, x) + 1) as nat),
    decreases x,
{
    lemma_log_nonnegative(2, x);
    if x < 2 {
        lemma_log0(2, x);
        lemma2_to64();
    } else {
        lemma_log_s(2, x);
        let l = log(2, x / 2);
        lemma_log_nonnegative(2, x / 2);
        lemma_log2_bounds(x / 2);
        lemma_fundamental_div_mod(x, 2);
        lemma_pow2_unfold((l + 1) as nat);
        lemma_pow2_unfold((l + 2) as nat);
    }
}

/// The base-2 integer logarithm of any value between two adjacent powers of
/// two is the exponent of the lower power.
pub proof fn lemma_log2_of_range(x: int, k: nat)
    requires
        pow2(k) <= x < pow2(k + 1),
    ensures
        log(2, x) == k,
{
    lemma_pow2_pos(k);
    lemma_log2_bounds(x);
    let l = log(2, x) as nat;
    if l < k {
        if l + 1 < k {
            lemma_pow2_strictly_increases(l + 1, k);
        }
        assert(pow2(l + 1) <= pow2(k));
    } else if l > k {
        if k + 1 < l {
            lemma_pow2_strictly_increases(k + 1, l);
        }
        assert(pow2(k + 1) <= pow2(l));
    }
}

/// Piecewise-linear base-2 logarithm of a Q16.16 value: exact at powers of
/// two and linearly interpolated within each octave. For `x == 65536`
/// (representing 1.0) the result is 0; one octave adds 65536.
pub open spec fn spec_flog2(x: int) -> int
    recommends
        x >= 65536,
{
    let k = log(2, x);
    (k - 16) * 65536 + (x - pow2(k as nat)) * 65536 / (pow2(k as nat) as int)
}

/// The fractional part of the piecewise-linear logarithm lies in `[0, 65536)`.
pub proof fn lemma_flog2_parts(x: int)
    requires
        x >= 1,
    ensures
        log(2, x) >= 0,
        pow2(log(2, x) as nat) <= x < pow2((log(2, x) + 1) as nat),
        0 <= (x - pow2(log(2, x) as nat)) * 65536 / (pow2(log(2, x) as nat) as int) < 65536,
{
    lemma_log2_bounds(x);
    let k = log(2, x) as nat;
    let p = pow2(k) as int;
    lemma_pow2_pos(k);
    lemma_pow2_unfold(k + 1);
    // x < 2 * p, so x - p < p
    assert((x - p) * 65536 >= 0) by {
        lemma_mul_inequality(0, x - p, 65536);
    }
    lemma_div_is_ordered(0, (x - p) * 65536, p);
    assert((x - p) * 65536 < p * 65536) by {
        lemma_mul_strict_inequality(x - p, p, 65536);
        lemma_mul_is_commutative(x - p, 65536);
        lemma_mul_is_commutative(p, 65536);
    }
    lemma_multiply_divide_lt((x - p) * 65536, p, 65536);
}

/// The piecewise-linear logarithm is monotone.
pub proof fn lemma_flog2_monotone(x1: int, x2: int)
    requires
        1 <= x1 <= x2,
    ensures
        spec_flog2(x1) <= spec_flog2(x2),
{
    lemma_flog2_parts(x1);
    lemma_flog2_parts(x2);
    lemma_log_is_ordered(2, x1, x2);
    let k1 = log(2, x1);
    let k2 = log(2, x2);
    let p1 = pow2(k1 as nat) as int;
    let p2 = pow2(k2 as nat) as int;
    if k1 == k2 {
        lemma_pow2_pos(k1 as nat);
        assert((x1 - p1) * 65536 <= (x2 - p1) * 65536) by {
            lemma_mul_inequality(x1 - p1, x2 - p1, 65536);
        }
        lemma_div_is_ordered((x1 - p1) * 65536, (x2 - p1) * 65536, p1);
    } else {
        // val1 < (k1 - 15) * 65536 <= (k2 - 16) * 65536 <= val2
        assert(spec_flog2(x1) < (k1 - 15) * 65536);
        assert(spec_flog2(x2) >= (k2 - 16) * 65536);
    }
}

/// Values below `pow2(m)` have a piecewise-linear logarithm below
/// `(m - 16) * 65536`.
pub proof fn lemma_flog2_upper(x: int, m: nat)
    requires
        1 <= x < pow2(m),
        m >= 17,
    ensures
        spec_flog2(x) < (m - 16) * 65536,
{
    lemma_flog2_parts(x);
    let k = log(2, x);
    if k >= m {
        if k > m {
            lemma_pow2_strictly_increases(m, k as nat);
        }
        assert(pow2(k as nat) >= pow2(m));
        assert(false);
    }
    assert(spec_flog2(x) < (k - 15) * 65536);
}

/// Values at or above `65536` (1.0 in Q16.16) have a nonnegative
/// piecewise-linear logarithm.
pub proof fn lemma_flog2_nonneg(x: int)
    requires
        x >= 65536,
    ensures
        spec_flog2(x) >= 0,
{
    lemma_flog2_parts(x);
    let k = log(2, x);
    if k < 16 {
        lemma2_to64();
        lemma_pow2_strictly_increases((k + 1) as nat, 16);
        assert(pow2((k + 1) as nat) <= pow2(16));
        assert(false);
    }
}

/// Piecewise-linear base-2 logarithm of a Q16.16 value.
pub fn flog2(x: u64) -> (r: u64)
    requires
        65536 <= x < 0x800000000000,
    ensures
        r as int == spec_flog2(x as int),
        r < 31 * 65536,
{
    proof {
        lemma2_to64();
    }
    let mut k: u64 = 0;
    let mut p: u64 = 1;
    while p <= x / 2
        invariant
            p == pow2(k as nat),
            1 <= p <= x,
            k <= 63,
            65536 <= x < 0x800000000000,
        decreases x - p,
    {
        proof {
            lemma_pow2_unfold((k + 1) as nat);
            if k + 1 > 63 {
                lemma2_to64_rest();
                lemma_pow2_strictly_increases(64, (k + 1) as nat);
                assert(pow2((k + 1) as nat) >= pow2(64));
                assert(false);
            }
        }
        p = p * 2;
        k = k + 1;
    }
    proof {
        // p <= x < 2 * p, so log(2, x) == k
        lemma_pow2_unfold((k + 1) as nat);
        lemma_log2_of_range(x as int, k as nat);
        lemma_flog2_parts(x as int);
        // x >= 65536 forces k >= 16
        if k < 16 {
            lemma_pow2_strictly_increases((k + 1) as nat, 16);
            assert(pow2((k + 1) as nat) <= pow2(16));
            assert(false);
        }
        // x < 2^47 forces k <= 46
        if k > 46 {
            if k > 47 {
                lemma_pow2_strictly_increases(47, k as nat);
            }
            lemma2_to64_rest();
            assert(pow2(k as nat) >= pow2(47));
            assert(false);
        }
    }
    let frac: u64 = (x - p) * ONE / p;
    (k - 16) * ONE + frac
}

/// Piecewise-linear base-2 exponential of a nonnegative Q16.16 value,
/// as a Q16.16 value: exact at integers and linearly interpolated in
/// between. The inverse flavor of `spec_flog2`.
pub open spec fn spec_fexp2(y: int) -> int
    recommends
        0 <= y,
{
    (65536 + y % 65536) * (pow2((y / 65536) as nat) as int)
}

/// The piecewise-linear exponential of a nonnegative value is at least 1.0
/// and is monotone.
pub proof fn lemma_fexp2_monotone(y1: int, y2: int)
    requires
        0 <= y1 <= y2,
    ensures
        spec_fexp2(y1) <= spec_fexp2(y2),
{
    let k1 = y1 / 65536;
    let k2 = y2 / 65536;
    let f1 = y1 % 65536;
    let f2 = y2 % 65536;
    lemma_fundamental_div_mod(y1, 65536);
    lemma_fundamental_div_mod(y2, 65536);
    lemma_div_is_ordered(y1, y2, 65536);
    lemma_pow2_pos(k1 as nat);
    lemma_pow2_pos(k2 as nat);
    if k1 == k2 {
        assert((65536 + f1) * (pow2(k1 as nat) as int) <= (65536 + f2) * (pow2(k1 as nat) as int))
            by {
            lemma_mul_inequality(65536 + f1, 65536 + f2, pow2(k1 as nat) as int);
        }
    } else {
        let p1 = pow2(k1 as nat) as int;
        let p2 = pow2(k2 as nat) as int;
        // (65536 + f1) * p1 < 131072 * p1 == 65536 * pow2(k1 + 1)
        //                  <= 65536 * p2 <= (65536 + f2) * p2
        assert((65536 + f1) * p1 < 131072 * p1) by {
            lemma_mul_strict_inequality(65536 + f1, 131072, p1);
            lemma_mul_is_commutative(65536 + f1, p1);
            lemma_mul_is_commutative(131072, p1);
        }
        lemma_pow2_unfold((k1 + 1) as nat);
        if k1 + 1 < k2 {
            lemma_pow2_strictly_increases((k1 + 1) as nat, k2 as nat);
        }
        assert(65536 * (pow2((k1 + 1) as nat) as int) <= 65536 * p2) by {
            lemma_mul_inequality(pow2((k1 + 1) as nat) as int, p2, 65536);
            lemma_mul_is_commutative(pow2((k1 + 1) as nat) as int, 65536);
            lemma_mul_is_commutative(p2, 65536);
        }
        assert(65536 * p2 <= (65536 + f2) * p2) by {
            lemma_mul_inequality(65536, 65536 + f2, p2);
        }
        assert(131072 * p1 == 65536 * (pow2((k1 + 1) as nat) as int)) by (nonlinear_arith)
            requires
                pow2((k1 + 1) as nat) == 2 * pow2(k1 as nat),
                p1 == pow2(k1 as nat) as int,
        ;
    }
}

/// The piecewise-linear exponential of a nonnegative value is at least 1.0.
pub proof fn lemma_fexp2_at_least_one(y: int)
    requires
        0 <= y,
    ensures
        spec_fexp2(y) >= 65536,
{
    let k = (y / 65536) as nat;
    lemma_pow2_pos(k);
    assert(65536 * 1 <= (65536 + y % 65536) * (pow2(k) as int)) by {
        lemma_mul_inequality(1, pow2(k) as int, 65536);
        lemma_mul_is_commutative(pow2(k) as int, 65536);
        lemma_mul_inequality(65536, 65536 + y % 65536, pow2(k) as int);
    }
}

/// Piecewise-linear base-2 exponential of a nonnegative Q16.16 value.
pub fn fexp2(y: u64) -> (r: u64)
    requires
        y <= 46 * 65536,
    ensures
        r as int == spec_fexp2(y as int),
        65536 <= r,
{
    let k: u64 = y / ONE;
    let f: u64 = y % ONE;
    let mut i: u64 = 0;
    let mut p: u64 = 1;
    proof {
        lemma2_to64();
        lemma2_to64_rest();
    }
    while i < k
        invariant
            p == pow2(i as nat),
            i <= k,
            k <= 46,
        decreases k - i,
    {
        proof {
            lemma_pow2_unfold((i + 1) as nat);
            if i + 1 < 46 {
                lemma_pow2_strictly_increases((i + 1) as nat, 46);
            }
            lemma2_to64_rest();
            assert(2 * p <= pow2(46));
        }
        p = p * 2;
        i = i + 1;
    }
    proof {
        if k < 46 {
            lemma_pow2_strictly_increases(k as nat, 46);
        }
        lemma2_to64_rest();
        assert(p <= pow2(46));
        assert((ONE + f) as int * p as int <= 131072 * pow2(46)) by {
            lemma_mul_inequality((ONE + f) as int, 131072, p as int);
            lemma_mul_is_commutative((ONE + f) as int, p as int);
            lemma_mul_is_commutative(131072, p as int);
            lemma_mul_inequality(p as int, pow2(46) as int, 131072);
        }
        lemma_fexp2_at_least_one(y as int);
    }
    (ONE + f) * p
}

} // verus!
