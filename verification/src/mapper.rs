//! Frequency mapping: converts a bin index to its center frequency and a
//! frequency to a horizontal position under a selectable scale (linear,
//! root, logarithmic).
//!
//! Frequencies and screen positions are Q16.16 values (`fixed::ONE` is
//! 1 Hz or 1 pixel). The audible low edge of every scale is 20 Hz; the high
//! edge is the Nyquist frequency, `sample_rate / 2`. Frequencies outside
//! that band are clamped, and a collapsed band (sample rate of 40 Hz or
//! less) maps everything to position 0 instead of dividing by zero.

use vstd::prelude::*;
use vstd::arithmetic::div_mod::{
    lemma_div_is_ordered, lemma_div_multiples_vanish, lemma_div_multiples_vanish_fancy,
    lemma_fundamental_div_mod, lemma_mod_division_less_than_divisor,
};
use vstd::arithmetic::mul::{lemma_mul_inequality, lemma_mul_is_commutative};
use vstd::arithmetic::power2::{lemma2_to64_rest, pow2};
use crate::fixed::{
    fexp2, flog2, lemma_fexp2_monotone, lemma_flog2_monotone, lemma_flog2_nonneg,
    lemma_flog2_upper, lemma_map_range_monotone, map_range, spec_clamp, spec_fexp2, spec_flog2,
    spec_map_range, ONE,
};

verus! {

/// Largest supported sample rate, in Hz.
pub const SR_MAX: u64 = 1000000;

/// Largest supported number of bins in a frame.
pub const BIN_MAX: u64 = 1048576;

/// Largest supported viewport width or height, in Q16.16 pixels.
pub const WIDTH_MAX: u64 = 1073741824;

/// The low edge of every frequency scale: 20 Hz in Q16.16.
pub const LOW_EDGE: u64 = 1310720;

/// Largest supported root-scale exponent: 2.0 in Q16.16.
pub const ROOT_MAX: u64 = 131072;

/// The frequency-axis scale: linear in frequency, linear in a root of the
/// frequency, or linear in the logarithm of the frequency.
#[derive(Clone, Copy)]
pub enum Scale {
    Linear,
    Root(u64),
    Logarithmic,
}

/// A well-formed scale: a root exponent is positive (a zero exponent would
/// collapse the axis) and at most 2.0.
pub open spec fn spec_scale_wf(s: Scale) -> bool {
    match s {
        Scale::Root(n) => 0 < n <= ROOT_MAX,
        _ => true,
    }
}

/// Center frequency of bin `bin_idx` out of `bin_count` bins that evenly
/// divide the Nyquist range: `bin_idx * (sample_rate / (2 * bin_count))`
/// Hz, as a Q16.16 value.
pub open spec fn spec_bin_to_frequency(bin_idx: int, bin_count: int, sample_rate: int) -> int
    recommends
        bin_count > 0,
{
    bin_idx * sample_rate * 65536 / (2 * bin_count)
}

/// Converts a bin index to its center frequency in Q16.16 Hz.
pub fn bin_to_frequency(bin_idx: u64, bin_count: u64, sample_rate: u64) -> (r: u64)
    requires
        0 < bin_count <= BIN_MAX,
        bin_idx <= bin_count,
        sample_rate <= SR_MAX,
    ensures
        r as int == spec_bin_to_frequency(bin_idx as int, bin_count as int, sample_rate as int),
        r <= sample_rate * 65536 / 2,
{
    proof {
        let i = bin_idx as int;
        let c = bin_count as int;
        let sr = sample_rate as int;
        assert(i * sr <= c * sr) by {
            lemma_mul_inequality(i, c, sr);
        }
        assert(i * sr * 65536 <= c * sr * 65536) by {
            lemma_mul_inequality(i * sr, c * sr, 65536);
        }
        assert(c * sr * 65536 <= BIN_MAX as int * (SR_MAX as int * 65536)) by (nonlinear_arith)
            requires
                0 <= c <= BIN_MAX as int,
                0 <= sr <= SR_MAX as int,
        ;
        lemma_div_is_ordered(i * sr * 65536, c * sr * 65536, 2 * c);
        assert(c * sr * 65536 == (2 * c) * (sr * 32768)) by (nonlinear_arith);
        lemma_div_multiples_vanish(sr * 32768, 2 * c);
        assert(sr * 65536 / 2 == sr * 32768);
        assert(i * sr >= 0) by {
            lemma_mul_inequality(0, i, sr);
            lemma_mul_is_commutative(i, sr);
        }
        assert(i * sr * 65536 >= 0) by {
            lemma_mul_inequality(0, i * sr, 65536);
            lemma_mul_is_commutative(i * sr, 65536);
        }
        lemma_div_is_ordered(0, i * sr * 65536, 2 * c);
    }
    bin_idx * sample_rate * ONE / (2 * bin_count)
}

/// Bin center frequencies grow with the bin index.
pub proof fn lemma_bin_to_frequency_monotone(i: int, j: int, bin_count: int, sample_rate: int)
    requires
        0 <= i <= j,
        bin_count > 0,
        sample_rate >= 0,
    ensures
        spec_bin_to_frequency(i, bin_count, sample_rate)
            <= spec_bin_to_frequency(j, bin_count, sample_rate),
{
    assert(i * sample_rate <= j * sample_rate) by {
        lemma_mul_inequality(i, j, sample_rate);
    }
    assert(i * sample_rate * 65536 <= j * sample_rate * 65536) by {
        lemma_mul_inequality(i * sample_rate, j * sample_rate, 65536);
    }
    lemma_div_is_ordered(i * sample_rate * 65536, j * sample_rate * 65536, 2 * bin_count);
}

/// Bin 0 sits at 0 Hz; the last bin sits exactly at the Nyquist frequency.
pub proof fn lemma_bin_to_frequency_edges(bin_count: int, sample_rate: int)
    requires
        bin_count > 0,
        sample_rate >= 0,
    ensures
        spec_bin_to_frequency(0, bin_count, sample_rate) == 0,
        spec_bin_to_frequency(bin_count, bin_count, sample_rate) == sample_rate * 65536 / 2,
{
    assert(0 * sample_rate * 65536 == 0);
    assert(spec_bin_to_frequency(0, bin_count, sample_rate) == 0);
    assert(bin_count * sample_rate * 65536 == (2 * bin_count) * (sample_rate * 32768))
        by (nonlinear_arith);
    lemma_div_multiples_vanish(sample_rate * 32768, 2 * bin_count);
    assert(sample_rate * 65536 / 2 == sample_rate * 32768);
}

/// Doubling the bin index rises one octave to within one quantum: the
/// doubled bin's frequency is exactly twice the original's, except that
/// truncation may add back the half quantum the original lost.
pub proof fn lemma_bin_to_frequency_octave(i: int, bin_count: int, sample_rate: int)
    requires
        0 <= i,
        bin_count > 0,
        sample_rate >= 0,
    ensures
        2 * spec_bin_to_frequency(i, bin_count, sample_rate)
            <= spec_bin_to_frequency(2 * i, bin_count, sample_rate),
        spec_bin_to_frequency(2 * i, bin_count, sample_rate)
            <= 2 * spec_bin_to_frequency(i, bin_count, sample_rate) + 1,
{
    let nn = i * sample_rate * 65536;
    let dd = 2 * bin_count;
    let q = nn / dd;
    let r = nn % dd;
    lemma_fundamental_div_mod(nn, dd);
    lemma_mod_division_less_than_divisor(nn, dd);
    assert((2 * i) * sample_rate * 65536 == 2 * nn) by (nonlinear_arith)
        requires
            nn == i * sample_rate * 65536,
    ;
    assert(2 * nn == dd * (2 * q) + 2 * r) by (nonlinear_arith)
        requires
            nn == dd * q + r,
    ;
    if 2 * r < dd {
        lemma_div_multiples_vanish_fancy(2 * q, 2 * r, dd);
    } else {
        assert(2 * nn == dd * (2 * q + 1) + (2 * r - dd)) by (nonlinear_arith)
            requires
                2 * nn == dd * (2 * q) + 2 * r,
        ;
        lemma_div_multiples_vanish_fancy(2 * q + 1, 2 * r - dd, dd);
    }
}

/// Horizontal position of `f` (Q16.16 Hz) on an axis of `width` Q16.16
/// pixels, under scale `s` and sample rate `sr`: `f` is clamped into
/// `[20 Hz, sr/2]`, transformed per the scale, and interpolated linearly
/// into `[0, width]`.
pub open spec fn spec_scale_position(f: int, s: Scale, sr: int, width: int) -> int {
    let lo = LOW_EDGE as int;
    let hi = sr * 65536 / 2;
    match s {
        Scale::Linear => spec_map_range(f, lo, hi, 0, width),
        Scale::Logarithmic => if hi <= lo {
            0
        } else {
            spec_map_range(
                spec_flog2(spec_clamp(f, lo, hi)),
                spec_flog2(lo),
                spec_flog2(hi),
                0,
                width,
            )
        },
        Scale::Root(n) => if n == 65536 {
            // an exponent of exactly 1.0 degenerates to the linear scale
            spec_map_range(f, lo, hi, 0, width)
        } else if hi <= lo {
            0
        } else {
            let llo = spec_flog2(lo);
            let u = spec_flog2(spec_clamp(f, lo, hi)) - llo;
            let uhi = spec_flog2(hi) - llo;
            spec_map_range(spec_fexp2(n * u / 65536), 65536, spec_fexp2(n * uhi / 65536), 0, width)
        },
    }
}

/// A root exponent of exactly 1.0 is the linear scale: the two variants
/// place every frequency at the same position.
pub proof fn lemma_root_one_is_linear(f: int, sr: int, width: int)
    ensures
        spec_scale_position(f, Scale::Root(65536), sr, width) == spec_scale_position(
            f,
            Scale::Linear,
            sr,
            width,
        ),
{
}

/// The Nyquist edge stays below 2^36 for every supported sample rate, so
/// every clamped frequency is in the domain of `flog2`.
proof fn lemma_band_bounds(sr: int)
    requires
        0 <= sr <= SR_MAX as int,
    ensures
        sr * 65536 / 2 < pow2(36),
        sr * 65536 / 2 == sr * 32768,
{
    lemma2_to64_rest();
    assert(sr * 65536 / 2 == sr * 32768);
    assert(sr * 32768 <= SR_MAX as int * 32768) by {
        lemma_mul_inequality(sr, SR_MAX as int, 32768);
    }
}

/// Maps a frequency to its horizontal position under scale `scale_type`.
pub fn scale_position(frequency: u64, scale_type: Scale, sample_rate: u64, width: u64) -> (r: u64)
    requires
        spec_scale_wf(scale_type),
        sample_rate <= SR_MAX,
        width <= WIDTH_MAX,
    ensures
        r as int == spec_scale_position(
            frequency as int,
            scale_type,
            sample_rate as int,
            width as int,
        ),
        r <= width,
{
    let lo: u64 = LOW_EDGE;
    let hi: u64 = sample_rate * ONE / 2;
    proof {
        lemma_band_bounds(sample_rate as int);
    }
    match scale_type {
        Scale::Linear => map_range(frequency, lo, hi, 0, width),
        Scale::Logarithmic => {
            if hi <= lo {
                0
            } else {
                let cf: u64 = if frequency < lo {
                    lo
                } else if frequency > hi {
                    hi
                } else {
                    frequency
                };
                proof {
                    lemma_flog2_monotone(lo as int, cf as int);
                    lemma_flog2_monotone(cf as int, hi as int);
                    lemma_flog2_nonneg(lo as int);
                }
                let lf: u64 = flog2(cf);
                let llo: u64 = flog2(lo);
                let lhi: u64 = flog2(hi);
                map_range(lf, llo, lhi, 0, width)
            }
        },
        Scale::Root(n) => {
            if n == ONE {
                map_range(frequency, lo, hi, 0, width)
            } else if hi <= lo {
                0
            } else {
                let cf: u64 = if frequency < lo {
                    lo
                } else if frequency > hi {
                    hi
                } else {
                    frequency
                };
                proof {
                    lemma_flog2_monotone(lo as int, cf as int);
                    lemma_flog2_monotone(cf as int, hi as int);
                    lemma_flog2_nonneg(lo as int);
                    lemma_flog2_upper(cf as int, 36);
                    lemma_flog2_upper(hi as int, 36);
                }
                let llo: u64 = flog2(lo);
                let u: u64 = flog2(cf) - llo;
                let uhi: u64 = flog2(hi) - llo;
                // u <= uhi < 20 * 65536 and n <= 131072, so the exponents
                // stay within fexp2's domain of 46 octaves
                proof {
                    let e = n as int * (u as int) / 65536;
                    let ehi = n as int * (uhi as int) / 65536;
                    assert(n as int * (u as int) <= 131072 * 1310720) by (nonlinear_arith)
                        requires
                            0 <= n as int <= 131072,
                            0 <= u as int,
                            (u as int) < 1310720,
                    ;
                    assert(n as int * (uhi as int) <= 131072 * 1310720) by (nonlinear_arith)
                        requires
                            0 <= n as int <= 131072,
                            0 <= uhi as int,
                            (uhi as int) < 1310720,
                    ;
                    assert(n as int * (u as int) >= 0) by (nonlinear_arith)
                        requires
                            0 <= n as int,
                            0 <= u as int,
                    ;
                    assert(n as int * (uhi as int) >= 0) by (nonlinear_arith)
                        requires
                            0 <= n as int,
                            0 <= uhi as int,
                    ;
                    lemma_div_is_ordered(n as int * (u as int), (131072 * 1310720) as int, 65536);
                    lemma_div_is_ordered(n as int * (uhi as int), (131072 * 1310720) as int, 65536);
                    lemma_div_is_ordered(0, n as int * (u as int), 65536);
                    lemma_div_is_ordered(0, n as int * (uhi as int), 65536);
                }
                let e: u64 = n * u / ONE;
                let ehi: u64 = n * uhi / ONE;
                let fx: u64 = fexp2(e);
                let fxhi: u64 = fexp2(ehi);
                map_range(fx, ONE, fxhi, 0, width)
            }
        },
    }
}

/// The scale position is monotonically non-decreasing in the frequency,
/// for every scale variant.
pub proof fn lemma_scale_position_monotone(f1: int, f2: int, s: Scale, sr: int, width: int)
    requires
        f1 <= f2,
        spec_scale_wf(s),
        0 <= sr <= SR_MAX as int,
        0 <= width,
    ensures
        spec_scale_position(f1, s, sr, width) <= spec_scale_position(f2, s, sr, width),
{
    let lo = LOW_EDGE as int;
    let hi = sr * 65536 / 2;
    match s {
        Scale::Linear => {
            lemma_map_range_monotone(f1, f2, lo, hi, 0, width);
        },
        Scale::Logarithmic => {
            if hi > lo {
                let c1 = spec_clamp(f1, lo, hi);
                let c2 = spec_clamp(f2, lo, hi);
                lemma_flog2_monotone(c1, c2);
                lemma_map_range_monotone(
                    spec_flog2(c1),
                    spec_flog2(c2),
                    spec_flog2(lo),
                    spec_flog2(hi),
                    0,
                    width,
                );
            }
        },
        Scale::Root(n) => {
            if n == 65536 {
                lemma_map_range_monotone(f1, f2, lo, hi, 0, width);
            } else if hi > lo {
                let llo = spec_flog2(lo);
                let c1 = spec_clamp(f1, lo, hi);
                let c2 = spec_clamp(f2, lo, hi);
                lemma_flog2_monotone(lo, c1);
                lemma_flog2_monotone(c1, c2);
                let u1 = spec_flog2(c1) - llo;
                let u2 = spec_flog2(c2) - llo;
                assert(n * u1 <= n * u2) by {
                    lemma_mul_inequality(u1, u2, n as int);
                    lemma_mul_is_commutative(u1, n as int);
                    lemma_mul_is_commutative(u2, n as int);
                }
                assert(0 <= n * u1) by {
                    lemma_mul_inequality(0, u1, n as int);
                    lemma_mul_is_commutative(u1, n as int);
                }
                lemma_div_is_ordered(0, n * u1, 65536);
                lemma_div_is_ordered(n * u1, n * u2, 65536);
                lemma_fexp2_monotone(n * u1 / 65536, n * u2 / 65536);
                let uhi = spec_flog2(hi) - llo;
                lemma_map_range_monotone(
                    spec_fexp2(n * u1 / 65536),
                    spec_fexp2(n * u2 / 65536),
                    65536,
                    spec_fexp2(n * uhi / 65536),
                    0,
                    width,
                );
            }
        },
    }
}

} // verus!
