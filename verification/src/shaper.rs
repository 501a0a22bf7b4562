//! Spectral shaping: an octave-dependent tilt (dB per octave) compensating
//! for the natural roll-off of measured spectra, a clamp at 0 dB, and the
//! conversion from decibels to linear amplitude.
//!
//! Magnitudes use the same representation as `smoothing`: Q16.16 decibel
//! offsets above a -180 dB floor, `ZERO_DB` being 0 dB. Amplitudes are
//! Q16.16 values in [0, 1]; `10^(db/20)` is computed as
//! `2^(db / 6.0206)` through the piecewise-linear exponential.

use vstd::prelude::*;
use vstd::arithmetic::div_mod::{
    lemma_div_by_self, lemma_div_is_ordered, lemma_div_is_ordered_by_denominator,
};
use vstd::arithmetic::mul::{lemma_mul_inequality, lemma_mul_is_commutative};
use vstd::arithmetic::power2::{lemma2_to64, lemma_pow2_strictly_increases, pow2};
use crate::fixed::{fexp2, flog2, lemma_fexp2_at_least_one, spec_fexp2, spec_flog2, ONE};
use crate::smoothing::DB_CAP;

verus! {

/// 0 dB in the offset representation: 180 dB above the floor, Q16.16.
pub const ZERO_DB: u64 = 11796480;

/// Largest supported tilt magnitude, in Q16.16 dB per octave.
pub const SLOPE_CAP: i64 = 1073741824;

/// Frequencies must stay below 2^31 Hz (Q16.16) for the logarithm.
pub const FREQ_CAP: u64 = 0x800000000000;

/// The tilted and clamped magnitude: `db` plus `log2(freq) * slope`
/// (frequencies under 1 Hz count as 1 Hz), clamped into `[-180 dB, 0 dB]`.
/// No gain above the 0 dB reference survives the clamp.
pub open spec fn spec_shaped_db(db: int, freq: int, slope: int) -> int {
    let oct = spec_flog2(if freq < 65536 { 65536 } else { freq });
    let t = oct * (if slope >= 0 { slope } else { -slope }) / 65536;
    let adj = if slope >= 0 { db + t } else { db - t };
    if adj > ZERO_DB as int {
        ZERO_DB as int
    } else if adj < 0 {
        0
    } else {
        adj
    }
}

/// Linear amplitude of a magnitude at or below 0 dB: `10^(db/20)` in
/// Q16.16, computed as 2 to the number of octaves below the reference
/// (one octave per 6.0206 dB).
pub open spec fn spec_amp_of_db(db: int) -> int {
    let below = ZERO_DB as int - db;
    let e = below * 10000 / 60206;
    4294967296int / spec_fexp2(e)
}

/// The amplitude exponent stays inside the exponential's domain.
proof fn lemma_amp_exponent_bounds(db: int)
    requires
        0 <= db <= ZERO_DB as int,
    ensures
        0 <= (ZERO_DB as int - db) * 10000 / 60206 <= 1959520,
{
    let below = ZERO_DB as int - db;
    assert(below * 10000 <= 11796480 * 10000) by {
        lemma_mul_inequality(below, 11796480, 10000);
    }
    assert(below * 10000 >= 0) by {
        lemma_mul_inequality(0, below, 10000);
    }
    lemma_div_is_ordered(0, below * 10000, 60206);
    lemma_div_is_ordered(below * 10000, (11796480 * 10000) as int, 60206);
}

/// Applies the dB-per-octave tilt to a magnitude and clamps it to 0 dB.
pub fn shape_db(db: u64, frequency: u64, slope: i64) -> (r: u64)
    requires
        db <= DB_CAP,
        frequency < FREQ_CAP,
        -SLOPE_CAP <= slope <= SLOPE_CAP,
    ensures
        r as int == spec_shaped_db(db as int, frequency as int, slope as int),
        r <= ZERO_DB,
{
    let f: u64 = if frequency < ONE {
        ONE
    } else {
        frequency
    };
    let oct: u64 = flog2(f);
    let mag: u64 = if slope >= 0 {
        slope as u64
    } else {
        (-slope) as u64
    };
    proof {
        assert(oct as int * (mag as int) <= 2031616 * (SLOPE_CAP as int)) by {
            lemma_mul_inequality(oct as int, 2031616, mag as int);
            lemma_mul_inequality(mag as int, SLOPE_CAP as int, 2031616);
            lemma_mul_is_commutative(mag as int, 2031616);
        }
        assert(oct as int * (mag as int) >= 0) by {
            lemma_mul_inequality(0, oct as int, mag as int);
            lemma_mul_is_commutative(oct as int, mag as int);
        }
        lemma_div_is_ordered(0, oct as int * (mag as int), 65536);
        lemma_div_is_ordered(
            oct as int * (mag as int),
            2031616 * (SLOPE_CAP as int),
            65536,
        );
    }
    let t: u64 = oct * mag / ONE;
    if slope >= 0 {
        let adj: u64 = db + t;
        if adj > ZERO_DB {
            ZERO_DB
        } else {
            adj
        }
    } else {
        if t >= db {
            0
        } else {
            let adj: u64 = db - t;
            if adj > ZERO_DB {
                ZERO_DB
            } else {
                adj
            }
        }
    }
}

/// Converts a magnitude at or below 0 dB to a linear amplitude in
/// Q16.16 `[0, 65536]`; exactly 0 dB maps to amplitude 1.0.
pub fn amp_of_db(db: u64) -> (r: u64)
    requires
        db <= ZERO_DB,
    ensures
        r as int == spec_amp_of_db(db as int),
        r <= 65536,
        db == ZERO_DB ==> r == 65536,
{
    proof {
        lemma_amp_exponent_bounds(db as int);
    }
    let below: u64 = ZERO_DB - db;
    let e: u64 = below * 10000 / 60206;
    let denom: u64 = fexp2(e);
    proof {
        lemma_div_is_ordered_by_denominator(4294967296, 65536, denom as int);
        if db == ZERO_DB {
            lemma2_to64();
            assert((65536 + 0int % 65536) * (pow2((0int / 65536) as nat) as int) == 65536)
                by (nonlinear_arith)
                requires
                    pow2((0int / 65536) as nat) == 1,
            ;
        }
    }
    4294967296u64 / denom
}

/// The shaper's guarantees: the tilted magnitude never exceeds 0 dB, the
/// amplitude always lies in [0, 1], and any magnitude within 96 dB of the
/// reference keeps a strictly positive amplitude.
pub proof fn lemma_shaper_output_bounds(db: int, freq: int, slope: int)
    requires
        0 <= db,
    ensures
        spec_shaped_db(db, freq, slope) <= ZERO_DB as int,
        0 <= spec_shaped_db(db, freq, slope),
        0 <= spec_amp_of_db(spec_shaped_db(db, freq, slope)) <= 65536,
        spec_shaped_db(db, freq, slope) >= ZERO_DB as int - 6291456
            ==> spec_amp_of_db(spec_shaped_db(db, freq, slope)) >= 1,
{
    let s = spec_shaped_db(db, freq, slope);
    assert(0 <= s <= ZERO_DB as int);
    lemma_amp_exponent_bounds(s);
    let below = ZERO_DB as int - s;
    let e = below * 10000 / 60206;
    lemma_fexp2_at_least_one(e);
    lemma_div_is_ordered(0, 4294967296, spec_fexp2(e));
    lemma_div_is_ordered_by_denominator(4294967296, 65536, spec_fexp2(e));
    if s >= ZERO_DB as int - 6291456 {
        // below <= 96 dB, so the exponent stays under 16 octaves and the
        // denominator under 2^32
        assert(below * 10000 <= 6291456 * 10000) by {
            lemma_mul_inequality(below, 6291456, 10000);
        }
        lemma_div_is_ordered(below * 10000, (6291456 * 10000) as int, 60206);
        assert(e <= 1044988);
        let k = (e / 65536) as nat;
        assert(k <= 15);
        assert(pow2(k) <= pow2(15)) by {
            if k < 15 {
                lemma_pow2_strictly_increases(k, 15);
            }
        }
        lemma2_to64();
        assert(spec_fexp2(e) == (65536 + e % 65536) * (pow2(k) as int));
        assert((65536 + e % 65536) * (pow2(k) as int) <= 131071 * 32768) by {
            lemma_mul_inequality(65536 + e % 65536, 131071, pow2(k) as int);
            lemma_mul_inequality(pow2(k) as int, 32768, 131071);
            lemma_mul_is_commutative(pow2(k) as int, 131071);
        }
        assert(spec_fexp2(e) / spec_fexp2(e) == 1) by {
            lemma_div_by_self(spec_fexp2(e));
        }
        lemma_div_is_ordered(spec_fexp2(e), 4294967296, spec_fexp2(e));
    }
}

} // verus!
