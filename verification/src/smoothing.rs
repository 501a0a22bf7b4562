//! Temporal smoothing of per-bin magnitudes.
//!
//! Magnitudes are decibel values stored as Q16.16 offsets above a -180 dB
//! floor (`0` is -180 dB, `11796480` is 0 dB). One exponential blend
//! underlies both flavors of smoothing: the per-bin `Bin` filter with
//! independent attack and release coefficients, and the whole-vector
//! `smooth_frame` filter with one symmetric factor. The vector filter with
//! factor `t` is exactly the per-bin filter with
//! `attack == release == 65536 - t`.

use vstd::prelude::*;
use vstd::arithmetic::div_mod::{lemma_div_is_ordered, lemma_div_multiples_vanish};
use vstd::arithmetic::mul::{
    lemma_mul_inequality, lemma_mul_is_commutative, lemma_mul_is_distributive_sub,
    lemma_mul_strictly_positive,
};

verus! {

/// Upper cap on stored magnitudes, far above any real decibel value; it
/// keeps the blend arithmetic inside `u64`.
pub const DB_CAP: u64 = 4294967296;

/// The smoothing floor every `Bin` starts from: -90 dB, i.e. 90 dB above
/// the -180 dB floor, in Q16.16.
pub const DEFAULT_HISTORY: u64 = 5898240;

/// Default attack coefficient: 0.5 in Q16.16.
pub const DEFAULT_ATTACK: u64 = 32768;

/// Default release coefficient: about 0.9 in Q16.16.
pub const DEFAULT_RELEASE: u64 = 58982;

/// One step of the exponential blend: the previous value `h` weighted by
/// the coefficient `d`, plus the new value `v` weighted by `1 - d`
/// (Q16.16), truncated to an integer.
pub open spec fn spec_blend(h: int, v: int, d: int) -> int {
    (h * d + v * (65536 - d)) / 65536
}

/// Distance between two values, for convergence statements.
pub open spec fn spec_dist(a: int, b: int) -> int {
    if a <= b {
        b - a
    } else {
        a - b
    }
}

/// Blending a value with itself returns it unchanged: the filter does not
/// drift at steady state.
pub proof fn lemma_blend_steady(h: int, d: int)
    requires
        0 <= h,
        0 < d < 65536,
    ensures
        spec_blend(h, h, d) == h,
{
    assert(h * d + h * (65536 - d) == h * 65536) by {
        lemma_mul_is_distributive_sub(h, 65536, d);
    }
    assert(h * 65536 / 65536 == h) by {
        lemma_div_multiples_vanish(h, 65536);
        lemma_mul_is_commutative(h, 65536);
    }
}

/// The blend lands between the old and the new value.
pub proof fn lemma_blend_bounds(h: int, v: int, d: int)
    requires
        0 <= h,
        0 <= v,
        0 < d < 65536,
    ensures
        v <= h ==> v <= spec_blend(h, v, d) <= h,
        h <= v ==> h <= spec_blend(h, v, d) <= v,
{
    let lo = if v <= h { v } else { h };
    let hi = if v <= h { h } else { v };
    assert(lo * d <= h * d && h * d <= hi * d) by {
        lemma_mul_inequality(lo, h, d);
        lemma_mul_inequality(h, hi, d);
    }
    assert(lo * (65536 - d) <= v * (65536 - d) && v * (65536 - d) <= hi * (65536 - d)) by {
        lemma_mul_inequality(lo, v, 65536 - d);
        lemma_mul_inequality(v, hi, 65536 - d);
    }
    assert(lo * d + lo * (65536 - d) == lo * 65536) by {
        lemma_mul_is_distributive_sub(lo, 65536, d);
    }
    assert(hi * d + hi * (65536 - d) == hi * 65536) by {
        lemma_mul_is_distributive_sub(hi, 65536, d);
    }
    lemma_div_is_ordered(lo * 65536, h * d + v * (65536 - d), 65536);
    lemma_div_is_ordered(h * d + v * (65536 - d), hi * 65536, 65536);
    assert(lo * 65536 / 65536 == lo) by {
        lemma_div_multiples_vanish(lo, 65536);
        lemma_mul_is_commutative(lo, 65536);
    }
    assert(hi * 65536 / 65536 == hi) by {
        lemma_div_multiples_vanish(hi, 65536);
        lemma_mul_is_commutative(hi, 65536);
    }
}

/// While the old value is strictly above the new one, each blend step
/// moves down by at least one quantum.
pub proof fn lemma_blend_falling_progress(h: int, v: int, d: int)
    requires
        0 <= v < h,
        0 < d < 65536,
    ensures
        spec_blend(h, v, d) <= h - 1,
{
    assert(h * d + v * (65536 - d) == h * 65536 - (h - v) * (65536 - d)) by {
        lemma_mul_is_distributive_sub(h, 65536, d);
        lemma_mul_is_distributive_sub(65536 - d, h, v);
        lemma_mul_is_commutative(65536 - d, h);
        lemma_mul_is_commutative(65536 - d, v);
    }
    assert(0 < (h - v) * (65536 - d)) by {
        lemma_mul_strictly_positive(h - v, 65536 - d);
    }
    lemma_div_is_ordered(h * d + v * (65536 - d), h * 65536 - 1, 65536);
    assert((h * 65536 - 1) / 65536 == h - 1) by {
        assert(h * 65536 - 1 == (h - 1) * 65536 + 65535) by {
            lemma_mul_is_distributive_sub(65536, h, 1);
            lemma_mul_is_commutative(65536, h);
            lemma_mul_is_commutative(65536, h - 1);
        }
        assert(((h - 1) * 65536 + 65535) / 65536 == h - 1) by {
            lemma_div_multiples_vanish(h - 1, 65536);
            lemma_mul_is_commutative(h - 1, 65536);
            assert((65536 * (h - 1) + 65535) / 65536 == h - 1) by {
                vstd::arithmetic::div_mod::lemma_div_multiples_vanish_fancy(h - 1, 65535, 65536);
            }
        }
    }
}

/// While the new value is far enough above the old one, each blend step
/// moves up by at least one quantum. "Far enough" means the gap times the
/// new-value weight `65536 - d` reaches one whole quantum.
pub proof fn lemma_blend_rising_progress(h: int, v: int, d: int)
    requires
        0 <= h < v,
        0 < d < 65536,
        (v - h) * (65536 - d) >= 65536,
    ensures
        spec_blend(h, v, d) >= h + 1,
{
    assert(h * d + v * (65536 - d) == h * 65536 + (v - h) * (65536 - d)) by {
        lemma_mul_is_distributive_sub(h, 65536, d);
        lemma_mul_is_distributive_sub(65536 - d, v, h);
        lemma_mul_is_commutative(65536 - d, h);
        lemma_mul_is_commutative(65536 - d, v);
    }
    lemma_div_is_ordered((h + 1) * 65536, h * d + v * (65536 - d), 65536);
    assert((h + 1) * 65536 / 65536 == h + 1) by {
        lemma_div_multiples_vanish(h + 1, 65536);
        lemma_mul_is_commutative(h + 1, 65536);
    }
}

/// The smoothed value after `n` blend steps toward a constant target `v`.
pub open spec fn spec_smooth_iter(h: int, v: int, d: int, n: nat) -> int
    decreases n,
{
    if n == 0 {
        h
    } else {
        spec_blend(spec_smooth_iter(h, v, d, (n - 1) as nat), v, d)
    }
}

/// Iterating commutes with taking one step first.
proof fn lemma_smooth_iter_shift(h: int, v: int, d: int, n: nat)
    requires
        n >= 1,
    ensures
        spec_smooth_iter(h, v, d, n) == spec_smooth_iter(spec_blend(h, v, d), v, d, (n - 1) as nat),
    decreases n,
{
    let h2 = spec_blend(h, v, d);
    if n == 1 {
        assert(spec_smooth_iter(h, v, d, 0) == h);
        assert(spec_smooth_iter(h2, v, d, 0) == h2);
    } else {
        lemma_smooth_iter_shift(h, v, d, (n - 1) as nat);
        assert(spec_smooth_iter(h, v, d, n) == spec_blend(spec_smooth_iter(h, v, d, (n - 1) as nat), v, d));
        assert(spec_smooth_iter(h2, v, d, (n - 1) as nat) == spec_blend(
            spec_smooth_iter(h2, v, d, (n - 2) as nat),
            v,
            d,
        ));
    }
}

/// Once the distance to the target is below one quantum per step, it
/// stays there.
proof fn lemma_smooth_stays_within(h: int, v: int, d: int, n: nat)
    requires
        0 <= h,
        0 <= v,
        0 < d < 65536,
        spec_dist(h, v) * (65536 - d) < 65536,
    ensures
        spec_dist(spec_smooth_iter(h, v, d, n), v) * (65536 - d) < 65536,
        0 <= spec_smooth_iter(h, v, d, n),
    decreases n,
{
    if n > 0 {
        lemma_smooth_stays_within(h, v, d, (n - 1) as nat);
        let prev = spec_smooth_iter(h, v, d, (n - 1) as nat);
        lemma_blend_bounds(prev, v, d);
        let cur = spec_blend(prev, v, d);
        assert(spec_dist(cur, v) <= spec_dist(prev, v));
        assert(spec_dist(cur, v) * (65536 - d) <= spec_dist(prev, v) * (65536 - d)) by {
            lemma_mul_inequality(spec_dist(cur, v), spec_dist(prev, v), 65536 - d);
        }
    }
}

/// Convergence: repeatedly blending toward a constant target shrinks the
/// distance to it below one quantum per step — within `65536 / (65536 - d)`
/// of the target — after at most the initial distance many steps.
pub proof fn lemma_smooth_converges(h: int, v: int, d: int, n: nat)
    requires
        0 <= h,
        0 <= v,
        0 < d < 65536,
        n >= spec_dist(h, v),
    ensures
        spec_dist(spec_smooth_iter(h, v, d, n), v) * (65536 - d) < 65536,
    decreases n,
{
    let g = spec_dist(h, v);
    if g * (65536 - d) < 65536 {
        lemma_smooth_stays_within(h, v, d, n);
    } else {
        assert(g >= 1) by {
            if g == 0 {
                assert(g * (65536 - d) == 0) by (nonlinear_arith)
                    requires
                        g == 0,
                ;
            }
        }
        let h2 = spec_blend(h, v, d);
        lemma_blend_bounds(h, v, d);
        if v < h {
            lemma_blend_falling_progress(h, v, d);
        } else {
            assert(h < v);
            lemma_blend_rising_progress(h, v, d);
        }
        assert(spec_dist(h2, v) <= g - 1);
        lemma_smooth_iter_shift(h, v, d, n);
        lemma_smooth_converges(h2, v, d, (n - 1) as nat);
    }
}

/// One exponential blend step on Q16.16 magnitudes: `h` weighted by the
/// coefficient `d`, `v` weighted by the rest.
pub fn blend(h: u64, v: u64, d: u64) -> (r: u64)
    requires
        h <= DB_CAP,
        v <= DB_CAP,
        1 <= d <= 65535,
    ensures
        r as int == spec_blend(h as int, v as int, d as int),
        r <= DB_CAP,
{
    proof {
        lemma_blend_bounds(h as int, v as int, d as int);
        assert(h as int * (d as int) <= DB_CAP as int * 65535) by {
            lemma_mul_inequality(h as int, DB_CAP as int, d as int);
            lemma_mul_inequality(d as int, 65535, DB_CAP as int);
            lemma_mul_is_commutative(d as int, DB_CAP as int);
        }
        assert(v as int * ((65536 - d) as int) <= DB_CAP as int * 65535) by {
            lemma_mul_inequality(v as int, DB_CAP as int, (65536 - d) as int);
            lemma_mul_inequality((65536 - d) as int, 65535, DB_CAP as int);
            lemma_mul_is_commutative((65536 - d) as int, DB_CAP as int);
        }
    }
    (h * d + v * (65536 - d)) / 65536
}

/// One frequency bucket's smoothed magnitude over time, with independent
/// attack (rising) and release (falling) coefficients.
pub struct Bin {
    pub val: u64,
    pub history: u64,
    pub attack: u64,
    pub release: u64,
    pub frequency: u64,
    pub smooth_val: u64,
}

/// A well-formed bin: coefficients strictly inside (0, 1) and magnitudes
/// under the cap.
pub open spec fn spec_bin_wf(b: Bin) -> bool {
    &&& 1 <= b.attack <= 65535
    &&& 1 <= b.release <= 65535
    &&& b.val <= DB_CAP
    &&& b.history <= DB_CAP
    &&& b.smooth_val <= DB_CAP
}

impl Bin {
    /// A fresh bin holding `val`, with history seeded at -90 dB and the
    /// default coefficients.
    pub fn new(val: u64) -> (b: Bin)
        requires
            val <= DB_CAP,
        ensures
            b.val == val,
            b.history == DEFAULT_HISTORY,
            b.attack == DEFAULT_ATTACK,
            b.release == DEFAULT_RELEASE,
            b.frequency == 0,
            b.smooth_val == val,
            spec_bin_wf(b),
    {
        Bin {
            val,
            history: DEFAULT_HISTORY,
            attack: DEFAULT_ATTACK,
            release: DEFAULT_RELEASE,
            frequency: 0,
            smooth_val: val,
        }
    }

    /// Folds a new raw value into the history: the release coefficient
    /// weighs the history when the signal falls, the attack coefficient
    /// when it rises or holds.
    pub fn update(&mut self, new_val: u64)
        requires
            spec_bin_wf(*old(self)),
            new_val <= DB_CAP,
        ensures
            final(self).history == spec_blend(
                old(self).history as int,
                new_val as int,
                if old(self).history > new_val {
                    old(self).release as int
                } else {
                    old(self).attack as int
                },
            ),
            final(self).smooth_val == final(self).history,
            final(self).val == old(self).val,
            final(self).attack == old(self).attack,
            final(self).release == old(self).release,
            final(self).frequency == old(self).frequency,
            spec_bin_wf(*final(self)),
    {
        let direction_strength: u64 = if self.history > new_val {
            self.release
        } else {
            self.attack
        };
        self.history = blend(self.history, new_val, direction_strength);
        self.smooth_val = self.history;
    }

    /// The current smoothed magnitude.
    pub fn get_smooth_val(&self) -> (r: u64)
        ensures
            r == self.smooth_val,
    {
        self.smooth_val
    }

    /// The raw magnitude the bin was built with.
    pub fn get_raw_val(&self) -> (r: u64)
        ensures
            r == self.val,
    {
        self.val
    }

    /// Assigns the bin's center frequency (Q16.16 Hz).
    pub fn set_frequency(&mut self, freq: u64)
        ensures
            final(self).frequency == freq,
            final(self).val == old(self).val,
            final(self).history == old(self).history,
            final(self).attack == old(self).attack,
            final(self).release == old(self).release,
            final(self).smooth_val == old(self).smooth_val,
    {
        self.frequency = freq;
    }

    /// The bin's assigned center frequency (Q16.16 Hz).
    pub fn get_frequency(&self) -> (r: u64)
        ensures
            r == self.frequency,
    {
        self.frequency
    }

    /// Sets the attack coefficient, which must lie strictly inside (0, 1).
    pub fn set_attack(&mut self, attack: u64)
        requires
            1 <= attack <= 65535,
        ensures
            final(self).attack == attack,
            final(self).val == old(self).val,
            final(self).history == old(self).history,
            final(self).release == old(self).release,
            final(self).frequency == old(self).frequency,
            final(self).smooth_val == old(self).smooth_val,
    {
        self.attack = attack;
    }

    /// Sets the release coefficient, which must lie strictly inside (0, 1).
    pub fn set_release(&mut self, release: u64)
        requires
            1 <= release <= 65535,
        ensures
            final(self).release == release,
            final(self).val == old(self).val,
            final(self).history == old(self).history,
            final(self).attack == old(self).attack,
            final(self).frequency == old(self).frequency,
            final(self).smooth_val == old(self).smooth_val,
    {
        self.release = release;
    }
}

/// Whole-vector smoothing: every slot moves toward the new frame by
/// `smoothing_factor` (Q16.16) of its distance, i.e. the symmetric blend
/// with coefficient `65536 - smoothing_factor`. A frame whose length
/// differs from the state's reseeds the state with the frame as-is.
pub fn smooth_frame(data: &mut Vec<u64>, new_data: &Vec<u64>, smoothing_factor: u64)
    requires
        1 <= smoothing_factor <= 65535,
        forall|i: int| 0 <= i < old(data)@.len() ==> old(data)@[i] <= DB_CAP,
        forall|i: int| 0 <= i < new_data@.len() ==> new_data@[i] <= DB_CAP,
    ensures
        old(data)@.len() == new_data@.len() ==> {
            &&& final(data)@.len() == new_data@.len()
            &&& forall|i: int|
                0 <= i < new_data@.len() ==> final(data)@[i] as int == spec_blend(
                    old(data)@[i] as int,
                    new_data@[i] as int,
                    (65536 - smoothing_factor) as int,
                )
        },
        old(data)@.len() != new_data@.len() ==> final(data)@ == new_data@,
        forall|i: int| 0 <= i < final(data)@.len() ==> final(data)@[i] <= DB_CAP,
{
    if data.len() != new_data.len() {
        let mut fresh: Vec<u64> = Vec::new();
        let mut i: usize = 0;
        while i < new_data.len()
            invariant
                i <= new_data@.len(),
                fresh@.len() == i,
                forall|j: int| 0 <= j < i ==> fresh@[j] == new_data@[j],
            decreases new_data@.len() - i,
        {
            fresh.push(new_data[i]);
            i = i + 1;
        }
        proof {
            assert(fresh@ =~= new_data@);
        }
        *data = fresh;
    } else {
        let d: u64 = 65536 - smoothing_factor;
        let n: usize = data.len();
        let mut i: usize = 0;
        while i < n
            invariant
                i <= n,
                data@.len() == n,
                new_data@.len() == n,
                1 <= d <= 65535,
                forall|j: int| 0 <= j < n ==> new_data@[j] <= DB_CAP,
                forall|j: int| i <= j < n ==> data@[j] == old(data)@[j],
                forall|j: int| 0 <= j < n ==> old(data)@[j] <= DB_CAP,
                forall|j: int|
                    0 <= j < i ==> data@[j] as int == spec_blend(
                        old(data)@[j] as int,
                        new_data@[j] as int,
                        d as int,
                    ),
                forall|j: int| 0 <= j < n ==> data@[j] <= DB_CAP,
            decreases n - i,
        {
            let smoothed: u64 = blend(data[i], new_data[i], d);
            data.set(i, smoothed);
            i = i + 1;
        }
    }
}

} // verus!
