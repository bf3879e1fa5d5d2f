//! Parameter modulation: smooths band energies over time and maps them into
//! the raster generator's control parameters.
//!
//! Continuous parameters (angle, ratio) are driven only by audio; the
//! discrete shape parameter (exponent) is driven only by key events. The
//! angle lives in fixed-point phase units (65536 per turn), the ratio in
//! Q15.

use vstd::prelude::*;
use vstd::arithmetic::div_mod::{
    lemma_basic_div, lemma_div_is_ordered, lemma_div_is_ordered_by_denominator,
    lemma_div_multiples_vanish, lemma_div_pos_is_pos, lemma_mod_bound, lemma_small_mod,
    lemma_mod_multiples_vanish,
};

verus! {

/// Energies above this are saturated before use: the fixed-point response
/// curves are calibrated for amplitudes up to 2^40.
pub const AMP_CAP: u64 = 1099511627776;

/// Largest angle step per cycle, in phase units (about 0.1 radian).
pub const DELTA_CAP: u32 = 1043;

/// Phase units per radian in Q0 (2 * pi radians = 65536 units).
pub const PHASE_PER_RAD: u64 = 10430;

/// Upper bound the smoothed ratio can never exceed: the largest quotient
/// the delta-guarded division can produce.
pub const RATIO_MAX: u64 = ((1099511627776 + 33) * 32768) / 3;

/// Exponent cycles through 1 ..= MAX_EXPONENT on key events.
pub const MAX_EXPONENT: i32 = 7;

/// Named band energies of one analysis cycle.
pub struct BandEnergies {
    pub low: u64,
    pub high: u64,
}

/// Control parameters handed to the raster generator for one frame.
pub struct ModulatedParams {
    /// Angle driving `c(angle)`, in phase units of 1/65536 turn.
    pub angle: u32,
    /// Fractal exponent, in 1 ..= MAX_EXPONENT.
    pub exponent: i32,
    /// Smoothed low/high energy ratio, Q15.
    pub ratio: u64,
    /// Low band energy of the cycle that produced these parameters.
    pub low: u64,
    /// High band energy of the cycle that produced these parameters.
    pub high: u64,
}

/// Saturate an energy at the calibration cap.
pub open spec fn spec_clamp_energy(e: int) -> int {
    if e > AMP_CAP { AMP_CAP as int } else { e }
}

/// Magnitude of the angle step for a dominant energy `e`: a capped
/// proportional response, `min(DELTA_CAP, 7 * e)` converted to phase units.
pub open spec fn spec_delta_mag(e: int) -> int {
    let raw = 7 * spec_clamp_energy(e) * (PHASE_PER_RAD as int) / 32768;
    if raw > DELTA_CAP { DELTA_CAP as int } else { raw }
}

/// Next angle: step toward the dominant band, wrapping at one turn.
pub open spec fn spec_angle_next(angle: int, low: int, high: int) -> int {
    if spec_clamp_energy(high) > spec_clamp_energy(low) {
        (angle + spec_delta_mag(high)) % 65536
    } else {
        (angle + 65536 - spec_delta_mag(low)) % 65536
    }
}

/// The delta-guarded quotient `(low + d1) / (high + d2)` in Q15: small
/// offsets keep the denominator away from zero.
pub open spec fn spec_quotient(low: int, high: int) -> int {
    (spec_clamp_energy(low) + 33) * 32768 / (spec_clamp_energy(high) + 3)
}

/// Exponential smoothing of the ratio with rate 1/10.
pub open spec fn spec_ratio_next(ratio: int, low: int, high: int) -> int {
    (9 * ratio + spec_quotient(low, high)) / 10
}

/// The delta-guarded quotient is non-negative and never exceeds RATIO_MAX,
/// however close to zero the high energy is driven.
pub proof fn lemma_quotient_bounded(low: int, high: int)
    requires
        0 <= low,
        0 <= high,
    ensures
        0 <= spec_quotient(low, high) <= RATIO_MAX,
{
    let l = spec_clamp_energy(low);
    let h = spec_clamp_energy(high);
    let num = (l + 33) * 32768;
    assert(0 <= num <= (1099511627776int + 33) * 32768) by (nonlinear_arith)
        requires 0 <= l <= 1099511627776, num == (l + 33) * 32768;
    lemma_div_pos_is_pos(num, h + 3);
    lemma_div_is_ordered_by_denominator(num, 3, h + 3);
    lemma_div_is_ordered(num, (1099511627776int + 33) * 32768, 3);
}

/// The smoothed ratio stays within [0, RATIO_MAX] for any band energies:
/// the delta guard keeps every step finite and the smoothing keeps the
/// state inside the bound.
pub proof fn lemma_ratio_bounded(ratio: int, low: int, high: int)
    requires
        0 <= ratio <= RATIO_MAX,
        0 <= low,
        0 <= high,
    ensures
        0 <= spec_ratio_next(ratio, low, high) <= RATIO_MAX,
{
    lemma_quotient_bounded(low, high);
    let q = spec_quotient(low, high);
    lemma_div_pos_is_pos(9 * ratio + q, 10);
    lemma_div_is_ordered(9 * ratio + q, 10 * (RATIO_MAX as int), 10);
    lemma_div_multiples_vanish(RATIO_MAX as int, 10);
}

/// With both band energies zero the directional delta vanishes and the
/// angle is left exactly where it was.
pub proof fn lemma_silence_keeps_angle(angle: int)
    requires
        0 <= angle < 65536,
    ensures
        spec_delta_mag(0) == 0,
        spec_angle_next(angle, 0, 0) == angle,
{
    lemma_basic_div(0, 32768);
    lemma_mod_multiples_vanish(1, angle, 65536);
    lemma_small_mod(angle as nat, 65536);
}

/// What the state invariant guarantees of the visible state.
pub proof fn lemma_wf_bounds(m: ParameterModulator)
    requires
        m.wf(),
    ensures
        0 <= m.spec_angle() < 65536,
        1 <= m.spec_exponent() <= MAX_EXPONENT,
        0 <= m.spec_ratio() <= RATIO_MAX,
{
}

/// Process-lifetime modulation state.
pub struct ParameterModulator {
    angle: u32,
    ratio: u64,
    exponent: i32,
}

impl ParameterModulator {
    /// Current angle in phase units.
    pub closed spec fn spec_angle(&self) -> int {
        self.angle as int
    }

    /// Current smoothed ratio, Q15.
    pub closed spec fn spec_ratio(&self) -> int {
        self.ratio as int
    }

    /// Current exponent.
    pub closed spec fn spec_exponent(&self) -> int {
        self.exponent as int
    }

    /// The state invariant: angle inside one turn, exponent in its cycle,
    /// ratio within the guard bound.
    pub closed spec fn wf(&self) -> bool {
        &&& self.angle < 65536
        &&& 1 <= self.exponent <= MAX_EXPONENT
        &&& self.ratio <= RATIO_MAX
    }

    /// Fresh state: angle a quarter turn (about 1.57 rad), unit ratio,
    /// exponent 2.
    pub fn new() -> (m: Self)
        ensures
            m.wf(),
            m.spec_angle() == 16375,
            m.spec_ratio() == 32768,
            m.spec_exponent() == 2,
    {
        ParameterModulator { angle: 16375, ratio: 32768, exponent: 2 }
    }

    /// One audio-driven update: step the angle toward the dominant band
    /// (capped), smooth the ratio through the delta-guarded quotient, leave
    /// the exponent alone. With both energies zero the angle is unchanged.
    pub fn update(&mut self, bands: &BandEnergies) -> (p: ModulatedParams)
        requires
            old(self).wf(),
        ensures
            final(self).wf(),
            final(self).spec_exponent() == old(self).spec_exponent(),
            final(self).spec_angle() == spec_angle_next(old(self).spec_angle(), bands.low as int, bands.high as int),
            final(self).spec_ratio() == spec_ratio_next(old(self).spec_ratio(), bands.low as int, bands.high as int),
            bands.low == 0 && bands.high == 0 ==> final(self).spec_angle() == old(self).spec_angle(),
            p.angle == final(self).spec_angle(),
            p.ratio == final(self).spec_ratio(),
            p.exponent == final(self).spec_exponent(),
            p.low == bands.low,
            p.high == bands.high,
    {
        let l: u64 = if bands.low > AMP_CAP { AMP_CAP } else { bands.low };
        let h: u64 = if bands.high > AMP_CAP { AMP_CAP } else { bands.high };
        // angle step
        let dominant: u64 = if h > l { h } else { l };
        let raw128: u128 = (7 * (dominant as u128) * (PHASE_PER_RAD as u128)) / 32768;
        proof {
            assert(7 * (dominant as int) * (PHASE_PER_RAD as int) >= 0) by (nonlinear_arith)
                requires 0 <= dominant as int, PHASE_PER_RAD as int > 0;
            lemma_div_pos_is_pos(7 * (dominant as int) * (PHASE_PER_RAD as int), 32768);
        }
        let d: u32 = if raw128 > DELTA_CAP as u128 { DELTA_CAP } else { raw128 as u32 };
        let new_angle: u32 = if h > l {
            (self.angle + d) % 65536
        } else {
            (self.angle + 65536 - d) % 65536
        };
        proof {
            lemma_mod_bound((self.angle + d) as int, 65536);
            lemma_mod_bound((self.angle + 65536 - d) as int, 65536);
            if bands.low == 0 && bands.high == 0 {
                assert(spec_delta_mag(0) == 0) by {
                    lemma_basic_div(0, 32768);
                }
                lemma_mod_multiples_vanish(1, self.angle as int, 65536);
                lemma_small_mod(self.angle as nat, 65536);
            }
        }
        // ratio smoothing
        proof {
            lemma_quotient_bounded(bands.low as int, bands.high as int);
            lemma_ratio_bounded(self.ratio as int, bands.low as int, bands.high as int);
        }
        let q128: u128 = (((l as u128) + 33) * 32768) / ((h as u128) + 3);
        let q: u64 = q128 as u64;
        let new_ratio: u64 = (((9 * (self.ratio as u128)) + (q as u128)) / 10) as u64;
        self.angle = new_angle;
        self.ratio = new_ratio;
        ModulatedParams {
            angle: new_angle,
            exponent: self.exponent,
            ratio: new_ratio,
            low: bands.low,
            high: bands.high,
        }
    }

    /// Key-driven: cycle the exponent up through 1 ..= MAX_EXPONENT.
    pub fn cycle_exponent_up(&mut self)
        requires
            old(self).wf(),
        ensures
            final(self).wf(),
            final(self).spec_exponent() == if old(self).spec_exponent() == MAX_EXPONENT {
                1int
            } else {
                old(self).spec_exponent() + 1
            },
            final(self).spec_angle() == old(self).spec_angle(),
            final(self).spec_ratio() == old(self).spec_ratio(),
    {
        self.exponent = if self.exponent == MAX_EXPONENT { 1 } else { self.exponent + 1 };
    }

    /// Key-driven: cycle the exponent down through MAX_EXPONENT ..= 1.
    pub fn cycle_exponent_down(&mut self)
        requires
            old(self).wf(),
        ensures
            final(self).wf(),
            final(self).spec_exponent() == if old(self).spec_exponent() == 1 {
                MAX_EXPONENT as int
            } else {
                old(self).spec_exponent() - 1
            },
            final(self).spec_angle() == old(self).spec_angle(),
            final(self).spec_ratio() == old(self).spec_ratio(),
    {
        self.exponent = if self.exponent == 1 { MAX_EXPONENT } else { self.exponent - 1 };
    }

    /// Current exponent.
    pub fn exponent(&self) -> (e: i32)
        ensures
            e == self.spec_exponent(),
    {
        self.exponent
    }

    /// Current angle in phase units.
    pub fn angle(&self) -> (a: u32)
        ensures
            a == self.spec_angle(),
    {
        self.angle
    }
}

} // verus!
