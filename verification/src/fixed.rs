//! Fixed-point arithmetic helpers: integer square root and a Q15 sine /
//! cosine approximation, the numeric base of the spectral analyzer and the
//! fractal generator.

use vstd::prelude::*;
use vstd::arithmetic::div_mod::{lemma_div_is_ordered, lemma_div_multiples_vanish, lemma_div_pos_is_pos};

verus! {

/// One full turn of phase, i.e. 2*pi, in the fixed-point phase unit.
pub const TURN: u32 = 65536;

/// Half a turn of phase, i.e. pi.
pub const HALF_TURN: u32 = 32768;

/// A quarter turn of phase, i.e. pi/2.
pub const QUARTER_TURN: u32 = 16384;

/// Rational approximation of sin(pi * h / 32768) in Q15, valid on the first
/// half turn (h in 0..=32768), where the sine is non-negative.
pub open spec fn spec_half_sin(h: int) -> int {
    (16 * (h * (32768 - h)) * 32768) / (5368709120 - 4 * (h * (32768 - h)))
}

/// Q15 sine of a phase measured in 1/65536 of a turn.
pub open spec fn spec_sin_q15(p: int) -> int {
    if p < 32768 {
        spec_half_sin(p)
    } else {
        -spec_half_sin(p - 32768)
    }
}

/// Q15 cosine of a phase measured in 1/65536 of a turn.
pub open spec fn spec_cos_q15(p: int) -> int {
    spec_sin_q15((p + 16384) % 65536)
}

/// The half-turn sine approximation stays within [0, 32768] (Q15 for [0, 1]).
pub proof fn lemma_half_sin_bounds(h: int)
    requires
        0 <= h <= 32768,
    ensures
        0 <= spec_half_sin(h) <= 32768,
{
    let t = h * (32768 - h);
    assert(0 <= t <= 268435456) by (nonlinear_arith)
        requires 0 <= h <= 32768, t == h * (32768 - h);
    let num = 16 * t * 32768;
    let den = 5368709120 - 4 * t;
    assert(den >= 4294967296);
    assert(num >= 0) by (nonlinear_arith)
        requires t >= 0, num == 16 * t * 32768;
    lemma_div_pos_is_pos(num, den);
    assert(num <= 32768 * den) by (nonlinear_arith)
        requires 0 <= t <= 268435456, num == 16 * t * 32768, den == 5368709120 - 4 * t;
    lemma_div_is_ordered(num, 32768 * den, den);
    lemma_div_multiples_vanish(32768, den);
}

/// Q15 sine values stay within [-32768, 32768].
pub proof fn lemma_sin_q15_bounds(p: int)
    requires
        0 <= p < 65536,
    ensures
        -32768 <= spec_sin_q15(p) <= 32768,
{
    if p < 32768 {
        lemma_half_sin_bounds(p);
    } else {
        lemma_half_sin_bounds(p - 32768);
    }
}

/// Q15 sine of a phase `p` measured in 1/65536 of a turn: sin(2*pi*p/65536),
/// by a rational (Bhaskara-style) approximation, exact at multiples of a
/// quarter turn.
pub fn sin_q15(p: u32) -> (r: i32)
    requires
        p < TURN,
    ensures
        r == spec_sin_q15(p as int),
        -32768 <= r <= 32768,
{
    proof {
        lemma_sin_q15_bounds(p as int);
    }
    if p < HALF_TURN {
        half_sin(p)
    } else {
        let s = half_sin(p - HALF_TURN);
        -s
    }
}

/// Q15 cosine of a phase `p` measured in 1/65536 of a turn.
pub fn cos_q15(p: u32) -> (r: i32)
    requires
        p < TURN,
    ensures
        r == spec_cos_q15(p as int),
        -32768 <= r <= 32768,
{
    sin_q15((p + QUARTER_TURN) % TURN)
}

fn half_sin(h: u32) -> (r: i32)
    requires
        h <= 32768,
    ensures
        r == spec_half_sin(h as int),
        0 <= r <= 32768,
{
    proof {
        lemma_half_sin_bounds(h as int);
        assert((h as int) * (32768 - h as int) <= 268435456) by (nonlinear_arith)
            requires 0 <= h as int <= 32768;
        assert((h as int) * (32768 - h as int) >= 0) by (nonlinear_arith)
            requires 0 <= h as int <= 32768;
    }
    let t: u64 = (h as u64) * ((32768 - h) as u64);
    let num: u64 = 16 * t;
    let den: u64 = 5368709120 - 4 * t;
    let r64: u64 = (num * 32768) / den;
    proof {
        assert(num * 32768 == 16 * (t as int) * 32768);
    }
    r64 as i32
}

/// Mathematical integer square root, defined by recursion so that every
/// contract can name the value itself.
pub open spec fn spec_isqrt(v: int) -> int
    decreases v,
{
    if v <= 0 {
        0
    } else {
        let p = spec_isqrt(v - 1);
        if (p + 1) * (p + 1) <= v {
            p + 1
        } else {
            p
        }
    }
}

/// `spec_isqrt(v)` is the largest integer whose square is at most `v`.
pub proof fn lemma_isqrt_bounds(v: int)
    requires
        v >= 0,
    ensures
        0 <= spec_isqrt(v),
        spec_isqrt(v) * spec_isqrt(v) <= v,
        v < (spec_isqrt(v) + 1) * (spec_isqrt(v) + 1),
    decreases v,
{
    if v == 0 {
    } else {
        lemma_isqrt_bounds(v - 1);
        let p = spec_isqrt(v - 1);
        if (p + 1) * (p + 1) <= v {
            assert((p + 2) * (p + 2) > v) by (nonlinear_arith)
                requires p >= 0, v - 1 < (p + 1) * (p + 1);
        }
    }
}

/// Any `r` with `r * r <= v < (r + 1) * (r + 1)` is `spec_isqrt(v)`.
pub proof fn lemma_isqrt_unique(v: int, r: int)
    requires
        v >= 0,
        r >= 0,
        r * r <= v,
        v < (r + 1) * (r + 1),
    ensures
        r == spec_isqrt(v),
{
    lemma_isqrt_bounds(v);
    let s = spec_isqrt(v);
    assert(r == s) by (nonlinear_arith)
        requires
            r >= 0, s >= 0,
            r * r <= v, v < (r + 1) * (r + 1),
            s * s <= v, v < (s + 1) * (s + 1);
}

/// Integer square root: the largest `r` with `r * r <= v`.
pub fn isqrt(v: u128) -> (r: u64)
    ensures
        r == spec_isqrt(v as int),
        r * r <= v,
        v < (r + 1) * (r + 1),
{
    let mut lo: u128 = 0;
    let mut hi: u128 = 0x1_0000_0000_0000_0000;
    proof {
        assert(hi as int == 4294967296 * 4294967296);
        assert((hi as int) * (hi as int) > v as int) by (nonlinear_arith)
            requires
                hi as int == 4294967296 * 4294967296,
                v as int <= (4294967296 * 4294967296) * (4294967296 * 4294967296) - 1;
    }
    while lo + 1 < hi
        invariant
            lo < hi,
            hi <= 0x1_0000_0000_0000_0000,
            (lo as int) * (lo as int) <= v as int,
            (hi as int) * (hi as int) > v as int,
        decreases hi - lo,
    {
        let mid: u128 = lo + (hi - lo) / 2;
        proof {
            assert(4294967296 * 4294967296 == 0x1_0000_0000_0000_0000);
            assert((4294967296 * 4294967296) * (4294967296 * 4294967296) - 1 == u128::MAX);
            assert((mid as int) * (mid as int) < (4294967296 * 4294967296) * (4294967296 * 4294967296))
                by (nonlinear_arith)
                requires 0 <= mid as int, (mid as int) < 4294967296 * 4294967296;
        }
        let sq: u128 = mid * mid;
        if sq <= v {
            lo = mid;
        } else {
            hi = mid;
        }
    }
    proof {
        lemma_isqrt_unique(v as int, lo as int);
    }
    lo as u64
}

/// Truncating division by 32768 (a Q15 scale-down), defined on the sign
/// split so that it matches machine semantics on negatives.
pub open spec fn spec_shr15(x: int) -> int {
    if x >= 0 {
        x / 32768
    } else {
        -((-x) / 32768)
    }
}

/// Truncating division by 65536 (a Q16 scale-down).
pub open spec fn spec_shr16(x: int) -> int {
    if x >= 0 {
        x / 65536
    } else {
        -((-x) / 65536)
    }
}

/// Magnitude and sign of an integer product, stated so that the
/// sign-split executable multiplies can be related to the mathematical one.
pub proof fn lemma_mul_magnitude(a: int, b: int)
    ensures
        (if a < 0 { -a } else { a }) * (if b < 0 { -b } else { b })
            == (if a * b < 0 { -(a * b) } else { a * b }),
        ((a < 0) != (b < 0)) ==> a * b <= 0,
        !((a < 0) != (b < 0)) ==> a * b >= 0,
{
    assert((if a < 0 { -a } else { a }) * (if b < 0 { -b } else { b })
        == (if a * b < 0 { -(a * b) } else { a * b })
        && (((a < 0) != (b < 0)) ==> a * b <= 0)
        && (!((a < 0) != (b < 0)) ==> a * b >= 0)) by (nonlinear_arith);
}

/// Truncating division of a non-negative integer by a positive one shrinks
/// it no further than the exact quotient: `(v / d) * d <= v` and division is
/// monotone in the numerator.
proof fn lemma_trunc_div_le(v: int, d: int)
    requires
        v >= 0,
        d > 0,
    ensures
        (v / d) * d <= v,
        v / d >= 0,
{
    vstd::arithmetic::div_mod::lemma_fundamental_div_mod(v, d);
    lemma_div_pos_is_pos(v, d);
    assert((v / d) * d <= v) by (nonlinear_arith)
        requires v == d * (v / d) + v % d, v % d >= 0;
}

/// Product of two Q15-scaled values, scaled back down: `a * b / 32768`,
/// truncated toward zero.
pub fn mul_shr15(a: i64, b: i64) -> (r: i64)
    requires
        -0x8000_0000 <= a <= 0x8000_0000,
        -0x8000_0000 <= b <= 0x8000_0000,
    ensures
        r == spec_shr15(a * b),
        (if r < 0 { -(r as int) } else { r as int }) * 32768
            <= (if a * b < 0 { -(a as int * b as int) } else { a as int * b as int }),
{
    proof {
        lemma_mul_magnitude(a as int, b as int);
        assert(-(0x8000_0000int * 0x8000_0000int) <= a * b <= 0x8000_0000int * 0x8000_0000int)
            by (nonlinear_arith)
            requires -0x8000_0000 <= a <= 0x8000_0000, -0x8000_0000 <= b <= 0x8000_0000;
        lemma_trunc_div_le(if a * b < 0 { -(a as int * b as int) } else { a as int * b as int }, 32768);
    }
    let neg = (a < 0) != (b < 0);
    let am: u64 = if a < 0 { (-a) as u64 } else { a as u64 };
    let bm: u64 = if b < 0 { (-b) as u64 } else { b as u64 };
    let m: u64 = (am * bm) / 32768;
    if neg {
        -(m as i64)
    } else {
        m as i64
    }
}

/// Product of two Q16-scaled values, scaled back down: `a * b / 65536`,
/// truncated toward zero. The product must stay within `i64` range once
/// scaled down, which the fractal iteration guarantees by bounding its
/// operands.
pub fn mul_shr16(a: i64, b: i64) -> (r: i64)
    requires
        -(0x7fff_ffff_ffff_ffffint * 65536) <= (a as int) * (b as int),
        (a as int) * (b as int) <= 0x7fff_ffff_ffff_ffffint * 65536,
    ensures
        r == spec_shr16(a * b),
        (if r < 0 { -(r as int) } else { r as int }) * 65536
            <= (if a * b < 0 { -(a as int * b as int) } else { a as int * b as int }),
{
    proof {
        lemma_mul_magnitude(a as int, b as int);
        lemma_trunc_div_le(if a * b < 0 { -(a as int * b as int) } else { a as int * b as int }, 65536);
        lemma_div_is_ordered(
            if a * b < 0 { -(a as int * b as int) } else { a as int * b as int },
            0x7fff_ffff_ffff_ffffint * 65536,
            65536,
        );
        lemma_div_multiples_vanish(0x7fff_ffff_ffff_ffffint, 65536);
    }
    let neg = (a < 0) != (b < 0);
    let am: u128 = if a < 0 { (-(a as i128)) as u128 } else { a as u128 };
    let bm: u128 = if b < 0 { (-(b as i128)) as u128 } else { b as u128 };
    proof {
        assert((am as int) * (bm as int) < (4294967296 * 4294967296) * (4294967296 * 4294967296))
            by (nonlinear_arith)
            requires
                0 <= am as int, (am as int) <= 4294967296int * 2147483648,
                0 <= bm as int, (bm as int) <= 4294967296int * 2147483648;
    }
    let m: u128 = (am * bm) / 65536;
    if neg {
        -(m as i64)
    } else {
        m as i64
    }
}

} // verus!
