//! Band reduction: partition a perceptual curve into contiguous fractional
//! slices and aggregate each slice to its arithmetic mean amplitude.

use vstd::prelude::*;
use vstd::arithmetic::div_mod::{
    lemma_basic_div, lemma_div_is_ordered, lemma_div_multiples_vanish, lemma_div_pos_is_pos,
    lemma_div_multiples_vanish_quotient,
};

verus! {

/// A band: the fractional slice `[start_num/den, end_num/den)` of a curve's
/// index range.
#[derive(Clone, Copy)]
pub struct Band {
    pub start_num: u32,
    pub end_num: u32,
    pub den: u32,
}

impl Band {
    /// Fractions are ordered and lie within [0, 1].
    pub open spec fn wf(&self) -> bool {
        &&& 0 < self.den
        &&& self.start_num <= self.end_num <= self.den
    }
}

/// First index of the band's slice of a curve of length `l`.
pub open spec fn spec_band_lo(b: Band, l: int) -> int {
    b.start_num * l / (b.den as int)
}

/// One-past-last index of the band's slice of a curve of length `l`.
pub open spec fn spec_band_hi(b: Band, l: int) -> int {
    b.end_num * l / (b.den as int)
}

/// How many curve entries the band covers.
pub open spec fn spec_band_count(b: Band, l: int) -> int {
    spec_band_hi(b, l) - spec_band_lo(b, l)
}

/// Sum of the amplitudes of curve entries `from .. to`.
pub open spec fn spec_sum_amps(c: Seq<(u64, u64)>, from: int, to: int) -> int
    decreases to - from,
{
    if to <= from {
        0
    } else {
        spec_sum_amps(c, from, to - 1) + c[to - 1].1
    }
}

/// A band's energy: the mean amplitude over its slice, zero for an empty
/// slice.
pub open spec fn spec_band_energy(c: Seq<(u64, u64)>, b: Band) -> int {
    let lo = spec_band_lo(b, c.len() as int);
    let hi = spec_band_hi(b, c.len() as int);
    if hi <= lo {
        0
    } else {
        spec_sum_amps(c, lo, hi) / (hi - lo)
    }
}

/// A fraction of a non-negative length stays within it: for `num <= den`,
/// `0 <= num * l / den <= l`.
pub proof fn lemma_frac_le(num: int, den: int, l: int)
    requires
        0 <= num <= den,
        0 < den,
        0 <= l,
    ensures
        0 <= num * l / den <= l,
{
    assert(0 <= num * l <= den * l) by (nonlinear_arith)
        requires 0 <= num <= den, 0 <= l;
    lemma_div_pos_is_pos(num * l, den);
    lemma_div_is_ordered(num * l, den * l, den);
    lemma_div_multiples_vanish(l, den);
}

/// Equal fractions resolve to equal indices: if `a/b == c/d` as rationals,
/// then `a*l/b == c*l/d`.
proof fn lemma_equal_fractions_equal_floor(a: int, b: int, c: int, d: int, l: int)
    requires
        0 < b,
        0 < d,
        0 <= a,
        0 <= c,
        0 <= l,
        a * d == c * b,
    ensures
        a * l / b == c * l / d,
{
    lemma_div_multiples_vanish_quotient(d, a * l, b);
    lemma_div_multiples_vanish_quotient(b, c * l, d);
    assert(d * (a * l) == b * (c * l)) by (nonlinear_arith)
        requires a * d == c * b;
    assert(d * b == b * d) by (nonlinear_arith);
}

/// Mean of a slice: used by `reduce` to keep the accumulator in range.
proof fn lemma_sum_amps_bounds(c: Seq<(u64, u64)>, from: int, to: int)
    requires
        0 <= from <= to <= c.len(),
    ensures
        0 <= spec_sum_amps(c, from, to) <= (to - from) * 0xffff_ffff_ffff_ffff,
    decreases to - from,
{
    if to > from {
        lemma_sum_amps_bounds(c, from, to - 1);
    }
}

/// The amplitudes of a slice of an all-zero curve sum to zero.
proof fn lemma_zero_sum(c: Seq<(u64, u64)>, from: int, to: int)
    requires
        0 <= from,
        to <= c.len(),
        forall|i: int| 0 <= i < c.len() ==> (#[trigger] c[i]).1 == 0,
    ensures
        spec_sum_amps(c, from, to) == 0,
    decreases to - from,
{
    if to > from {
        lemma_zero_sum(c, from, to - 1);
    }
}

/// Every band energy of an all-zero curve is zero.
pub proof fn lemma_zero_curve_zero_energy(c: Seq<(u64, u64)>, b: Band)
    requires
        b.wf(),
        forall|i: int| 0 <= i < c.len() ==> (#[trigger] c[i]).1 == 0,
    ensures
        spec_band_energy(c, b) == 0,
{
    let l = c.len() as int;
    lemma_frac_le(b.start_num as int, b.den as int, l);
    lemma_frac_le(b.end_num as int, b.den as int, l);
    let lo = spec_band_lo(b, l);
    let hi = spec_band_hi(b, l);
    if hi > lo {
        lemma_zero_sum(c, lo, hi);
        lemma_basic_div(0, hi - lo);
    }
}

/// Sum of the first `upto` bands' slice widths.
pub open spec fn spec_counts_sum(bands: Seq<Band>, l: int, upto: int) -> int
    decreases upto,
{
    if upto <= 0 {
        0
    } else {
        spec_counts_sum(bands, l, upto - 1) + spec_band_count(bands[upto - 1], l)
    }
}

/// Whether a sequence of bands partitions [0, 1) exactly: the first starts
/// at zero, the last ends at one, and each band starts where the previous
/// one ends (as rationals).
pub open spec fn spec_bands_partition(bands: Seq<Band>) -> bool {
    &&& bands.len() > 0
    &&& (forall|i: int| 0 <= i < bands.len() ==> (#[trigger] bands[i]).wf())
    &&& bands[0].start_num == 0
    &&& bands[bands.len() - 1].end_num == bands[bands.len() - 1].den
    &&& (forall|i: int| 0 <= i && i + 1 < bands.len()
        ==> (#[trigger] bands[i + 1].start_num) * bands[i].den == bands[i].end_num * bands[i + 1].den)
}

/// Band fractions that partition [0, 1) exactly cover a curve of length `l`
/// with no gap and no overlap: every slice is non-empty-or-forward, adjacent
/// slices share their boundary index, and the slice widths sum to exactly
/// `l`.
pub proof fn lemma_bands_partition_cover(bands: Seq<Band>, l: int)
    requires
        spec_bands_partition(bands),
        0 <= l,
    ensures
        forall|i: int| 0 <= i < bands.len() ==> #[trigger] spec_band_count(bands[i], l) >= 0,
        forall|i: int| 0 <= i && i + 1 < bands.len()
            ==> #[trigger] spec_band_lo(bands[i + 1], l) == spec_band_hi(bands[i], l),
        spec_counts_sum(bands, l, bands.len() as int) == l,
{
    assert forall|i: int| 0 <= i < bands.len() implies #[trigger] spec_band_count(bands[i], l) >= 0 by {
        let b = bands[i];
        assert(b.start_num * l <= b.end_num * l) by (nonlinear_arith)
            requires b.start_num <= b.end_num, 0 <= l, 0 <= b.start_num;
        lemma_div_is_ordered(b.start_num * l, b.end_num * l, b.den as int);
    }
    assert forall|i: int| 0 <= i && i + 1 < bands.len()
        implies #[trigger] spec_band_lo(bands[i + 1], l) == spec_band_hi(bands[i], l) by {
        lemma_equal_fractions_equal_floor(
            bands[i + 1].start_num as int, bands[i + 1].den as int,
            bands[i].end_num as int, bands[i].den as int,
            l,
        );
    }
    lemma_counts_telescope(bands, l, bands.len() as int);
    let last = bands[bands.len() - 1];
    lemma_div_multiples_vanish(l, last.den as int);
    assert(last.den * l == (last.den as int) * l);
    assert(spec_band_hi(last, l) == (last.den as int) * l / (last.den as int));
}

/// The partial sums of slice widths telescope to the end index of the last
/// band counted.
proof fn lemma_counts_telescope(bands: Seq<Band>, l: int, upto: int)
    requires
        spec_bands_partition(bands),
        0 <= l,
        0 < upto <= bands.len(),
    ensures
        spec_counts_sum(bands, l, upto) == spec_band_hi(bands[upto - 1], l),
    decreases upto,
{
    if upto == 1 {
        let b0 = bands[0];
        assert(b0.wf());
        assert((b0.start_num as int) * l == 0);
        vstd::arithmetic::div_mod::lemma_basic_div(0, b0.den as int);
        assert(spec_band_lo(b0, l) == 0);
        assert(spec_counts_sum(bands, l, 0) == 0);
        assert(spec_counts_sum(bands, l, 1) == spec_band_count(b0, l));
    } else {
        lemma_counts_telescope(bands, l, upto - 1);
        let i = upto - 2;
        assert(bands[i + 1].start_num * bands[i].den == bands[i].end_num * bands[i + 1].den);
        lemma_equal_fractions_equal_floor(
            bands[upto - 1].start_num as int, bands[upto - 1].den as int,
            bands[upto - 2].end_num as int, bands[upto - 2].den as int,
            l,
        );
    }
}

/// Reduce a curve to one mean amplitude per band. Empty slices yield zero.
pub fn reduce(curve: &Vec<(u64, u64)>, bands: &Vec<Band>) -> (r: Vec<u64>)
    requires
        curve@.len() <= 0xffff_ffff,
        forall|i: int| 0 <= i < bands@.len() ==> (#[trigger] bands@[i]).wf(),
    ensures
        r@.len() == bands@.len(),
        forall|i: int| 0 <= i < bands@.len() ==> #[trigger] r@[i] == spec_band_energy(curve@, bands@[i]),
{
    let l = curve.len();
    let mut out: Vec<u64> = Vec::new();
    let mut bi: usize = 0;
    while bi < bands.len()
        invariant
            curve@.len() == l <= 0xffff_ffff,
            forall|i: int| 0 <= i < bands@.len() ==> (#[trigger] bands@[i]).wf(),
            bi <= bands@.len(),
            out@.len() == bi,
            forall|i: int| 0 <= i < bi ==> #[trigger] out@[i] == spec_band_energy(curve@, bands@[i]),
        decreases bands@.len() - bi,
    {
        let b = &bands[bi];
        proof {
            lemma_frac_le(b.start_num as int, b.den as int, l as int);
            lemma_frac_le(b.end_num as int, b.den as int, l as int);
            assert((b.start_num as int) * (l as int) <= 4294967295int * 4294967295)
                by (nonlinear_arith)
                requires 0 <= b.start_num as int <= 4294967295, 0 <= l as int <= 4294967295;
            assert((b.end_num as int) * (l as int) <= 4294967295int * 4294967295)
                by (nonlinear_arith)
                requires 0 <= b.end_num as int <= 4294967295, 0 <= l as int <= 4294967295;
        }
        let lo: usize = (((b.start_num as u64) * (l as u64)) / (b.den as u64)) as usize;
        let hi: usize = (((b.end_num as u64) * (l as u64)) / (b.den as u64)) as usize;
        if hi <= lo {
            out.push(0);
        } else {
            let mut sum: u128 = 0;
            let mut idx: usize = lo;
            proof {
                lemma_sum_amps_bounds(curve@, lo as int, hi as int);
            }
            while idx < hi
                invariant
                    lo <= idx <= hi <= curve@.len(),
                    sum == spec_sum_amps(curve@, lo as int, idx as int),
                    sum <= (idx - lo) * 0xffff_ffff_ffff_ffff,
                decreases hi - idx,
            {
                sum = sum + curve[idx].1 as u128;
                idx = idx + 1;
            }
            let cnt: u128 = (hi - lo) as u128;
            proof {
                lemma_div_pos_is_pos(sum as int, cnt as int);
                lemma_div_is_ordered(sum as int, (cnt as int) * 0xffff_ffff_ffff_ffff, cnt as int);
                lemma_div_multiples_vanish(0xffff_ffff_ffff_ffff, cnt as int);
            }
            let mean: u64 = (sum / cnt) as u64;
            out.push(mean);
        }
        bi = bi + 1;
    }
    out
}

} // verus!
