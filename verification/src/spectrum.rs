//! Windowed spectral analysis in fixed point.
//!
//! `SpectrumAnalyzer::analyze` applies a Hann apodizing window to a block of
//! Q15 samples, correlates it against Q15 sine/cosine tables (a discrete
//! Fourier transform), scales the squared magnitude by the window length and
//! keeps only the bins whose frequency falls in the configured inclusive
//! band. `spectrum_to_perceptual` then warps each frequency through a
//! strictly monotonic, mel-like piecewise-linear map.

use vstd::prelude::*;
use vstd::arithmetic::div_mod::{
    lemma_div_is_ordered, lemma_div_multiples_vanish, lemma_div_pos_is_pos, lemma_mod_bound,
};
use crate::fixed::{
    cos_q15, sin_q15, isqrt, mul_shr15,
    spec_cos_q15, spec_sin_q15, spec_isqrt, spec_shr15,
    lemma_sin_q15_bounds,
};

verus! {

/// Rejected configuration at construction time.
#[derive(Clone, Copy, Debug, PartialEq, Eq, Structural)]
pub enum SetupError {
    /// A zero-length analysis window cannot be transformed.
    ZeroWindow,
    /// The window is longer than the fixed-point accumulators allow.
    WindowTooLong,
    /// A zero sample rate leaves bin frequencies undefined.
    ZeroSampleRate,
    /// The lower frequency limit lies above the upper one.
    EmptyFrequencyRange,
}

/// Rejected per-call input.
#[derive(Clone, Copy, Debug, PartialEq, Eq, Structural)]
pub enum AnalysisError {
    /// The block handed to `analyze` was not exactly the window length.
    WrongLength,
}

/// Frequency of DFT bin `k` in Hz: `k * rate / n`.
pub open spec fn spec_bin_freq(k: int, rate: int, n: int) -> int {
    k * rate / n
}

/// Whether bin `k` survives the configured inclusive frequency limit.
pub open spec fn spec_bin_selected(k: int, n: int, rate: int, lo: int, hi: int) -> bool {
    lo <= spec_bin_freq(k, rate, n) <= hi
}

/// The selected bin indices below `upto`, ascending.
pub open spec fn spec_bins(n: int, rate: int, lo: int, hi: int, upto: int) -> Seq<int>
    decreases upto,
{
    if upto <= 0 {
        Seq::empty()
    } else {
        let pre = spec_bins(n, rate, lo, hi, upto - 1);
        if spec_bin_selected(upto - 1, n, rate, lo, hi) {
            pre.push(upto - 1)
        } else {
            pre
        }
    }
}

/// Q15 Hann window coefficient at index `i` of an `n`-point window:
/// `(1 - cos(2*pi*i/n)) / 2`.
pub open spec fn spec_hann(i: int, n: int) -> int {
    (32768 - spec_cos_q15(i * 65536 / n % 65536)) / 2
}

/// Sample `i` after apodization, still Q15.
pub open spec fn spec_windowed(s: Seq<i32>, i: int, n: int) -> int {
    spec_shr15(s[i] * spec_hann(i, n))
}

/// Phase of the correlation kernel for bin `k` at sample `i`, in 1/65536
/// of a turn: `2*pi*k*i/n` reduced to one turn.
pub open spec fn spec_phase(k: int, i: int, n: int) -> int {
    ((k * i) % n) * 65536 / n
}

/// Real part of the DFT correlation for bin `k`, summed over the first
/// `upto` samples.
pub open spec fn spec_dft_re(s: Seq<i32>, k: int, n: int, upto: int) -> int
    decreases upto,
{
    if upto <= 0 {
        0
    } else {
        spec_dft_re(s, k, n, upto - 1)
            + spec_windowed(s, upto - 1, n) * spec_cos_q15(spec_phase(k, upto - 1, n))
    }
}

/// Imaginary part of the DFT correlation for bin `k`, summed over the first
/// `upto` samples.
pub open spec fn spec_dft_im(s: Seq<i32>, k: int, n: int, upto: int) -> int
    decreases upto,
{
    if upto <= 0 {
        0
    } else {
        spec_dft_im(s, k, n, upto - 1)
            + spec_windowed(s, upto - 1, n) * spec_sin_q15(spec_phase(k, upto - 1, n))
    }
}

/// Squared magnitude of bin `k` scaled down by the window length `n`, so
/// that the magnitude itself carries the 1/sqrt(n) normalization.
pub open spec fn spec_radicand(s: Seq<i32>, k: int, n: int) -> int {
    (spec_dft_re(s, k, n, n) * spec_dft_re(s, k, n, n)
        + spec_dft_im(s, k, n, n) * spec_dft_im(s, k, n, n)) / n
}

/// Magnitude of bin `k`: the normalized correlation's length.
pub open spec fn spec_mag(s: Seq<i32>, k: int, n: int) -> int {
    spec_isqrt(spec_radicand(s, k, n))
}

/// The spectrum of window `s`: one `(frequency, magnitude)` pair per
/// selected bin, frequencies ascending.
pub open spec fn spec_spectrum_upto(s: Seq<i32>, n: int, rate: int, lo: int, hi: int, upto: int) -> Seq<(u32, u64)> {
    spec_bins(n, rate, lo, hi, upto).map(
        |j: int, k: int| (spec_bin_freq(k, rate, n) as u32, spec_mag(s, k, n) as u64),
    )
}

/// The full spectrum: bins `0 ..= n/2`.
pub open spec fn spec_spectrum(s: Seq<i32>, n: int, rate: int, lo: int, hi: int) -> Seq<(u32, u64)> {
    spec_spectrum_upto(s, n, rate, lo, hi, n / 2 + 1)
}

/// Bin frequencies never exceed the sample rate.
proof fn lemma_bin_freq_bound(k: int, rate: int, n: int)
    requires
        0 <= k <= n,
        0 < n,
        0 <= rate,
    ensures
        0 <= spec_bin_freq(k, rate, n) <= rate,
{
    assert(k * rate <= n * rate) by (nonlinear_arith)
        requires 0 <= k <= n, 0 <= rate;
    assert(k * rate >= 0) by (nonlinear_arith)
        requires 0 <= k, 0 <= rate;
    lemma_div_pos_is_pos(k * rate, n);
    lemma_div_is_ordered(k * rate, n * rate, n);
    lemma_div_multiples_vanish(rate, n);
}

/// Scaling a residue below `n` up by `m` and dividing by `n` stays below `m`.
proof fn lemma_scale_div_lt(a: int, n: int, m: int)
    requires
        0 <= a < n,
        0 < m,
    ensures
        0 <= a * m / n < m,
{
    assert(a * m >= 0) by (nonlinear_arith)
        requires 0 <= a, 0 < m;
    lemma_div_pos_is_pos(a * m, n);
    vstd::arithmetic::div_mod::lemma_fundamental_div_mod(a * m, n);
    let q = a * m / n;
    let r = (a * m) % n;
    lemma_mod_bound(a * m, n);
    assert(q < m) by (nonlinear_arith)
        requires a * m == n * q + r, 0 <= r < n, a < n, 0 < m, 0 <= a, q >= 0;
}

/// The Hann coefficient lies in [0, 32768].
proof fn lemma_hann_bounds(i: int, n: int)
    requires
        0 <= i,
        0 < n,
    ensures
        0 <= spec_hann(i, n) <= 32768,
{
    assert(i * 65536 >= 0) by (nonlinear_arith)
        requires 0 <= i;
    lemma_div_pos_is_pos(i * 65536, n);
    lemma_mod_bound(i * 65536 / n, 65536);
    lemma_sin_q15_bounds((i * 65536 / n % 65536 + 16384) % 65536);
    lemma_mod_bound(i * 65536 / n % 65536 + 16384, 65536);
}

/// An apodized Q15 sample stays in Q15 range.
proof fn lemma_windowed_bounds(s: Seq<i32>, i: int, n: int)
    requires
        0 <= i < s.len(),
        0 < n,
        -32768 <= s[i] <= 32768,
    ensures
        -32768 <= spec_windowed(s, i, n) <= 32768,
{
    lemma_hann_bounds(i, n);
    let x = s[i] * spec_hann(i, n);
    assert(-(32768 * 32768) <= x <= 32768 * 32768) by (nonlinear_arith)
        requires -32768 <= s[i] <= 32768, 0 <= spec_hann(i, n) <= 32768, x == s[i] * spec_hann(i, n);
    if x >= 0 {
        lemma_div_pos_is_pos(x, 32768);
        lemma_div_is_ordered(x, 32768int * 32768, 32768);
        lemma_div_multiples_vanish(32768, 32768);
    } else {
        lemma_div_pos_is_pos(-x, 32768);
        lemma_div_is_ordered(-x, 32768int * 32768, 32768);
        lemma_div_multiples_vanish(32768, 32768);
    }
}

/// Analyzer configuration: window length, sample rate, inclusive frequency
/// band.
pub struct SpectrumAnalyzer {
    fft_len: usize,
    sample_rate: u32,
    freq_lo: u32,
    freq_hi: u32,
}

impl SpectrumAnalyzer {
    /// Window length `n`.
    pub closed spec fn spec_fft_len(&self) -> int {
        self.fft_len as int
    }

    /// Configured sample rate in Hz.
    pub closed spec fn spec_sample_rate(&self) -> int {
        self.sample_rate as int
    }

    /// Lower inclusive frequency limit in Hz.
    pub closed spec fn spec_freq_lo(&self) -> int {
        self.freq_lo as int
    }

    /// Upper inclusive frequency limit in Hz.
    pub closed spec fn spec_freq_hi(&self) -> int {
        self.freq_hi as int
    }

    /// Valid configuration: non-degenerate window that the 64-bit
    /// accumulators can sum, a positive sample rate, an ordered band.
    pub closed spec fn wf(&self) -> bool {
        &&& 0 < self.fft_len <= 32768
        &&& self.sample_rate > 0
        &&& self.freq_lo <= self.freq_hi
    }

    /// The spectrum this analyzer assigns to window `s`.
    pub open spec fn spec_analyze(&self, s: Seq<i32>) -> Seq<(u32, u64)> {
        spec_spectrum(s, self.spec_fft_len(), self.spec_sample_rate(), self.spec_freq_lo(), self.spec_freq_hi())
    }

    /// Build an analyzer; degenerate configurations are rejected rather
    /// than deferred to per-call failures.
    pub fn new(fft_len: usize, sample_rate: u32, freq_lo: u32, freq_hi: u32) -> (r: Result<Self, SetupError>)
        ensures
            match r {
                Ok(a) => {
                    &&& 0 < fft_len <= 32768
                    &&& sample_rate > 0
                    &&& freq_lo <= freq_hi
                    &&& a.wf()
                    &&& a.spec_fft_len() == fft_len
                    &&& a.spec_sample_rate() == sample_rate
                    &&& a.spec_freq_lo() == freq_lo
                    &&& a.spec_freq_hi() == freq_hi
                },
                Err(e) => e == (if fft_len == 0 {
                    SetupError::ZeroWindow
                } else if fft_len > 32768 {
                    SetupError::WindowTooLong
                } else if sample_rate == 0 {
                    SetupError::ZeroSampleRate
                } else {
                    SetupError::EmptyFrequencyRange
                }) && !(0 < fft_len <= 32768 && sample_rate > 0 && freq_lo <= freq_hi),
            },
    {
        if fft_len == 0 {
            Err(SetupError::ZeroWindow)
        } else if fft_len > 32768 {
            Err(SetupError::WindowTooLong)
        } else if sample_rate == 0 {
            Err(SetupError::ZeroSampleRate)
        } else if freq_lo > freq_hi {
            Err(SetupError::EmptyFrequencyRange)
        } else {
            Ok(SpectrumAnalyzer { fft_len, sample_rate, freq_lo, freq_hi })
        }
    }

    /// Window length.
    pub fn fft_len(&self) -> (n: usize)
        ensures
            n == self.spec_fft_len(),
    {
        self.fft_len
    }

    /// Analyze one window of Q15 samples: Hann-apodize, correlate against
    /// each bin's quadrature kernels, keep the bins inside the frequency
    /// band. Fails exactly when the block length is not the window length.
    pub fn analyze(&self, window: &Vec<i32>) -> (r: Result<Vec<(u32, u64)>, AnalysisError>)
        requires
            self.wf(),
            forall|i: int| 0 <= i < window@.len() ==> -32768 <= #[trigger] window@[i] <= 32768,
        ensures
            match r {
                Ok(sp) => window@.len() == self.spec_fft_len() && sp@ == self.spec_analyze(window@),
                Err(e) => window@.len() != self.spec_fft_len() && e == AnalysisError::WrongLength,
            },
    {
        if window.len() != self.fft_len {
            return Err(AnalysisError::WrongLength);
        }
        let n = self.fft_len;
        let mut ws: Vec<i64> = Vec::new();
        let mut i: usize = 0;
        while i < n
            invariant
                0 < n <= 32768,
                i <= n,
                window@.len() == n,
                forall|j: int| 0 <= j < window@.len() ==> -32768 <= #[trigger] window@[j] <= 32768,
                ws@.len() == i,
                forall|j: int| 0 <= j < i ==> #[trigger] ws@[j] == spec_windowed(window@, j, n as int),
                forall|j: int| 0 <= j < i ==> -32768 <= #[trigger] ws@[j] <= 32768,
            decreases n - i,
        {
            proof {
                assert((i as int) * 65536 >= 0) by (nonlinear_arith)
                    requires 0 <= i as int;
                lemma_div_pos_is_pos((i as int) * 65536, n as int);
                lemma_mod_bound((i as int) * 65536 / (n as int), 65536);
            }
            let p: u32 = ((((i as u64) * 65536) / (n as u64)) % 65536) as u32;
            let c = cos_q15(p);
            let h: i64 = (((32768 - c) as u32) / 2) as i64;
            proof {
                lemma_hann_bounds(i as int, n as int);
                assert(h == spec_hann(i as int, n as int));
                lemma_windowed_bounds(window@, i as int, n as int);
            }
            let w = mul_shr15(window[i] as i64, h);
            ws.push(w);
            i = i + 1;
        }
        let mut out: Vec<(u32, u64)> = Vec::new();
        let mut k: usize = 0;
        while k <= n / 2
            invariant
                0 < n <= 32768,
                self.wf(),
                self.spec_fft_len() == n,
                window@.len() == n,
                k <= n / 2 + 1,
                ws@.len() == n,
                forall|j: int| 0 <= j < n ==> #[trigger] ws@[j] == spec_windowed(window@, j, n as int),
                forall|j: int| 0 <= j < n ==> -32768 <= #[trigger] ws@[j] <= 32768,
                out@ == spec_spectrum_upto(window@, n as int, self.spec_sample_rate(), self.spec_freq_lo(), self.spec_freq_hi(), k as int),
            decreases n / 2 + 1 - k,
        {
            proof {
                lemma_bin_freq_bound(k as int, self.spec_sample_rate(), n as int);
                assert((k as int) * (self.sample_rate as int) <= 32768int * 4294967295)
                    by (nonlinear_arith)
                    requires 0 <= k as int <= 32768, 0 <= self.sample_rate as int <= 4294967295;
            }
            let fq: u32 = (((k as u64) * (self.sample_rate as u64)) / (n as u64)) as u32;
            if self.freq_lo <= fq && fq <= self.freq_hi {
                let mut re: i64 = 0;
                let mut im: i64 = 0;
                let mut i2: usize = 0;
                while i2 < n
                    invariant
                        0 < n <= 32768,
                        i2 <= n,
                        k <= n,
                        window@.len() == n,
                        ws@.len() == n,
                        forall|j: int| 0 <= j < n ==> #[trigger] ws@[j] == spec_windowed(window@, j, n as int),
                        forall|j: int| 0 <= j < n ==> -32768 <= #[trigger] ws@[j] <= 32768,
                        re == spec_dft_re(window@, k as int, n as int, i2 as int),
                        im == spec_dft_im(window@, k as int, n as int, i2 as int),
                        -(i2 as int) * 0x4000_0000 <= re <= (i2 as int) * 0x4000_0000,
                        -(i2 as int) * 0x4000_0000 <= im <= (i2 as int) * 0x4000_0000,
                    decreases n - i2,
                {
                    proof {
                        assert((k as int) * (i2 as int) >= 0) by (nonlinear_arith)
                            requires 0 <= k as int, 0 <= i2 as int;
                        assert((k as int) * (i2 as int) <= 32768 * 32768) by (nonlinear_arith)
                            requires 0 <= k as int <= 32768, 0 <= i2 as int <= 32768;
                        lemma_mod_bound((k as int) * (i2 as int), n as int);
                        lemma_scale_div_lt(((k as int) * (i2 as int)) % (n as int), n as int, 65536);
                    }
                    let p: u32 = ((((k as u64) * (i2 as u64)) % (n as u64)) * 65536 / (n as u64)) as u32;
                    let c = cos_q15(p) as i64;
                    let s = sin_q15(p) as i64;
                    let wsi = ws[i2];
                    proof {
                        assert(-(0x4000_0000int) <= wsi * c && wsi * c <= 0x4000_0000int)
                            by (nonlinear_arith)
                            requires -32768 <= wsi <= 32768, -32768 <= c <= 32768;
                        assert(-(0x4000_0000int) <= wsi * s && wsi * s <= 0x4000_0000int)
                            by (nonlinear_arith)
                            requires -32768 <= wsi <= 32768, -32768 <= s <= 32768;
                    }
                    re = re + wsi * c;
                    im = im + wsi * s;
                    i2 = i2 + 1;
                }
                proof {
                    assert(re * re + im * im <= 2 * ((32768int * 0x4000_0000) * (32768int * 0x4000_0000))
                        && re * re >= 0 && im * im >= 0)
                        by (nonlinear_arith)
                        requires
                            -(32768int * 0x4000_0000) <= re <= 32768int * 0x4000_0000,
                            -(32768int * 0x4000_0000) <= im <= 32768int * 0x4000_0000;
                    lemma_div_pos_is_pos(re * re + im * im, n as int);
                }
                let rad: u128 = ((re as i128 * re as i128 + im as i128 * im as i128) as u128) / (n as u128);
                let mag: u64 = isqrt(rad);
                proof {
                    assert(rad as int == spec_radicand(window@, k as int, n as int));
                }
                out.push((fq, mag));
                proof {
                    assert(out@ =~= spec_spectrum_upto(window@, n as int, self.spec_sample_rate(), self.spec_freq_lo(), self.spec_freq_hi(), k as int + 1));
                }
            } else {
                proof {
                    assert(out@ =~= spec_spectrum_upto(window@, n as int, self.spec_sample_rate(), self.spec_freq_lo(), self.spec_freq_hi(), k as int + 1));
                }
            }
            k = k + 1;
        }
        Ok(out)
    }
}

/// Strictly monotonic mel-like warp from frequency in Hz to a perceptual
/// coordinate in thousandths of a mel, piecewise linear with breakpoints on
/// the mel curve and slopes that fall as frequency rises.
pub open spec fn spec_warp(f: int) -> int {
    if f <= 1000 {
        1000 * f
    } else if f <= 2000 {
        1000000 + 522 * (f - 1000)
    } else if f <= 4000 {
        1522000 + 312 * (f - 2000)
    } else if f <= 8000 {
        2146000 + 173 * (f - 4000)
    } else {
        2838000 + 127 * (f - 8000)
    }
}

/// The perceptual curve of a spectrum: each frequency warped, each
/// magnitude kept.
pub open spec fn spec_perceptual(s: Seq<(u32, u64)>) -> Seq<(u64, u64)> {
    s.map(|j: int, p: (u32, u64)| ((spec_warp(p.0 as int) as u64), p.1))
}

/// The warp is strictly increasing on non-negative frequencies.
pub proof fn lemma_warp_monotonic(f1: int, f2: int)
    requires
        0 <= f1 < f2,
    ensures
        spec_warp(f1) < spec_warp(f2),
{
}

/// The warp keeps non-negative frequencies within `u64` range.
pub proof fn lemma_warp_bounds(f: int)
    requires
        0 <= f <= 4294967295,
    ensures
        0 <= spec_warp(f) <= 1000000000000,
{
}

/// The perceptual warp preserves pair count and strict ascent of the
/// coordinate: a spectrum with strictly ascending frequencies maps to a
/// curve with strictly ascending perceptual bins.
pub proof fn lemma_perceptual_preserves_order(s: Seq<(u32, u64)>)
    requires
        forall|j: int| 0 <= j && j + 1 < s.len() ==> (#[trigger] s[j].0 as int) < (s[j + 1].0 as int),
    ensures
        spec_perceptual(s).len() == s.len(),
        forall|j: int| 0 <= j && j + 1 < s.len()
            ==> (#[trigger] spec_perceptual(s)[j].0 as int) < (spec_perceptual(s)[j + 1].0 as int),
{
    assert forall|j: int| 0 <= j && j + 1 < s.len()
        implies (#[trigger] spec_perceptual(s)[j].0 as int) < (spec_perceptual(s)[j + 1].0 as int) by {
        lemma_warp_monotonic(s[j].0 as int, s[j + 1].0 as int);
        lemma_warp_bounds(s[j].0 as int);
        lemma_warp_bounds(s[j + 1].0 as int);
    }
}

/// Warp one frequency (Hz) to its perceptual coordinate.
pub fn warp_frequency(f: u32) -> (r: u64)
    ensures
        r == spec_warp(f as int),
{
    proof {
        lemma_warp_bounds(f as int);
    }
    let fhz = f as u64;
    if fhz <= 1000 {
        1000 * fhz
    } else if fhz <= 2000 {
        1000000 + 522 * (fhz - 1000)
    } else if fhz <= 4000 {
        1522000 + 312 * (fhz - 2000)
    } else if fhz <= 8000 {
        2146000 + 173 * (fhz - 4000)
    } else {
        2838000 + 127 * (fhz - 8000)
    }
}

/// Warp a spectrum into a perceptual curve: pair count preserved, each
/// frequency replaced by its perceptual coordinate, magnitudes untouched.
pub fn spectrum_to_perceptual(sp: &Vec<(u32, u64)>) -> (r: Vec<(u64, u64)>)
    ensures
        r@ == spec_perceptual(sp@),
        r@.len() == sp@.len(),
{
    let mut out: Vec<(u64, u64)> = Vec::new();
    let mut i: usize = 0;
    while i < sp.len()
        invariant
            i <= sp@.len(),
            out@ == spec_perceptual(sp@.take(i as int)),
            out@.len() == i,
        decreases sp@.len() - i,
    {
        let (f, m) = sp[i];
        let w = warp_frequency(f);
        out.push((w, m));
        i = i + 1;
        proof {
            assert(out@ =~= spec_perceptual(sp@.take(i as int)));
        }
    }
    proof {
        assert(sp@.take(sp@.len() as int) =~= sp@);
    }
    out
}

/// Every windowed sample of an all-zero window is zero, so each correlation
/// sum, radicand and magnitude is zero: the spectrum of silence has all
/// magnitudes zero, whatever the window length and frequency band.
pub proof fn lemma_zero_window_zero_magnitudes(s: Seq<i32>, n: int, rate: int, lo: int, hi: int)
    requires
        0 < n <= s.len(),
        forall|i: int| 0 <= i < s.len() ==> #[trigger] s[i] == 0,
    ensures
        forall|j: int| 0 <= j < spec_spectrum(s, n, rate, lo, hi).len()
            ==> (#[trigger] spec_spectrum(s, n, rate, lo, hi)[j]).1 == 0,
{
    assert forall|j: int| 0 <= j < spec_spectrum(s, n, rate, lo, hi).len()
        implies (#[trigger] spec_spectrum(s, n, rate, lo, hi)[j]).1 == 0 by {
        let bins = spec_bins(n, rate, lo, hi, n / 2 + 1);
        lemma_bins_in_range(n, rate, lo, hi, n / 2 + 1);
        let k = bins[j];
        lemma_zero_dft(s, k, n, n);
        assert(spec_radicand(s, k, n) == 0);
        assert(spec_mag(s, k, n) == 0);
    }
}

/// What the analyzer's configuration invariant guarantees of its visible
/// parameters.
pub proof fn lemma_analyzer_wf_bounds(a: SpectrumAnalyzer)
    requires
        a.wf(),
    ensures
        0 < a.spec_fft_len() <= 32768,
        a.spec_sample_rate() > 0,
        a.spec_freq_lo() <= a.spec_freq_hi(),
{
}

/// There are never more selected bins than candidates, so a spectrum of an
/// `n`-point window holds at most `n/2 + 1` pairs.
pub proof fn lemma_spectrum_len(s: Seq<i32>, n: int, rate: int, lo: int, hi: int)
    requires
        n >= 0,
    ensures
        spec_spectrum(s, n, rate, lo, hi).len() <= n / 2 + 1,
{
    lemma_bins_len(n, rate, lo, hi, n / 2 + 1);
    assert(spec_spectrum(s, n, rate, lo, hi).len() == spec_bins(n, rate, lo, hi, n / 2 + 1).len());
}

proof fn lemma_bins_len(n: int, rate: int, lo: int, hi: int, upto: int)
    ensures
        spec_bins(n, rate, lo, hi, upto).len() <= if upto <= 0 { 0int } else { upto },
    decreases upto,
{
    if upto > 0 {
        lemma_bins_len(n, rate, lo, hi, upto - 1);
    }
}

/// Raising a non-negative numerator by at least the denominator raises the
/// quotient.
proof fn lemma_div_strict_increase(a: int, b: int, d: int)
    requires
        0 < d,
        0 <= a,
        a + d <= b,
    ensures
        a / d < b / d,
{
    vstd::arithmetic::div_mod::lemma_fundamental_div_mod(a, d);
    vstd::arithmetic::div_mod::lemma_fundamental_div_mod(b, d);
    lemma_mod_bound(a, d);
    lemma_mod_bound(b, d);
    assert(a / d < b / d) by (nonlinear_arith)
        requires
            a == d * (a / d) + a % d,
            b == d * (b / d) + b % d,
            0 <= a % d < d,
            0 <= b % d < d,
            a + d <= b,
            0 < d,
            0 <= a;
}

/// With at least one sample per Hz (`rate >= n`), distinct bins have
/// distinct frequencies.
proof fn lemma_bin_freq_strict(k1: int, k2: int, rate: int, n: int)
    requires
        0 < n <= rate,
        0 <= k1 < k2,
    ensures
        spec_bin_freq(k1, rate, n) < spec_bin_freq(k2, rate, n),
{
    assert(k1 * rate >= 0 && k1 * rate + n <= k2 * rate) by (nonlinear_arith)
        requires 0 <= k1, k1 < k2, 0 < n <= rate;
    lemma_div_strict_increase(k1 * rate, k2 * rate, n);
}

/// The selected bin indices come out ascending.
proof fn lemma_bins_ascending(n: int, rate: int, lo: int, hi: int, upto: int)
    ensures
        forall|j: int| 0 <= j && j + 1 < spec_bins(n, rate, lo, hi, upto).len()
            ==> #[trigger] spec_bins(n, rate, lo, hi, upto)[j] < spec_bins(n, rate, lo, hi, upto)[j + 1],
    decreases upto,
{
    if upto > 0 {
        lemma_bins_ascending(n, rate, lo, hi, upto - 1);
        lemma_bins_in_range(n, rate, lo, hi, upto - 1);
        let pre = spec_bins(n, rate, lo, hi, upto - 1);
        let cur = spec_bins(n, rate, lo, hi, upto);
        assert forall|j: int| 0 <= j && j + 1 < cur.len()
            implies #[trigger] cur[j] < cur[j + 1] by {
            if spec_bin_selected(upto - 1, n, rate, lo, hi) {
                assert(cur == pre.push(upto - 1));
                if j + 1 < pre.len() {
                    assert(cur[j] == pre[j] && cur[j + 1] == pre[j + 1]);
                } else {
                    assert(cur[j] == pre[j] && cur[j + 1] == upto - 1);
                }
            } else {
                assert(cur == pre);
            }
        }
    }
}

/// A spectrum taken at a sample rate of at least one Hz per window point
/// has strictly ascending frequencies, so the perceptual warp keeps its
/// curve strictly ascending too.
pub proof fn lemma_spectrum_frequencies_ascending(s: Seq<i32>, n: int, rate: int, lo: int, hi: int)
    requires
        0 < n <= rate,
        rate <= 4294967295,
    ensures
        forall|j: int| 0 <= j && j + 1 < spec_spectrum(s, n, rate, lo, hi).len()
            ==> (#[trigger] spec_spectrum(s, n, rate, lo, hi)[j].0 as int)
                < (spec_spectrum(s, n, rate, lo, hi)[j + 1].0 as int),
{
    let bins = spec_bins(n, rate, lo, hi, n / 2 + 1);
    lemma_bins_ascending(n, rate, lo, hi, n / 2 + 1);
    lemma_bins_in_range(n, rate, lo, hi, n / 2 + 1);
    assert forall|j: int| 0 <= j && j + 1 < spec_spectrum(s, n, rate, lo, hi).len()
        implies (#[trigger] spec_spectrum(s, n, rate, lo, hi)[j].0 as int)
            < (spec_spectrum(s, n, rate, lo, hi)[j + 1].0 as int) by {
        let k1 = bins[j];
        let k2 = bins[j + 1];
        lemma_bin_freq_strict(k1, k2, rate, n);
        lemma_bin_freq_bound(k1, rate, n);
        lemma_bin_freq_bound(k2, rate, n);
    }
}

/// Bin indices collected by `spec_bins` all lie below `upto`.
proof fn lemma_bins_in_range(n: int, rate: int, lo: int, hi: int, upto: int)
    ensures
        forall|j: int| 0 <= j < spec_bins(n, rate, lo, hi, upto).len()
            ==> 0 <= #[trigger] spec_bins(n, rate, lo, hi, upto)[j] < upto,
    decreases upto,
{
    if upto > 0 {
        lemma_bins_in_range(n, rate, lo, hi, upto - 1);
        let pre = spec_bins(n, rate, lo, hi, upto - 1);
        assert forall|j: int| 0 <= j < spec_bins(n, rate, lo, hi, upto).len()
            implies 0 <= #[trigger] spec_bins(n, rate, lo, hi, upto)[j] < upto by {
            if spec_bin_selected(upto - 1, n, rate, lo, hi) {
                assert(spec_bins(n, rate, lo, hi, upto) == pre.push(upto - 1));
            } else {
                assert(spec_bins(n, rate, lo, hi, upto) == pre);
            }
        }
    }
}

/// Correlation sums over an all-zero window vanish.
proof fn lemma_zero_dft(s: Seq<i32>, k: int, n: int, upto: int)
    requires
        0 < n,
        upto <= s.len(),
        forall|i: int| 0 <= i < s.len() ==> #[trigger] s[i] == 0,
    ensures
        spec_dft_re(s, k, n, upto) == 0,
        spec_dft_im(s, k, n, upto) == 0,
    decreases upto,
{
    if upto > 0 {
        lemma_zero_dft(s, k, n, upto - 1);
        assert(spec_windowed(s, upto - 1, n) == 0);
    }
}

} // verus!
