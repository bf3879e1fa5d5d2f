//! The analysis side of the render loop: one object that owns the analyzer,
//! the band layout and the modulator, and runs one gated analysis cycle at a
//! time. The loop's pacing, key polling and presentation are the display
//! shell's business; the decisions are all here.

use vstd::prelude::*;
use crate::spectrum::{
    SpectrumAnalyzer, SetupError, AnalysisError, spec_perceptual, spectrum_to_perceptual,
    lemma_zero_window_zero_magnitudes, lemma_spectrum_len, lemma_analyzer_wf_bounds,
};
use crate::bands::{Band, reduce, spec_band_energy, lemma_zero_curve_zero_energy};
use crate::modulator::{
    ParameterModulator, BandEnergies, ModulatedParams, spec_angle_next, spec_ratio_next,
    lemma_silence_keeps_angle, lemma_wf_bounds,
};

verus! {

/// Mean amplitude of the low band of the perceptual curve of `s`.
pub open spec fn spec_low_energy(a: SpectrumAnalyzer, b: Band, s: Seq<i32>) -> int {
    spec_band_energy(spec_perceptual(a.spec_analyze(s)), b)
}

/// High-band energy, weighted by 3 and saturated at the integer range.
pub open spec fn spec_high_energy(a: SpectrumAnalyzer, b: Band, s: Seq<i32>) -> int {
    let e = 3 * spec_band_energy(spec_perceptual(a.spec_analyze(s)), b);
    if e > u64::MAX { u64::MAX as int } else { e }
}

/// Analyzer, band layout and modulator of one running visualizer.
pub struct AnalysisPipeline {
    analyzer: SpectrumAnalyzer,
    low_band: Band,
    high_band: Band,
    modulator: ParameterModulator,
}

impl AnalysisPipeline {
    /// The analyzer configuration in use.
    pub closed spec fn spec_analyzer(&self) -> SpectrumAnalyzer {
        self.analyzer
    }

    /// The low band: the first third of the perceptual curve.
    pub closed spec fn spec_low_band(&self) -> Band {
        self.low_band
    }

    /// The high band: the remaining two thirds.
    pub closed spec fn spec_high_band(&self) -> Band {
        self.high_band
    }

    /// The modulator state.
    pub closed spec fn spec_modulator(&self) -> ParameterModulator {
        self.modulator
    }

    /// All parts well-formed.
    pub closed spec fn wf(&self) -> bool {
        &&& self.analyzer.wf()
        &&& self.low_band.wf()
        &&& self.high_band.wf()
        &&& self.modulator.wf()
        &&& self.low_band.start_num == 0 && self.low_band.end_num == 1 && self.low_band.den == 3
        &&& self.high_band.start_num == 1 && self.high_band.end_num == 3 && self.high_band.den == 3
    }

    /// Build a pipeline: the analyzer validates its configuration, the band
    /// layout splits the curve at one third, the modulator starts fresh.
    pub fn new(fft_len: usize, sample_rate: u32, freq_lo: u32, freq_hi: u32) -> (r: Result<Self, SetupError>)
        ensures
            match r {
                Ok(p) => {
                    &&& p.wf()
                    &&& 0 < fft_len <= 32768
                    &&& p.spec_analyzer().spec_fft_len() == fft_len
                    &&& p.spec_analyzer().spec_sample_rate() == sample_rate
                    &&& p.spec_analyzer().spec_freq_lo() == freq_lo
                    &&& p.spec_analyzer().spec_freq_hi() == freq_hi
                },
                Err(_) => !(0 < fft_len <= 32768 && sample_rate > 0 && freq_lo <= freq_hi),
            },
    {
        let analyzer = match SpectrumAnalyzer::new(fft_len, sample_rate, freq_lo, freq_hi) {
            Ok(a) => a,
            Err(e) => {
                return Err(e);
            },
        };
        Ok(AnalysisPipeline {
            analyzer,
            low_band: Band { start_num: 0, end_num: 1, den: 3 },
            high_band: Band { start_num: 1, end_num: 3, den: 3 },
            modulator: ParameterModulator::new(),
        })
    }

    /// Window length the cycle needs.
    pub fn fft_len(&self) -> (n: usize)
        requires
            self.wf(),
        ensures
            n == self.spec_analyzer().spec_fft_len(),
    {
        self.analyzer.fft_len()
    }

    /// An analysis cycle fires only when at least one full fresh window of
    /// samples is available.
    pub fn ready(&self, occupancy: usize) -> (r: bool)
        requires
            self.wf(),
        ensures
            r == (occupancy >= self.spec_analyzer().spec_fft_len()),
    {
        occupancy >= self.analyzer.fft_len()
    }

    /// Run one analysis-and-modulate cycle on a full window of Q15 samples:
    /// spectrum, perceptual warp, band means (high weighted by 3), one
    /// modulator step. Fails exactly when the window length is wrong, and
    /// then changes nothing. A window of silence leaves the angle untouched.
    pub fn cycle(&mut self, window: &Vec<i32>) -> (r: Result<ModulatedParams, AnalysisError>)
        requires
            old(self).wf(),
            forall|i: int| 0 <= i < window@.len() ==> -32768 <= #[trigger] window@[i] <= 32768,
        ensures
            final(self).wf(),
            final(self).spec_analyzer() == old(self).spec_analyzer(),
            final(self).spec_low_band() == old(self).spec_low_band(),
            final(self).spec_high_band() == old(self).spec_high_band(),
            match r {
                Ok(p) => {
                    &&& window@.len() == old(self).spec_analyzer().spec_fft_len()
                    &&& p.low == spec_low_energy(old(self).spec_analyzer(), old(self).spec_low_band(), window@)
                    &&& p.high == spec_high_energy(old(self).spec_analyzer(), old(self).spec_high_band(), window@)
                    &&& p.angle == spec_angle_next(old(self).spec_modulator().spec_angle(), p.low as int, p.high as int)
                    &&& p.ratio == spec_ratio_next(old(self).spec_modulator().spec_ratio(), p.low as int, p.high as int)
                    &&& p.exponent == old(self).spec_modulator().spec_exponent()
                    &&& final(self).spec_modulator().spec_angle() == p.angle
                    &&& final(self).spec_modulator().spec_ratio() == p.ratio
                    &&& final(self).spec_modulator().spec_exponent() == p.exponent
                    &&& (forall|i: int| 0 <= i < window@.len() ==> #[trigger] window@[i] == 0)
                        ==> p.low == 0 && p.high == 0
                            && p.angle == old(self).spec_modulator().spec_angle()
                },
                Err(e) => {
                    &&& window@.len() != old(self).spec_analyzer().spec_fft_len()
                    &&& e == AnalysisError::WrongLength
                    &&& *final(self) == *old(self)
                },
            },
    {
        let sp = match self.analyzer.analyze(window) {
            Ok(s) => s,
            Err(e) => {
                return Err(e);
            },
        };
        let curve = spectrum_to_perceptual(&sp);
        proof {
            lemma_analyzer_wf_bounds(self.analyzer);
            lemma_spectrum_len(
                window@,
                self.analyzer.spec_fft_len(),
                self.analyzer.spec_sample_rate(),
                self.analyzer.spec_freq_lo(),
                self.analyzer.spec_freq_hi(),
            );
        }
        let mut bv: Vec<Band> = Vec::new();
        bv.push(self.low_band);
        bv.push(self.high_band);
        let energies = reduce(&curve, &bv);
        let low_e = energies[0];
        let high_mean = energies[1];
        let high_e: u64 = if high_mean > 6148914691236517205 {
            u64::MAX
        } else {
            3 * high_mean
        };
        proof {
            if forall|i: int| 0 <= i < window@.len() ==> #[trigger] window@[i] == 0 {
                lemma_zero_window_zero_magnitudes(
                    window@,
                    self.analyzer.spec_fft_len(),
                    self.analyzer.spec_sample_rate(),
                    self.analyzer.spec_freq_lo(),
                    self.analyzer.spec_freq_hi(),
                );
                let spq = self.analyzer.spec_analyze(window@);
                assert forall|j: int| 0 <= j < spec_perceptual(spq).len()
                    implies (#[trigger] spec_perceptual(spq)[j]).1 == 0 by {
                    assert(spec_perceptual(spq)[j].1 == spq[j].1);
                }
                lemma_zero_curve_zero_energy(spec_perceptual(spq), self.low_band);
                lemma_zero_curve_zero_energy(spec_perceptual(spq), self.high_band);
                lemma_wf_bounds(self.modulator);
                lemma_silence_keeps_angle(self.modulator.spec_angle());
            }
        }
        let p = self.modulator.update(&BandEnergies { low: low_e, high: high_e });
        Ok(p)
    }

    /// Key event: cycle the exponent up.
    pub fn key_exponent_up(&mut self)
        requires
            old(self).wf(),
        ensures
            final(self).wf(),
            final(self).spec_analyzer() == old(self).spec_analyzer(),
            final(self).spec_modulator().spec_exponent()
                == if old(self).spec_modulator().spec_exponent() == 7 {
                    1int
                } else {
                    old(self).spec_modulator().spec_exponent() + 1
                },
            final(self).spec_modulator().spec_angle() == old(self).spec_modulator().spec_angle(),
    {
        self.modulator.cycle_exponent_up();
    }

    /// Key event: cycle the exponent down.
    pub fn key_exponent_down(&mut self)
        requires
            old(self).wf(),
        ensures
            final(self).wf(),
            final(self).spec_analyzer() == old(self).spec_analyzer(),
            final(self).spec_modulator().spec_exponent()
                == if old(self).spec_modulator().spec_exponent() == 1 {
                    7int
                } else {
                    old(self).spec_modulator().spec_exponent() - 1
                },
            final(self).spec_modulator().spec_angle() == old(self).spec_modulator().spec_angle(),
    {
        self.modulator.cycle_exponent_down();
    }

    /// Current exponent, for the shell's diagnostics.
    pub fn exponent(&self) -> (e: i32)
        ensures
            e == self.spec_modulator().spec_exponent(),
    {
        self.modulator.exponent()
    }
}

} // verus!
