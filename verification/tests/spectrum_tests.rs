use audiovis::spectrum::{SpectrumAnalyzer, SetupError, AnalysisError, spectrum_to_perceptual, warp_frequency};

#[test]
fn construction_rejects_degenerate_configs() {
    assert_eq!(SpectrumAnalyzer::new(0, 44100, 30, 10000).err(), Some(SetupError::ZeroWindow));
    assert_eq!(SpectrumAnalyzer::new(40000, 44100, 30, 10000).err(), Some(SetupError::WindowTooLong));
    assert_eq!(SpectrumAnalyzer::new(256, 0, 30, 10000).err(), Some(SetupError::ZeroSampleRate));
    assert_eq!(SpectrumAnalyzer::new(256, 44100, 10000, 30).err(), Some(SetupError::EmptyFrequencyRange));
    assert!(SpectrumAnalyzer::new(256, 44100, 30, 10000).is_ok());
}

#[test]
fn wrong_length_window_is_rejected() {
    let a = SpectrumAnalyzer::new(256, 44100, 30, 10000).unwrap();
    let short = vec![0i32; 255];
    assert_eq!(a.analyze(&short).err(), Some(AnalysisError::WrongLength));
    let long = vec![0i32; 257];
    assert_eq!(a.analyze(&long).err(), Some(AnalysisError::WrongLength));
}

#[test]
fn zero_window_gives_all_zero_magnitudes() {
    let a = SpectrumAnalyzer::new(256, 44100, 30, 10000).unwrap();
    let window = vec![0i32; 256];
    let sp = a.analyze(&window).unwrap();
    assert!(!sp.is_empty());
    for &(_, mag) in sp.iter() {
        assert_eq!(mag, 0);
    }
    // repeated calls on the same input give the same result
    let sp2 = a.analyze(&window).unwrap();
    assert_eq!(sp, sp2);
}

#[test]
fn spectrum_frequencies_are_ascending_and_in_band() {
    let a = SpectrumAnalyzer::new(512, 44100, 30, 10000).unwrap();
    let window = vec![100i32; 512];
    let sp = a.analyze(&window).unwrap();
    assert!(!sp.is_empty());
    for w in sp.windows(2) {
        assert!(w[0].0 < w[1].0);
    }
    for &(f, _) in sp.iter() {
        assert!((30..=10000).contains(&f));
    }
}

#[test]
fn sinusoid_peaks_within_one_bin_of_its_frequency() {
    let n = 256usize;
    let rate = 44100u32;
    let a = SpectrumAnalyzer::new(n, rate, 30, 10000).unwrap();
    let k = 20usize; // bin index of the tone
    let tone_hz = (k as f64) * (rate as f64) / (n as f64);
    let mut window: Vec<i32> = Vec::new();
    for i in 0..n {
        let phase = 2.0 * std::f64::consts::PI * (k as f64) * (i as f64) / (n as f64);
        window.push((0.8 * phase.sin() * 32768.0) as i32);
    }
    let sp = a.analyze(&window).unwrap();
    let (mut best_f, mut best_m) = (0u32, 0u64);
    for &(f, m) in sp.iter() {
        if m > best_m {
            best_m = m;
            best_f = f;
        }
    }
    assert!(best_m > 0);
    let bin_width = (rate as f64) / (n as f64);
    assert!((best_f as f64 - tone_hz).abs() <= bin_width + 1.0);
}

#[test]
fn warp_is_strictly_monotonic_on_samples() {
    let freqs = [0u32, 1, 30, 500, 999, 1000, 1001, 1999, 2000, 3000, 4000, 5000, 8000, 9999, 10000, 20000];
    for w in freqs.windows(2) {
        assert!(warp_frequency(w[0]) < warp_frequency(w[1]));
    }
}

#[test]
fn warp_matches_its_piecewise_definition() {
    assert_eq!(warp_frequency(0), 0);
    assert_eq!(warp_frequency(1000), 1000000);
    assert_eq!(warp_frequency(2000), 1522000);
    assert_eq!(warp_frequency(4000), 2146000);
    assert_eq!(warp_frequency(8000), 2838000);
    assert_eq!(warp_frequency(10000), 2838000 + 127 * 2000);
}

#[test]
fn perceptual_curve_preserves_count_and_ascending_order() {
    let a = SpectrumAnalyzer::new(512, 44100, 30, 10000).unwrap();
    let mut window: Vec<i32> = Vec::new();
    for i in 0..512usize {
        let phase = 2.0 * std::f64::consts::PI * 9.0 * (i as f64) / 512.0;
        window.push((0.5 * phase.sin() * 32768.0) as i32);
    }
    let sp = a.analyze(&window).unwrap();
    let curve = spectrum_to_perceptual(&sp);
    assert_eq!(curve.len(), sp.len());
    for w in curve.windows(2) {
        assert!(w[0].0 < w[1].0);
    }
    for (i, &(_, m)) in curve.iter().enumerate() {
        assert_eq!(m, sp[i].1);
    }
}
