use audiovis::engine::AnalysisPipeline;
use audiovis::spectrum::AnalysisError;

#[test]
fn pipeline_construction_validates_the_analyzer() {
    assert!(AnalysisPipeline::new(256, 44100, 30, 10000).is_ok());
    assert!(AnalysisPipeline::new(0, 44100, 30, 10000).is_err());
    assert!(AnalysisPipeline::new(256, 0, 30, 10000).is_err());
    assert!(AnalysisPipeline::new(256, 44100, 10000, 30).is_err());
}

#[test]
fn analysis_is_gated_on_a_full_window() {
    let p = AnalysisPipeline::new(256, 44100, 30, 10000).unwrap();
    assert_eq!(p.fft_len(), 256);
    assert!(!p.ready(0));
    assert!(!p.ready(255));
    assert!(p.ready(256));
    assert!(p.ready(1000));
}

#[test]
fn cycle_rejects_short_windows_without_touching_state() {
    let mut p = AnalysisPipeline::new(256, 44100, 30, 10000).unwrap();
    let e0 = p.exponent();
    let short = vec![0i32; 100];
    assert_eq!(p.cycle(&short).err(), Some(AnalysisError::WrongLength));
    assert_eq!(p.exponent(), e0);
}

#[test]
fn silent_window_gives_zero_energies_and_a_still_angle() {
    // feed exactly one window of zero samples: both band energies are zero
    // and the audio-driven angle does not move.
    let mut p = AnalysisPipeline::new(256, 44100, 30, 10000).unwrap();
    let window = vec![0i32; 256];
    let params = p.cycle(&window).unwrap();
    assert_eq!(params.low, 0);
    assert_eq!(params.high, 0);
    assert_eq!(params.angle, 16375);
    assert_eq!(params.exponent, 2);
    // a second silent cycle still does not move the angle
    let params2 = p.cycle(&window).unwrap();
    assert_eq!(params2.angle, 16375);
}

#[test]
fn keys_cycle_the_exponent_and_audio_does_not() {
    let mut p = AnalysisPipeline::new(256, 44100, 30, 10000).unwrap();
    assert_eq!(p.exponent(), 2);
    p.key_exponent_up();
    assert_eq!(p.exponent(), 3);
    p.key_exponent_down();
    p.key_exponent_down();
    assert_eq!(p.exponent(), 1);
    p.key_exponent_down();
    assert_eq!(p.exponent(), 7);
    let window = vec![1000i32; 256];
    let params = p.cycle(&window).unwrap();
    assert_eq!(params.exponent, 7);
    assert_eq!(p.exponent(), 7);
}

#[test]
fn loud_window_produces_positive_energy() {
    let mut p = AnalysisPipeline::new(256, 44100, 30, 10000).unwrap();
    let mut window: Vec<i32> = Vec::new();
    for i in 0..256usize {
        let phase = 2.0 * std::f64::consts::PI * 40.0 * (i as f64) / 256.0;
        window.push((0.9 * phase.sin() * 32768.0) as i32);
    }
    let params = p.cycle(&window).unwrap();
    assert!(params.high > 0);
    assert_ne!(params.angle, 16375);
}
