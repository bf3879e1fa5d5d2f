use audiovis::modulator::{ParameterModulator, BandEnergies, RATIO_MAX};

#[test]
fn ratio_stays_bounded_as_high_energy_vanishes() {
    // drive the high energy to zero with a huge low energy: the delta guard
    // keeps every quotient finite and the smoothed ratio inside its bound.
    let mut m = ParameterModulator::new();
    for _ in 0..200 {
        let p = m.update(&BandEnergies { low: u64::MAX, high: 0 });
        assert!(p.ratio <= RATIO_MAX);
    }
    // and with high energy enormous instead
    for _ in 0..200 {
        let p = m.update(&BandEnergies { low: 0, high: u64::MAX });
        assert!(p.ratio <= RATIO_MAX);
    }
}

#[test]
fn silence_leaves_angle_unchanged() {
    let mut m = ParameterModulator::new();
    let before = m.angle();
    let p = m.update(&BandEnergies { low: 0, high: 0 });
    assert_eq!(p.angle, before);
    assert_eq!(m.angle(), before);
}

#[test]
fn first_silent_update_smooths_ratio_exactly() {
    let mut m = ParameterModulator::new();
    let p = m.update(&BandEnergies { low: 0, high: 0 });
    // ratio' = (9*32768 + (0+33)*32768/(0+3)) / 10 = (294912 + 360448) / 10
    assert_eq!(p.ratio, 65536);
}

#[test]
fn dominant_high_energy_advances_angle_by_at_most_the_cap() {
    let mut m = ParameterModulator::new();
    let before = m.angle();
    let p = m.update(&BandEnergies { low: 0, high: u64::MAX });
    // capped step of 1043 phase units
    assert_eq!(p.angle, (before + 1043) % 65536);
}

#[test]
fn dominant_low_energy_retreats_angle() {
    let mut m = ParameterModulator::new();
    let before = m.angle();
    let p = m.update(&BandEnergies { low: u64::MAX, high: 0 });
    assert_eq!(p.angle, (before + 65536 - 1043) % 65536);
}

#[test]
fn audio_never_changes_the_exponent() {
    let mut m = ParameterModulator::new();
    let e0 = m.exponent();
    for i in 0..50u64 {
        let p = m.update(&BandEnergies { low: i * 1000, high: i * 7777 });
        assert_eq!(p.exponent, e0);
    }
}

#[test]
fn exponent_cycles_up_with_wraparound() {
    let mut m = ParameterModulator::new();
    assert_eq!(m.exponent(), 2);
    let mut seen = Vec::new();
    for _ in 0..8 {
        m.cycle_exponent_up();
        seen.push(m.exponent());
    }
    assert_eq!(seen, vec![3, 4, 5, 6, 7, 1, 2, 3]);
}

#[test]
fn exponent_cycles_down_with_wraparound() {
    let mut m = ParameterModulator::new();
    let mut seen = Vec::new();
    for _ in 0..4 {
        m.cycle_exponent_down();
        seen.push(m.exponent());
    }
    assert_eq!(seen, vec![1, 7, 6, 5]);
}

#[test]
fn key_events_do_not_touch_the_angle() {
    let mut m = ParameterModulator::new();
    let a = m.angle();
    m.cycle_exponent_up();
    m.cycle_exponent_down();
    assert_eq!(m.angle(), a);
}
