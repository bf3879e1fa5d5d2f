use audiovis::bands::{Band, reduce};

fn thirds() -> Vec<Band> {
    vec![
        Band { start_num: 0, end_num: 1, den: 3 },
        Band { start_num: 1, end_num: 3, den: 3 },
    ]
}

#[test]
fn partitioning_bands_cover_every_entry() {
    // bands [0,1/3) and [1/3,1) over curves of several lengths: the
    // resolved slice widths always sum to the curve length, no gap and no
    // overlap.
    for l in [0usize, 1, 2, 3, 7, 10, 100, 101] {
        let bands = thirds();
        let lo_end = 1 * l / 3;
        let hi_start = 1 * l / 3;
        let hi_end = 3 * l / 3;
        assert_eq!(lo_end, hi_start);
        assert_eq!((lo_end - 0) + (hi_end - hi_start), l);
        // and reduce accepts every such curve
        let curve: Vec<(u64, u64)> = (0..l as u64).map(|i| (i, 1)).collect();
        let e = reduce(&curve, &bands);
        assert_eq!(e.len(), 2);
    }
}

#[test]
fn reduce_takes_exact_means() {
    // curve of 6 entries, amplitudes 3,3,9,9,9,9: low band is the first
    // third (two entries), high band the rest.
    let curve: Vec<(u64, u64)> = vec![(0, 3), (1, 3), (2, 9), (3, 9), (4, 9), (5, 9)];
    let e = reduce(&curve, &thirds());
    assert_eq!(e, vec![3, 9]);
}

#[test]
fn reduce_rounds_means_down() {
    let curve: Vec<(u64, u64)> = vec![(0, 1), (1, 2), (2, 4), (3, 4), (4, 5), (5, 5)];
    let e = reduce(&curve, &thirds());
    // low: (1+2)/2 = 1 (floored), high: (4+4+5+5)/4 = 4 (floored from 4.5)
    assert_eq!(e, vec![1, 4]);
}

#[test]
fn empty_slice_yields_zero_energy() {
    // an empty band and an empty curve both give zero rather than failing
    let bands = vec![
        Band { start_num: 1, end_num: 1, den: 3 },
        Band { start_num: 0, end_num: 3, den: 3 },
    ];
    let curve: Vec<(u64, u64)> = vec![(0, 7), (1, 7), (2, 7)];
    let e = reduce(&curve, &bands);
    assert_eq!(e, vec![0, 7]);
    let empty: Vec<(u64, u64)> = Vec::new();
    let e2 = reduce(&empty, &bands);
    assert_eq!(e2, vec![0, 0]);
}

#[test]
fn reduce_tolerates_curve_length_changes() {
    let bands = thirds();
    for l in 1..40usize {
        let curve: Vec<(u64, u64)> = (0..l as u64).map(|i| (i, 6)).collect();
        let e = reduce(&curve, &bands);
        // a constant curve has every non-empty band mean equal to the constant
        let lo_w = l / 3;
        let hi_w = l - l / 3;
        assert_eq!(e[0], if lo_w == 0 { 0 } else { 6 });
        assert_eq!(e[1], if hi_w == 0 { 0 } else { 6 });
    }
}
