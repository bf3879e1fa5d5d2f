use audiovis::raster::{
    map_axis, cpow, escape_count, fill_color, render_fractal, FractalConfig, Spectrogram,
};

fn unit_plane_config() -> FractalConfig {
    FractalConfig {
        width: 1,
        height: 1,
        depth: 16,
        escape_q16: 8 * 65536,
        min_re_q16: -2 * 65536,
        max_re_q16: 2 * 65536,
        min_im_q16: -2 * 65536,
        max_im_q16: 2 * 65536,
    }
}

#[test]
fn single_pixel_plane_maps_to_the_center() {
    // a 1x1 plane centered at the origin: the pixel's cell center is 0
    assert_eq!(map_axis(0, 1, -2 * 65536, 2 * 65536), 0);
    // a 2-pixel axis lands on the quarter points
    assert_eq!(map_axis(0, 2, -2 * 65536, 2 * 65536), -65536);
    assert_eq!(map_axis(1, 2, -2 * 65536, 2 * 65536), 65536);
}

#[test]
fn cpow_squares_exactly_on_integer_points() {
    // (1 + 0i)^2 == 1, (2 + 0i)^2 == 4, (0 + 1i)^2 == -1, all in Q16
    assert_eq!(cpow(65536, 0, 2), (65536, 0));
    assert_eq!(cpow(2 * 65536, 0, 2), (4 * 65536, 0));
    assert_eq!(cpow(0, 65536, 2), (-65536, 0));
    assert_eq!(cpow(2 * 65536, 0, 3), (8 * 65536, 0));
}

#[test]
fn origin_under_square_plus_one_escapes_after_three_steps() {
    // z <- z^2 + 1 from z = 0: iterates 1, 2, 5, then 26 whose L1 norm
    // exceeds 8, so three iterates stayed inside.
    let n = escape_count(0, 0, 65536, 0, 2, 8 * 65536, 16);
    assert_eq!(n, 3);
}

#[test]
fn escape_count_saturates_at_depth() {
    // z <- z^2 + 0 from z = 0 never escapes
    let n = escape_count(0, 0, 0, 0, 2, 8 * 65536, 16);
    assert_eq!(n, 16);
}

#[test]
fn fill_colors_follow_the_piecewise_rule() {
    // n == depth: red scaled by high energy
    assert_eq!(fill_color(16, 0, 32768, 16), ((32768u32 * 5100 / 32768) % 256) << 16);
    // every 7th layer: blue base, green from n, red from low energy
    assert_eq!(fill_color(7, 32768, 0, 16), 255 + ((700 % 255) << 8) + (((32768 * 5100 / 32768) % 256) << 16));
    // near the cap: red from high energy modulo 255
    assert_eq!(fill_color(8, 0, 13, 16), ((13 * 5100 / 32768) % 255) << 16);
    // the base ramp
    assert_eq!(fill_color(3, 0, 0, 16), 200 + ((300 % 255) << 8));
}

#[test]
fn unit_fractal_frame_matches_the_documented_scenario() {
    // exponent 2, angle 0 (so c = 1 + 0i), 1x1 plane centered at the
    // origin, escape threshold 8, depth 16: the pixel iterates 0, 1, 2, 5,
    // 26 and escapes with n == 3, colored by the base ramp.
    let cfg = unit_plane_config();
    let frame = render_fractal(&cfg, 0, 2, 0, 0);
    assert_eq!(frame.len(), 1);
    assert_eq!(frame[0], 200 + (45 << 8));
}

#[test]
fn fresh_spectrogram_is_black_and_sized() {
    let s = Spectrogram::new(4, 3);
    let buf = s.buffer();
    assert_eq!(buf.len(), 12);
    assert!(buf.iter().all(|&p| p == 0));
}

#[test]
fn spectrogram_keeps_k_columns_in_age_order() {
    // three updates with strictly increasing bin content: the buffer holds
    // all three written rows, the oldest furthest from the write edge.
    let mut s = Spectrogram::new(4, 3);
    let c1: Vec<(u64, u64)> = vec![(0, 1), (0, 2), (0, 3), (0, 4)];
    let c2: Vec<(u64, u64)> = vec![(0, 5), (0, 6), (0, 7), (0, 8)];
    let c3: Vec<(u64, u64)> = vec![(0, 9), (0, 10), (0, 11), (0, 12)];
    s.update(&c1);
    s.update(&c2);
    s.update(&c3);
    let buf = s.buffer();
    assert_eq!(buf.len(), 12);
    assert_eq!(&buf[0..4], &[16, 32, 48, 64]);
    assert_eq!(&buf[4..8], &[80, 96, 112, 128]);
    assert_eq!(&buf[8..12], &[144, 160, 176, 192]);
    // a fourth update retires the oldest row in place, nothing reallocates
    let c4: Vec<(u64, u64)> = vec![(0, 13), (0, 14), (0, 15), (0, 16)];
    s.update(&c4);
    let buf2 = s.buffer();
    assert_eq!(buf2.len(), 12);
    assert_eq!(&buf2[0..4], &[208, 224, 240, 256]);
    assert_eq!(&buf2[4..8], &[80, 96, 112, 128]);
    assert_eq!(&buf2[8..12], &[144, 160, 176, 192]);
}

#[test]
fn spectrogram_truncates_and_pads_the_curve() {
    let mut s = Spectrogram::new(3, 2);
    // longer curve: excess bins are dropped
    let long: Vec<(u64, u64)> = vec![(0, 1), (0, 2), (0, 3), (0, 4), (0, 5)];
    s.update(&long);
    assert_eq!(&s.buffer()[0..3], &[16, 32, 48]);
    // shorter curve: the free pixels are black
    let short: Vec<(u64, u64)> = vec![(0, 9)];
    s.update(&short);
    assert_eq!(&s.buffer()[3..6], &[144, 0, 0]);
}

#[test]
fn spectrogram_intensity_saturates() {
    let mut s = Spectrogram::new(1, 1);
    let hot: Vec<(u64, u64)> = vec![(0, u64::MAX)];
    s.update(&hot);
    assert_eq!(s.buffer()[0], 16777215);
}
