//! Raster generation: the escape-time fractal and the scrolling
//! spectrogram, both in Q16 fixed point.

use vstd::prelude::*;
use crate::fixed::{cos_q15, sin_q15, mul_shr16, spec_cos_q15, spec_sin_q15, spec_shr16};
use crate::bands::lemma_frac_le;
use crate::channel::ring_pos;

verus! {

/// Absolute value.
pub open spec fn spec_abs(x: int) -> int {
    if x < 0 { -x } else { x }
}

/// Map a pixel coordinate to the center of its cell in a Q16 interval:
/// `min + (max - min) * (2x + 1) / (2w)`.
pub open spec fn spec_map_axis(x: int, w: int, min: int, max: int) -> int {
    min + (max - min) * (2 * x + 1) / (2 * w)
}

/// Real part of the truncating Q16 complex product.
pub open spec fn spec_cmul_re(ar: int, ai: int, br: int, bi: int) -> int {
    spec_shr16(ar * br) - spec_shr16(ai * bi)
}

/// Imaginary part of the truncating Q16 complex product.
pub open spec fn spec_cmul_im(ar: int, ai: int, br: int, bi: int) -> int {
    spec_shr16(ar * bi) + spec_shr16(ai * br)
}

/// `z^e` by repeated Q16 complex multiplication, `e >= 1`.
pub open spec fn spec_cpow(zr: int, zi: int, e: int) -> (int, int)
    decreases e,
{
    if e <= 1 {
        (zr, zi)
    } else {
        let p = spec_cpow(zr, zi, e - 1);
        (spec_cmul_re(p.0, p.1, zr, zi), spec_cmul_im(p.0, p.1, zr, zi))
    }
}

/// Magnitude bound for the components of `z^j` when the components of `z`
/// are bounded by 2^21 (Q16 value 32): each multiplication can grow a
/// component by at most a factor of 64.
pub open spec fn spec_pow_bound(j: int) -> int
    decreases j,
{
    if j <= 1 {
        2097152
    } else {
        64 * spec_pow_bound(j - 1)
    }
}

proof fn lemma_pow_bound_pos(j: int)
    ensures
        spec_pow_bound(j) >= 2097152,
    decreases j,
{
    if j > 1 {
        lemma_pow_bound_pos(j - 1);
        assert(spec_pow_bound(j) == 64 * spec_pow_bound(j - 1));
    }
}

proof fn lemma_pow_bound_mono(j1: int, j2: int)
    requires
        j1 <= j2,
    ensures
        spec_pow_bound(j1) <= spec_pow_bound(j2),
        spec_pow_bound(j1) >= 2097152,
    decreases j2 - j1,
{
    lemma_pow_bound_pos(j1);
    if j1 < j2 {
        lemma_pow_bound_mono(j1, j2 - 1);
        if j2 > 1 {
            lemma_pow_bound_pos(j2 - 1);
            assert(spec_pow_bound(j2) == 64 * spec_pow_bound(j2 - 1));
        }
    }
}

proof fn lemma_pow_bound_7()
    ensures
        spec_pow_bound(7) == 144115188075855872,
{
    assert(spec_pow_bound(1) == 2097152);
    assert(spec_pow_bound(2) == 64 * spec_pow_bound(1));
    assert(spec_pow_bound(3) == 64 * spec_pow_bound(2));
    assert(spec_pow_bound(4) == 64 * spec_pow_bound(3));
    assert(spec_pow_bound(5) == 64 * spec_pow_bound(4));
    assert(spec_pow_bound(6) == 64 * spec_pow_bound(5));
    assert(spec_pow_bound(7) == 64 * spec_pow_bound(6));
}

/// The escape count of the iteration `z <- z^e + c` started at `(zr, zi)`
/// with `n` steps already taken: the first step index at which the L1 norm
/// of the iterate exceeds `escape`, or `depth` if none does.
pub open spec fn spec_escape_count(
    zr: int, zi: int, cr: int, ci: int, e: int, escape: int, depth: int, n: int,
) -> int
    decreases depth - n,
{
    if n >= depth {
        depth
    } else {
        let p = spec_cpow(zr, zi, e);
        let nr = p.0 + cr;
        let ni = p.1 + ci;
        if spec_abs(nr) + spec_abs(ni) > escape {
            n
        } else {
            spec_escape_count(nr, ni, cr, ci, e, escape, depth, n + 1)
        }
    }
}

/// The documented piecewise color rule on an escape count `n` and the band
/// energies: the full-depth set is red scaled by high energy, every 7th
/// layer mixes green from `n` with red from low energy, layers close to the
/// cap are red from high energy, and the base ramp is keyed on `n` alone.
pub open spec fn spec_fill(n: int, low: int, high: int, depth: int) -> int {
    if n == depth {
        ((high * 5100 / 32768) % 256) * 65536
    } else if n % 7 == 0 {
        255 + (n * 100 % 255) * 256 + ((low * 5100 / 32768) % 256) * 65536
    } else if n > depth - 10 {
        ((high * 5100 / 32768) % 255) * 65536
    } else {
        200 + (n * 100 % 255) * 256
    }
}

/// Map one pixel axis coordinate to the Q16 center of its cell.
pub fn map_axis(x: usize, w: usize, min: i64, max: i64) -> (r: i64)
    requires
        0 < w <= 8192,
        x < w,
        -1048576 <= min <= max <= 1048576,
    ensures
        r == spec_map_axis(x as int, w as int, min as int, max as int),
        min <= r <= max,
{
    let diff: u64 = (max - min) as u64;
    proof {
        assert((diff as int) * (2 * (x as int) + 1) <= 2097152int * 16383)
            by (nonlinear_arith)
            requires 0 <= diff as int <= 2097152, 0 <= x as int <= 8191;
    }
    let num: u64 = diff * ((2 * x + 1) as u64);
    let q: u64 = num / ((2 * w) as u64);
    proof {
        lemma_frac_le((2 * x + 1) as int, 2 * w as int, diff as int);
        assert((2 * x as int + 1) * (diff as int) == (diff as int) * (2 * x as int + 1))
            by (nonlinear_arith);
    }
    min + (q as i64)
}

/// `z^e` by repeated truncating Q16 complex multiplication.
pub fn cpow(zr: i64, zi: i64, e: u32) -> (r: (i64, i64))
    requires
        1 <= e <= 7,
        -2097152 <= zr <= 2097152,
        -2097152 <= zi <= 2097152,
    ensures
        (r.0 as int, r.1 as int) == spec_cpow(zr as int, zi as int, e as int),
        -144115188075855872 <= r.0 <= 144115188075855872,
        -144115188075855872 <= r.1 <= 144115188075855872,
{
    let mut pr: i64 = zr;
    let mut pi: i64 = zi;
    let mut j: u32 = 1;
    proof {
        lemma_pow_bound_7();
        lemma_pow_bound_mono(1, 7);
    }
    while j < e
        invariant
            1 <= j <= e <= 7,
            -2097152 <= zr <= 2097152,
            -2097152 <= zi <= 2097152,
            (pr as int, pi as int) == spec_cpow(zr as int, zi as int, j as int),
            -spec_pow_bound(j as int) <= pr <= spec_pow_bound(j as int),
            -spec_pow_bound(j as int) <= pi <= spec_pow_bound(j as int),
            spec_pow_bound(7) == 144115188075855872,
        decreases e - j,
    {
        proof {
            lemma_pow_bound_mono(j as int, 7);
            lemma_pow_bound_mono(1, j as int);
            assert(spec_abs((pr as int) * (zr as int)) <= spec_pow_bound(j as int) * 2097152
                && spec_abs((pi as int) * (zi as int)) <= spec_pow_bound(j as int) * 2097152
                && spec_abs((pr as int) * (zi as int)) <= spec_pow_bound(j as int) * 2097152
                && spec_abs((pi as int) * (zr as int)) <= spec_pow_bound(j as int) * 2097152)
                by (nonlinear_arith)
                requires
                    -spec_pow_bound(j as int) <= pr as int <= spec_pow_bound(j as int),
                    -spec_pow_bound(j as int) <= pi as int <= spec_pow_bound(j as int),
                    -2097152 <= zr as int <= 2097152,
                    -2097152 <= zi as int <= 2097152,
                    spec_pow_bound(j as int) >= 0;
            assert(spec_pow_bound(j as int) * 2097152 <= 144115188075855872int * 2097152)
                by (nonlinear_arith)
                requires 0 <= spec_pow_bound(j as int) <= 144115188075855872;
            assert(144115188075855872int * 2097152 <= 0x7fff_ffff_ffff_ffffint * 65536);
        }
        let t1 = mul_shr16(pr, zr);
        let t2 = mul_shr16(pi, zi);
        let t3 = mul_shr16(pr, zi);
        let t4 = mul_shr16(pi, zr);
        proof {
            let b = spec_pow_bound(j as int);
            assert(spec_abs(t1 as int) <= b * 32) by (nonlinear_arith)
                requires spec_abs(t1 as int) * 65536 <= b * 2097152;
            assert(spec_abs(t2 as int) <= b * 32) by (nonlinear_arith)
                requires spec_abs(t2 as int) * 65536 <= b * 2097152;
            assert(spec_abs(t3 as int) <= b * 32) by (nonlinear_arith)
                requires spec_abs(t3 as int) * 65536 <= b * 2097152;
            assert(spec_abs(t4 as int) <= b * 32) by (nonlinear_arith)
                requires spec_abs(t4 as int) * 65536 <= b * 2097152;
            assert(spec_pow_bound(j as int + 1) == 64 * b);
            lemma_pow_bound_mono(j as int + 1, 7);
        }
        pr = t1 - t2;
        pi = t3 + t4;
        j = j + 1;
    }
    proof {
        lemma_pow_bound_mono(j as int, 7);
    }
    (pr, pi)
}

/// Escape count for one pixel: iterate `z <- z^e + c` until the L1 norm of
/// the iterate exceeds `escape` (returning how many iterates stayed inside)
/// or `depth` iterations have run.
pub fn escape_count(zr0: i64, zi0: i64, cr: i64, ci: i64, e: u32, escape: i64, depth: u32) -> (n: u32)
    requires
        1 <= e <= 7,
        0 < escape <= 1048576,
        -1048576 <= zr0 <= 1048576,
        -1048576 <= zi0 <= 1048576,
        -131072 <= cr <= 131072,
        -131072 <= ci <= 131072,
        depth <= 1000000,
    ensures
        n == spec_escape_count(zr0 as int, zi0 as int, cr as int, ci as int, e as int, escape as int, depth as int, 0),
        n <= depth,
{
    let mut zr = zr0;
    let mut zi = zi0;
    let mut n: u32 = 0;
    while n < depth
        invariant
            n <= depth,
            1 <= e <= 7,
            0 < escape <= 1048576,
            -131072 <= cr <= 131072,
            -131072 <= ci <= 131072,
            -2097152 <= zr <= 2097152,
            -2097152 <= zi <= 2097152,
            spec_escape_count(zr as int, zi as int, cr as int, ci as int, e as int, escape as int, depth as int, n as int)
                == spec_escape_count(zr0 as int, zi0 as int, cr as int, ci as int, e as int, escape as int, depth as int, 0),
        decreases depth - n,
    {
        let p = cpow(zr, zi, e);
        let nr = p.0 + cr;
        let ni = p.1 + ci;
        let l1: i64 = (if nr < 0 { -nr } else { nr }) + (if ni < 0 { -ni } else { ni });
        if l1 > escape {
            return n;
        }
        zr = nr;
        zi = ni;
        n = n + 1;
    }
    n
}

/// The documented piecewise color rule.
pub fn fill_color(n: u32, low: u64, high: u64, depth: u32) -> (c: u32)
    requires
        n <= depth,
        depth <= 1000000,
    ensures
        c == spec_fill(n as int, low as int, high as int, depth as int),
{
    let hs: u32 = (((high as u128) * 5100 / 32768) % 256) as u32;
    let hs255: u32 = (((high as u128) * 5100 / 32768) % 255) as u32;
    let ls: u32 = (((low as u128) * 5100 / 32768) % 256) as u32;
    if n == depth {
        hs * 65536
    } else if n % 7 == 0 {
        255 + (n * 100 % 255) * 256 + ls * 65536
    } else if (n as i64) > (depth as i64) - 10 {
        hs255 * 65536
    } else {
        200 + (n * 100 % 255) * 256
    }
}

/// Fixed configuration of the fractal generator: raster size, iteration
/// depth, escape threshold and the complex-plane window, all Q16.
pub struct FractalConfig {
    pub width: usize,
    pub height: usize,
    pub depth: u32,
    pub escape_q16: i64,
    pub min_re_q16: i64,
    pub max_re_q16: i64,
    pub min_im_q16: i64,
    pub max_im_q16: i64,
}

impl FractalConfig {
    /// Bounds under which every per-pixel computation stays in range.
    pub open spec fn wf(&self) -> bool {
        &&& 0 < self.width <= 4096
        &&& 0 < self.height <= 4096
        &&& 0 < self.depth <= 1000000
        &&& 0 < self.escape_q16 <= 1048576
        &&& -1048576 <= self.min_re_q16 <= self.max_re_q16 <= 1048576
        &&& -1048576 <= self.min_im_q16 <= self.max_im_q16 <= 1048576
    }
}

/// The color of pixel `p` (row-major) for a given angle, exponent and band
/// energies: its cell center is iterated under `z^e + c(angle)` and the
/// escape count is colored by the piecewise rule.
pub open spec fn spec_fractal_pixel(cfg: FractalConfig, angle: int, e: int, low: int, high: int, p: int) -> int {
    let zr = spec_map_axis(p % (cfg.width as int), cfg.width as int, cfg.min_re_q16 as int, cfg.max_re_q16 as int);
    let zi = spec_map_axis(p / (cfg.width as int), cfg.height as int, cfg.min_im_q16 as int, cfg.max_im_q16 as int);
    let cr = 2 * spec_cos_q15(angle);
    let ci = 2 * spec_sin_q15(angle);
    let n = spec_escape_count(zr, zi, cr, ci, e, cfg.escape_q16 as int, cfg.depth as int, 0);
    spec_fill(n, low, high, cfg.depth as int)
}

/// Render one full fractal frame: row-major, one escape-time iteration per
/// pixel, colors from the piecewise rule and the band energies.
pub fn render_fractal(cfg: &FractalConfig, angle: u32, exponent: u32, low: u64, high: u64) -> (buf: Vec<u32>)
    requires
        cfg.wf(),
        angle < 65536,
        1 <= exponent <= 7,
    ensures
        buf@.len() == cfg.width * cfg.height,
        forall|p: int| 0 <= p < buf@.len()
            ==> #[trigger] buf@[p] == spec_fractal_pixel(*cfg, angle as int, exponent as int, low as int, high as int, p),
{
    let w = cfg.width;
    let h = cfg.height;
    let cr: i64 = 2 * (cos_q15(angle) as i64);
    let ci: i64 = 2 * (sin_q15(angle) as i64);
    proof {
        assert((w as int) * (h as int) <= 4096 * 4096) by (nonlinear_arith)
            requires 0 < w as int <= 4096, 0 < h as int <= 4096;
    }
    let total = w * h;
    let mut buf: Vec<u32> = Vec::new();
    let mut p: usize = 0;
    while p < total
        invariant
            cfg.wf(),
            w == cfg.width,
            h == cfg.height,
            total == w * h,
            total <= 16777216,
            angle < 65536,
            1 <= exponent <= 7,
            cr == 2 * spec_cos_q15(angle as int),
            ci == 2 * spec_sin_q15(angle as int),
            -131072 <= cr <= 131072,
            -131072 <= ci <= 131072,
            p <= total,
            buf@.len() == p,
            forall|q: int| 0 <= q < p
                ==> #[trigger] buf@[q] == spec_fractal_pixel(*cfg, angle as int, exponent as int, low as int, high as int, q),
        decreases total - p,
    {
        let x = p % w;
        let y = p / w;
        proof {
            vstd::arithmetic::div_mod::lemma_mod_bound(p as int, w as int);
            vstd::arithmetic::div_mod::lemma_div_pos_is_pos(p as int, w as int);
            vstd::arithmetic::div_mod::lemma_fundamental_div_mod(p as int, w as int);
            assert(p as int / (w as int) < h as int) by (nonlinear_arith)
                requires
                    0 <= p as int,
                    (p as int) < (w as int) * (h as int),
                    0 < w as int,
                    p as int == (w as int) * ((p as int) / (w as int)) + (p as int) % (w as int),
                    0 <= (p as int) % (w as int) < w as int;
        }
        let zr = map_axis(x, w, cfg.min_re_q16, cfg.max_re_q16);
        let zi = map_axis(y, h, cfg.min_im_q16, cfg.max_im_q16);
        let n = escape_count(zr, zi, cr, ci, exponent, cfg.escape_q16, cfg.depth);
        let c = fill_color(n, low, high, cfg.depth);
        buf.push(c);
        p = p + 1;
    }
    buf
}

/// Pixel intensity for a perceptual amplitude: a fixed linear scale,
/// saturated at 24-bit white.
pub open spec fn spec_intensity(a: int) -> int {
    if a * 16 > 16777215 { 16777215 } else { a * 16 }
}

/// The row of pixels one update writes for a curve: one intensity per
/// perceptual bin, truncated at the raster width, padded with black.
pub open spec fn spec_new_row(curve: Seq<(u64, u64)>, w: int) -> Seq<u32> {
    Seq::new(w as nat, |x: int| if x < curve.len() { spec_intensity(curve[x].1 as int) as u32 } else { 0u32 })
}

/// One scroll step: the new row enters at the leading edge, the oldest row
/// falls off, nothing is reallocated.
pub open spec fn spec_shift(v: Seq<Seq<u32>>, row: Seq<u32>) -> Seq<Seq<u32>> {
    seq![row] + v.drop_last()
}

/// `K` scroll steps applied in order.
pub open spec fn spec_apply_shifts(v: Seq<Seq<u32>>, rows: Seq<Seq<u32>>, upto: int) -> Seq<Seq<u32>>
    decreases upto,
{
    if upto <= 0 {
        v
    } else {
        spec_shift(spec_apply_shifts(v, rows, upto - 1), rows[upto - 1])
    }
}

/// After `K` scroll steps the leading `K` rows (up to the raster height)
/// are exactly the `K` written rows, newest at the leading edge and the
/// oldest pushed furthest from it, and the buffer shape is unchanged.
pub proof fn lemma_shift_history(v: Seq<Seq<u32>>, rows: Seq<Seq<u32>>, k: int)
    requires
        v.len() > 0,
        0 <= k <= rows.len(),
    ensures
        spec_apply_shifts(v, rows, k).len() == v.len(),
        forall|j: int| 0 <= j < k && j < v.len()
            ==> #[trigger] spec_apply_shifts(v, rows, k)[j] == rows[k - 1 - j],
    decreases k,
{
    if k > 0 {
        lemma_shift_history(v, rows, k - 1);
        let prev = spec_apply_shifts(v, rows, k - 1);
        let cur = spec_apply_shifts(v, rows, k);
        assert(cur == spec_shift(prev, rows[k - 1]));
        assert forall|j: int| 0 <= j < k && j < v.len()
            implies #[trigger] cur[j] == rows[k - 1 - j] by {
            if j == 0 {
                assert(cur[0] == rows[k - 1]);
            } else {
                assert(cur[j] == prev.drop_last()[j - 1]);
                assert(prev.drop_last()[j - 1] == prev[j - 1]);
            }
        }
    }
}

proof fn lemma_row_index_distinct(r1: int, r2: int, x1: int, x2: int, w: int)
    requires
        r1 != r2,
        0 <= r1,
        0 <= r2,
        0 <= x1 < w,
        0 <= x2 < w,
    ensures
        r1 * w + x1 != r2 * w + x2,
{
    assert(r1 * w + x1 != r2 * w + x2) by (nonlinear_arith)
        requires r1 != r2, 0 <= r1, 0 <= r2, 0 <= x1 < w, 0 <= x2 < w;
}

/// Scrolling spectrogram: a fixed raster treated as a ring of rows with a
/// write cursor, so a scroll step writes one row and moves the cursor
/// instead of copying the buffer.
pub struct Spectrogram {
    buf: Vec<u32>,
    width: usize,
    height: usize,
    cursor: usize,
}

impl Spectrogram {
    /// Raster width in pixels.
    pub closed spec fn spec_width(&self) -> int {
        self.width as int
    }

    /// Raster height in rows.
    pub closed spec fn spec_height(&self) -> int {
        self.height as int
    }

    /// Row at age `j`: 0 is the row written last, larger ages are older.
    pub closed spec fn spec_row(&self, j: int) -> Seq<u32> {
        Seq::new(self.width as nat, |x: int|
            self.buf[ring_pos(self.cursor as int, self.spec_height() - 1 - j, self.spec_height()) * self.spec_width() + x])
    }

    /// The raster as rows ordered newest first.
    pub closed spec fn view(&self) -> Seq<Seq<u32>> {
        Seq::new(self.height as nat, |j: int| self.spec_row(j))
    }

    /// Structural invariant: fixed shape, cursor inside the ring.
    pub closed spec fn wf(&self) -> bool {
        &&& 0 < self.width <= 4096
        &&& 0 < self.height <= 4096
        &&& self.buf.len() == self.width * self.height
        &&& self.cursor < self.height
    }

    /// A black spectrogram of the given shape.
    pub fn new(width: usize, height: usize) -> (s: Self)
        requires
            0 < width <= 4096,
            0 < height <= 4096,
        ensures
            s.wf(),
            s.spec_width() == width,
            s.spec_height() == height,
            s.view() == Seq::new(height as nat, |j: int| Seq::new(width as nat, |x: int| 0u32)),
    {
        proof {
            assert((width as int) * (height as int) <= 4096 * 4096) by (nonlinear_arith)
                requires 0 < width as int <= 4096, 0 < height as int <= 4096;
        }
        let total = width * height;
        let mut buf: Vec<u32> = Vec::new();
        let mut i: usize = 0;
        while i < total
            invariant
                i <= total,
                buf@.len() == i,
                forall|q: int| 0 <= q < i ==> #[trigger] buf@[q] == 0u32,
            decreases total - i,
        {
            buf.push(0);
            i = i + 1;
        }
        let s = Spectrogram { buf, width, height, cursor: 0 };
        proof {
            assert forall|j: int| 0 <= j < height
                implies #[trigger] s.view()[j] =~= Seq::new(width as nat, |x: int| 0u32) by {
                assert forall|x: int| 0 <= x < width
                    implies #[trigger] s.spec_row(j)[x] == 0u32 by {
                    let r = ring_pos(0, height - 1 - j, height as int);
                    assert(0 <= r < height);
                    let idx = r * (width as int) + x;
                    assert(idx < (height as int) * (width as int)) by (nonlinear_arith)
                        requires
                            idx == r * (width as int) + x,
                            0 <= r, (r as int) < height as int, 0 <= x, x < width as int;
                    assert(idx >= 0) by (nonlinear_arith)
                        requires idx == r * (width as int) + x, 0 <= r, 0 <= x, 0 < width as int;
                    assert((height as int) * (width as int) == (width as int) * (height as int)) by (nonlinear_arith);
                    assert(0 <= idx < s.buf@.len());
                    assert(s.buf@[idx] == 0u32);
                    assert(s.spec_row(j)[x] == s.buf@[idx]);
                }
            }
            assert(s.view() =~~= Seq::new(height as nat, |j: int| Seq::new(width as nat, |x: int| 0u32)));
        }
        s
    }

    /// The flat row-major pixel buffer, for presentation.
    pub fn buffer(&self) -> (r: &Vec<u32>)
        requires
            self.wf(),
        ensures
            r@.len() == self.spec_width() * self.spec_height(),
    {
        &self.buf
    }

    /// One scroll update: convert the curve's amplitudes to intensities,
    /// write them as the new leading row (truncated to the width, padded
    /// with black) and retire the oldest row. The buffer never reallocates.
    pub fn update(&mut self, curve: &Vec<(u64, u64)>)
        requires
            old(self).wf(),
        ensures
            final(self).wf(),
            final(self).spec_width() == old(self).spec_width(),
            final(self).spec_height() == old(self).spec_height(),
            final(self).view() == spec_shift(old(self).view(), spec_new_row(curve@, old(self).spec_width())),
    {
        let w = self.width;
        let h = self.height;
        let oc = self.cursor;
        proof {
            assert((oc as int) * (w as int) + (w as int) <= (h as int) * (w as int)) by (nonlinear_arith)
                requires 0 <= oc as int, (oc as int) < h as int, 0 < w as int;
            assert((oc as int) * (w as int) >= 0) by (nonlinear_arith)
                requires 0 <= oc as int, 0 < w as int;
        }
        let base = oc * w;
        let mut x: usize = 0;
        while x < w
            invariant
                old(self).wf(),
                w == old(self).width,
                h == old(self).height,
                oc == old(self).cursor,
                base == oc * w,
                base + w <= h * w,
                x <= w,
                self.width == w,
                self.height == h,
                self.cursor == oc,
                self.buf@.len() == old(self).buf@.len(),
                forall|idx: int| 0 <= idx < self.buf@.len() && !(base <= idx < base + x)
                    ==> #[trigger] self.buf@[idx] == old(self).buf@[idx],
                forall|x2: int| 0 <= x2 < x
                    ==> #[trigger] self.buf@[base + x2] == spec_new_row(curve@, w as int)[x2],
            decreases w - x,
        {
            let px: u32 = if x < curve.len() {
                let a = curve[x].1;
                if a > 1048575 {
                    16777215
                } else {
                    (a * 16) as u32
                }
            } else {
                0
            };
            proof {
                if x < curve@.len() {
                    let a = curve@[x as int].1 as int;
                    if a > 1048575 {
                        assert(a * 16 > 16777215) by (nonlinear_arith)
                            requires a > 1048575;
                    } else {
                        assert(a * 16 <= 16777215) by (nonlinear_arith)
                            requires 0 <= a <= 1048575;
                    }
                }
            }
            self.buf[base + x] = px;
            x = x + 1;
        }
        self.cursor = if oc + 1 == h { 0 } else { oc + 1 };
        proof {
            let ov = old(self).view();
            let nr = spec_new_row(curve@, w as int);
            assert forall|j: int| 0 <= j < h
                implies #[trigger] self.view()[j] =~= spec_shift(ov, nr)[j] by {
                let r = ring_pos(self.cursor as int, h - 1 - j, h as int);
                if j == 0 {
                    assert(r == oc as int);
                    assert forall|x2: int| 0 <= x2 < w
                        implies #[trigger] self.spec_row(0)[x2] == nr[x2] by {
                        assert(self.buf@[(oc as int) * (w as int) + x2] == nr[x2]);
                    }
                } else {
                    let rold = ring_pos(oc as int, h - 1 - (j - 1), h as int);
                    assert(r == rold);
                    assert(r != oc as int);
                    assert forall|x2: int| 0 <= x2 < w
                        implies #[trigger] self.spec_row(j)[x2] == ov[j - 1][x2] by {
                        lemma_row_index_distinct(r, oc as int, x2, 0, w as int);
                        assert(r * (w as int) + x2 < (h as int) * (w as int)) by (nonlinear_arith)
                            requires 0 <= r < h as int, 0 <= x2 < w as int;
                        assert(r * (w as int) + x2 >= 0) by (nonlinear_arith)
                            requires 0 <= r, 0 <= x2, 0 < w as int;
                        assert(!(base <= r * (w as int) + x2 < base + w)) by (nonlinear_arith)
                            requires
                                r != oc as int, 0 <= r, 0 <= oc as int,
                                0 <= x2 < w as int, base == (oc as int) * (w as int);
                        assert(self.buf@[r * (w as int) + x2] == old(self).buf@[r * (w as int) + x2]);
                    }
                    assert(spec_shift(ov, nr)[j] == ov.drop_last()[j - 1]);
                    assert(ov.drop_last()[j - 1] == ov[j - 1]);
                }
            }
            assert(self.view() =~~= spec_shift(ov, nr));
        }
    }
}

} // verus!
