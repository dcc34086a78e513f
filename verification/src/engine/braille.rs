//! Dots inside cells: sampling, thresholding, dithering and packing.

use crate::engine::geometry;
use crate::engine::geometry::{Geometry, Span};
use crate::engine::sampling;
use crate::engine::sampling::{sample, Sample};
use crate::engine::{Cell, Options, Row};
use crate::float::{Double, Single};
use crate::pixels::RgbaImage;
use vstd::arithmetic::div_mod::*;
use vstd::prelude::*;

verus! {

/// Braille cells are two dots wide and four tall.
pub const DOT_COLS: u32 = 2;

pub const DOT_ROWS: u32 = 4;

/// The encodings of 128 and 255, between and at the two output levels.
pub const PIVOT: u32 = 0x4300_0000;

pub const LIGHT: u32 = 0x437f_0000;

/// The encodings of 7/16, 3/16, 5/16 and 1/16: the shares of an error that go
/// right, down left, down and down right.
pub const RIGHT: u32 = 0x3ee0_0000;

pub const DOWN_LEFT: u32 = 0x3e40_0000;

pub const DOWN: u32 = 0x3ea0_0000;

pub const DOWN_RIGHT: u32 = 0x3d80_0000;

/// The part `at` of the side of a cell, divided into `parts`.
///
/// It starts where the fraction of the side, cut to a pixel, starts, and has at
/// least one pixel.
pub open spec fn spec_part(start: u32, stop: u32, at: int, parts: int) -> (u32, u32) {
    let size = stop - start;
    let first = start + at * size / parts;
    let after = start + (at + 1) * size / parts;
    (first as u32, if after < first + 1 {
        (first + 1) as u32
    } else {
        after as u32
    })
}

/// The source pixels of the dot in column `dx` and row `dy` of a cell.
pub open spec fn dot_span(cell: Span, dx: int, dy: int) -> Span {
    let (x0, x1) = spec_part(cell.x0, cell.x1, dx, 2);
    let (y0, y1) = spec_part(cell.y0, cell.y1, dy, 4);
    Span { x0, x1, y0, y1 }
}

/// The sample of the dot with index `i` in raster order across the whole grid
/// of dots.
pub open spec fn dot_sample(image: &RgbaImage, g: Geometry, matte: Option<[u8; 3]>, i: int) -> Sample {
    let (x, y) = (i % (2 * g.cols), i / (2 * g.cols));
    let cell = g.span((y / 4) as u32, (x / 2) as u32);
    sampling::spec_sample(image, dot_span(cell, x % 2, y % 4), matte)
}

/// The samples of the dots of one row of cells.
pub open spec fn spec_band(image: &RgbaImage, g: Geometry, matte: Option<[u8; 3]>, row: int) -> Seq<
    Sample,
> {
    Seq::new((8 * g.cols) as nat, |k: int| dot_sample(image, g, matte, row * (8 * g.cols) + k))
}

/// The samples of all dots.
pub open spec fn spec_dots(image: &RgbaImage, g: Geometry, matte: Option<[u8; 3]>) -> Seq<Sample> {
    Seq::new((g.rows * (8 * g.cols)) as nat, |i: int| dot_sample(image, g, matte, i))
}

/// Whether a dot is dark enough (or, inverted, bright enough) to be ink.
pub open spec fn spec_is_ink(luma: Double, threshold: Double, invert: bool) -> bool {
    if invert {
        threshold.less(luma)
    } else {
        luma.less(threshold)
    }
}

/// Which dots are ink under a hard cutoff.
pub open spec fn spec_cut(dots: Seq<Sample>, t: u8, invert: bool, threshold: u8) -> Seq<bool> {
    Seq::new(
        dots.len(),
        |i: int|
            dots[i].alpha >= threshold && spec_is_ink(
                dots[i].luma,
                Double::from_u64(t as u64),
                invert,
            ),
    )
}

/// The level that a dot starts with.
pub open spec fn start_level(s: Sample, invert: bool) -> Single {
    if invert {
        Single { bits: LIGHT }.minus(s.luma.to_single())
    } else {
        s.luma.to_single()
    }
}

/// Adds a share of an error to the dot in column `x` of row `y`, if there is one.
pub open spec fn nudged(levels: Seq<Single>, w: int, h: int, x: int, y: int, share: Single) -> Seq<
    Single,
> {
    if 0 <= x < w && 0 <= y < h {
        levels.update(y * w + x, levels[y * w + x].plus(share))
    } else {
        levels
    }
}

/// Passes the error of the dot in column `x` of row `y` on to its neighbors.
pub open spec fn diffused(levels: Seq<Single>, w: int, h: int, x: int, y: int, error: Single) -> Seq<
    Single,
> {
    let levels = nudged(levels, w, h, x + 1, y, error.times(Single { bits: RIGHT }));
    let levels = nudged(levels, w, h, x - 1, y + 1, error.times(Single { bits: DOWN_LEFT }));
    let levels = nudged(levels, w, h, x, y + 1, error.times(Single { bits: DOWN }));
    nudged(levels, w, h, x + 1, y + 1, error.times(Single { bits: DOWN_RIGHT }))
}

/// Levels and decisions after the first `n` dots, in raster order.
///
/// Transparent dots are not ink and have no error to pass on.
pub open spec fn dithered(
    dots: Seq<Sample>,
    w: int,
    h: int,
    invert: bool,
    threshold: u8,
    n: nat,
) -> (Seq<Single>, Seq<bool>)
    decreases n,
{
    if n == 0 {
        (
            Seq::new(dots.len(), |i: int| start_level(dots[i], invert)),
            Seq::new(dots.len(), |i: int| false),
        )
    } else {
        let i = n - 1;
        let (levels, lit) = dithered(dots, w, h, invert, threshold, i as nat);
        if dots[i].alpha < threshold {
            (levels, lit)
        } else {
            let on = levels[i].less(Single { bits: PIVOT });
            let error = levels[i].minus(
                Single {
                    bits: if on {
                        0
                    } else {
                        LIGHT
                    },
                },
            );
            (diffused(levels, w, h, i % w, i / w, error), lit.update(i, on))
        }
    }
}

/// Which dots are ink.
pub open spec fn spec_lit(dots: Seq<Sample>, g: Geometry, opts: &Options) -> Seq<bool> {
    match opts.braille_threshold {
        Some(t) => spec_cut(dots, t, opts.invert, opts.alpha_threshold),
        None => dithered(
            dots,
            2 * g.cols,
            4 * g.rows,
            opts.invert,
            opts.alpha_threshold,
            dots.len(),
        ).1,
    }
}

/// The bit for the dot at column `dx`, row `dy`.
///
/// Braille numbers its dots down the left column, then down the right, with the
/// fourth row added afterwards.
pub open spec fn spec_dot_bit(dx: u32, dy: u32) -> u8 {
    if dx == 0 {
        if dy == 0 {
            0x01
        } else if dy == 1 {
            0x02
        } else if dy == 2 {
            0x04
        } else if dy == 3 {
            0x40
        } else {
            0x80
        }
    } else if dx == 1 {
        if dy == 0 {
            0x08
        } else if dy == 1 {
            0x10
        } else if dy == 2 {
            0x20
        } else {
            0x80
        }
    } else {
        0x80
    }
}

/// The index of dot `k` of a cell, where dots are counted row by row.
pub open spec fn dot_index(cols: u32, row: int, col: int, k: int) -> int {
    (row * 4 + k / 2) * (2 * cols) + (col * 2 + k % 2)
}

/// The bits of the first `k` dots of a cell.
pub open spec fn cell_bits(lit: Seq<bool>, cols: u32, row: int, col: int, k: nat) -> u8
    decreases k,
{
    if k == 0 {
        0
    } else {
        let i = k - 1;
        let bits = cell_bits(lit, cols, row, col, i as nat);
        if lit[dot_index(cols, row, col, i)] {
            bits | spec_dot_bit((i % 2) as u32, (i / 2) as u32)
        } else {
            bits
        }
    }
}

/// The sum of a channel over the first `k` dots of a cell, with the alpha as
/// channel 3.
pub open spec fn dot_sum(dots: Seq<Sample>, cols: u32, row: int, col: int, c: int, k: nat) -> nat
    decreases k,
{
    if k == 0 {
        0
    } else {
        let s = dots[dot_index(cols, row, col, k - 1)];
        dot_sum(dots, cols, row, col, c, (k - 1) as nat) + if c == 3 {
            s.alpha as nat
        } else {
            s.color[c] as nat
        }
    }
}

/// The braille pattern (U+2800 to U+28FF) for a set of dot bits.
pub open spec fn spec_braille_char(bits: u8) -> char {
    (0x2800 + bits) as char
}

/// The cell of a braille conversion: a blank one where no dot is ink or where the
/// mean alpha of the dots is below the threshold, else the pattern of its dots, with
/// their mean color and alpha.
pub open spec fn spec_braille_cell(
    dots: Seq<Sample>,
    lit: Seq<bool>,
    threshold: u8,
    cols: u32,
    row: int,
    col: int,
) -> Cell {
    let bits = cell_bits(lit, cols, row, col, 8);
    let alpha = (dot_sum(dots, cols, row, col, 3, 8) / 8) as u8;
    Cell {
        ch: if bits == 0 || alpha < threshold {
            ' '
        } else {
            spec_braille_char(bits)
        },
        color: [
            (dot_sum(dots, cols, row, col, 0, 8) / 8) as u8,
            (dot_sum(dots, cols, row, col, 1, 8) / 8) as u8,
            (dot_sum(dots, cols, row, col, 2, 8) / 8) as u8,
        ],
        alpha,
    }
}

/// Parts of a side lie inside it.
pub proof fn lemma_part(start: u32, stop: u32, at: int, parts: int)
    requires
        start < stop,
        0 <= at < parts <= 4,
    ensures
        ({
            let size = stop - start;
            &&& 0 <= at * size <= 4 * size
            &&& 0 <= (at + 1) * size <= 4 * size
            &&& 0 <= at * size / parts < size
            &&& 0 <= (at + 1) * size / parts <= size
        }),
        start <= spec_part(start, stop, at, parts).0 < spec_part(start, stop, at, parts).1 <= stop,
{
    let (s, a, p) = (stop - start, at, parts);
    assert(0 <= a * s <= 4 * s && 0 <= (a + 1) * s <= 4 * s) by (nonlinear_arith)
        requires
            0 <= a,
            a + 1 <= 4,
            s >= 0,
    ;
    assert((a + 1) * s <= p * s) by (nonlinear_arith)
        requires
            a + 1 <= p,
            s >= 0,
    ;
    assert(a * s + s == (a + 1) * s) by (nonlinear_arith);
    lemma_div_is_ordered((a + 1) * s, p * s, p);
    lemma_div_multiples_vanish(s, p);
    lemma_fundamental_div_mod(a * s, p);
    let q = a * s / p;
    assert(q < s) by (nonlinear_arith)
        requires
            a * s == p * q + (a * s) % p,
            (a * s) % p >= 0,
            a * s + s <= p * s,
            s > 0,
            p > 0,
    ;
    lemma_div_pos_is_pos(a * s, p);
    lemma_div_pos_is_pos((a + 1) * s, p);
}

/// The part `at` of the side of a cell.
fn part(start: u32, stop: u32, at: u32, parts: u32) -> (r: (u32, u32))
    requires
        start < stop,
        at < parts <= 4,
    ensures
        r == spec_part(start, stop, at as int, parts as int),
        start <= r.0 < r.1 <= stop,
{
    let size = (stop - start) as u64;
    proof {
        lemma_part(start, stop, at as int, parts as int);
    }
    let first = start + (at as u64 * size / parts as u64) as u32;
    let after = start + ((at + 1) as u64 * size / parts as u64) as u32;
    if after < first + 1 {
        (first, first + 1)
    } else {
        (first, after)
    }
}

/// The source pixels of a dot lie inside the image.
pub proof fn lemma_dot_span(g: Geometry, i: int) -> (span: Span)
    requires
        g.fits(),
        0 <= i < g.rows * (8 * g.cols),
    ensures
        span.within(g.img_w, g.img_h),
        span == ({
            let (x, y) = (i % (2 * g.cols), i / (2 * g.cols));
            dot_span(g.span((y / 4) as u32, (x / 2) as u32), x % 2, y % 4)
        }),
{
    let w = 2 * g.cols;
    let (x, y) = (i % w, i / w);
    lemma_fundamental_div_mod(i, w);
    assert(0 <= y < 4 * g.rows) by (nonlinear_arith)
        requires
            i == w * y + x,
            0 <= x < w,
            0 <= i < g.rows * (8 * g.cols),
            w == 2 * g.cols,
            w > 0,
    ;
    let cell = g.span((y / 4) as u32, (x / 2) as u32);
    geometry::lemma_span(g, (y / 4) as u32, (x / 2) as u32);
    lemma_part(cell.x0, cell.x1, x % 2, 2);
    lemma_part(cell.y0, cell.y1, y % 4, 4);
    dot_span(cell, x % 2, y % 4)
}

/// Samples the dots of one row of cells.
///
/// Their rectangles are derived from the rectangles of the cells, so dots stay
/// inside their cell no matter how the cell was rounded.
pub fn band(image: &RgbaImage, geom: &Geometry, matte: Option<[u8; 3]>, row: u32) -> (r: Vec<Sample>)
    requires
        image.wf(),
        geom.fits(),
        geom.img_w == image.width(),
        geom.img_h == image.height(),
        row < geom.rows,
    ensures
        r@ == spec_band(image, *geom, matte, row as int),
{
    let dot_w: u64 = 2 * geom.cols as u64;
    let mut out: Vec<Sample> = Vec::new();
    let mut k: u64 = 0;
    while k < 4 * dot_w
        invariant
            image.wf(),
            geom.fits(),
            geom.img_w == image.width(),
            geom.img_h == image.height(),
            row < geom.rows,
            dot_w == 2 * geom.cols,
            k <= 4 * dot_w,
            out@ =~= spec_band(image, *geom, matte, row as int).take(k as int),
        decreases 4 * dot_w - k,
    {
        let x = k % dot_w;
        let dy = k / dot_w;
        let ghost i = row * (8 * geom.cols) + k;
        proof {
            let w = dot_w as int;
            lemma_fundamental_div_mod(k as int, w);
            assert(dy < 4) by (nonlinear_arith)
                requires
                    k == w * dy + x,
                    x >= 0,
                    k < 4 * w,
                    w > 0,
            ;
            assert(i == (row * 4 + dy) * w + x) by (nonlinear_arith)
                requires
                    i == row * (8 * geom.cols) + k,
                    w == 2 * geom.cols,
                    k == w * dy + x,
            ;
            lemma_fundamental_div_mod_converse(i, w, row * 4 + dy, x as int);
        }
        let cell = geom.cell_bounds(row, (x / 2) as u32);
        let (x0, x1) = part(cell.x0, cell.x1, (x % 2) as u32, DOT_COLS);
        let (y0, y1) = part(cell.y0, cell.y1, dy as u32, DOT_ROWS);
        let s = sample(image, Span { x0, x1, y0, y1 }, matte);
        assert(s == dot_sample(image, *geom, matte, i));
        out.push(s);
        k = k + 1;
    }
    out
}

/// Puts the bands of all rows behind each other.
pub fn flatten(
    bands: &Vec<Vec<Sample>>,
    Ghost(image): Ghost<&RgbaImage>,
    geom: &Geometry,
    Ghost(matte): Ghost<Option<[u8; 3]>>,
) -> (r: Vec<Sample>)
    requires
        bands@.len() == geom.rows,
        forall|row: int|
            0 <= row < bands@.len() ==> #[trigger] bands@[row]@ == spec_band(
                image,
                *geom,
                matte,
                row,
            ),
    ensures
        r@ == spec_dots(image, *geom, matte),
{
    let mut out: Vec<Sample> = Vec::new();
    let ghost all = spec_dots(image, *geom, matte);
    let ghost w = 8 * geom.cols;
    let mut y: usize = 0;
    assert(0 * w == 0) by (nonlinear_arith);
    while y < bands.len()
        invariant
            y <= bands@.len(),
            bands@.len() == geom.rows,
            w == 8 * geom.cols,
            all == spec_dots(image, *geom, matte),
            forall|row: int|
                0 <= row < bands@.len() ==> #[trigger] bands@[row]@ == spec_band(
                    image,
                    *geom,
                    matte,
                    row,
                ),
            0 <= y * w <= all.len(),
            out@ =~= all.take(y * w),
        decreases bands@.len() - y,
    {
        let one = &bands[y];
        proof {
            assert((y + 1) * w == y * w + w) by (nonlinear_arith);
            assert((y + 1) * w <= geom.rows * w) by (nonlinear_arith)
                requires
                    y + 1 <= geom.rows,
                    w >= 0,
            ;
        }
        let mut k: usize = 0;
        while k < one.len()
            invariant
                k <= one@.len(),
                one@ == spec_band(image, *geom, matte, y as int),
                w == 8 * geom.cols,
                all == spec_dots(image, *geom, matte),
                0 <= y * w,
                y * w + w <= all.len(),
                out@ =~= all.take(y * w + k),
            decreases one@.len() - k,
        {
            out.push(one[k]);
            k = k + 1;
        }
        y = y + 1;
    }
    out
}

/// Is this dot dark enough (or, inverted, bright enough) to be ink?
fn is_ink(luma: Double, threshold: Double, invert: bool) -> (r: bool)
    ensures
        r == spec_is_ink(luma, threshold, invert),
{
    if invert {
        threshold.less(luma)
    } else {
        luma.less(threshold)
    }
}

/// Which dots are ink under a hard cutoff.
pub fn cut(dots: &Vec<Sample>, t: u8, invert: bool, threshold: u8) -> (r: Vec<bool>)
    ensures
        r@ == spec_cut(dots@, t, invert, threshold),
{
    let mut out: Vec<bool> = Vec::new();
    let limit = Double::from_u64(t as u64);
    let mut i: usize = 0;
    while i < dots.len()
        invariant
            i <= dots@.len(),
            limit == Double::from_u64(t as u64),
            out@ =~= spec_cut(dots@, t, invert, threshold).take(i as int),
        decreases dots@.len() - i,
    {
        let d = dots[i];
        out.push(d.alpha >= threshold && is_ink(d.luma, limit, invert));
        i = i + 1;
    }
    out
}

/// Adds a share of an error to the dot in column `x` of row `y`, if there is one.
fn nudge(levels: &mut Vec<Single>, w: u64, h: u64, x: u64, y: u64, share: Single)
    requires
        old(levels)@.len() == w * h,
    ensures
        final(levels)@ == nudged(old(levels)@, w as int, h as int, x as int, y as int, share),
        final(levels)@.len() == w * h,
{
    if x < w && y < h {
        let ghost n = levels.len();
        assert(0 <= y * w && y * w + x < w * h) by (nonlinear_arith)
            requires
                0 <= x < w,
                0 <= y,
                y + 1 <= h,
        ;
        assert(n == levels@.len());
        let at = (y * w + x) as usize;
        let level = levels[at].plus(share);
        levels.set(at, level);
    }
}

/// Floyd-Steinberg error diffusion over the grid of dots.
///
/// A single global cutoff would flatten every region that sits well to one side
/// of it. Diffusing the quantization error keeps local structure and average
/// tone, at the cost of a sequential pass.
pub fn dither(dots: &Vec<Sample>, w: u64, h: u64, invert: bool, threshold: u8) -> (r: Vec<bool>)
    requires
        dots@.len() == w * h,
        w < u64::MAX,
        h < u64::MAX,
    ensures
        r@ == dithered(dots@, w as int, h as int, invert, threshold, dots@.len()).1,
        r@.len() == dots@.len(),
{
    let ghost (gw, gh) = (w as int, h as int);
    let mut levels: Vec<Single> = Vec::new();
    let mut lit: Vec<bool> = Vec::new();
    let mut k: usize = 0;
    let ghost start = dithered(dots@, gw, gh, invert, threshold, 0);
    while k < dots.len()
        invariant
            k <= dots@.len(),
            start == dithered(dots@, gw, gh, invert, threshold, 0),
            levels@ =~= start.0.take(k as int),
            lit@ =~= start.1.take(k as int),
        decreases dots@.len() - k,
    {
        let luma = dots[k].luma.to_single();
        levels.push(
            if invert {
                Single { bits: LIGHT }.minus(luma)
            } else {
                luma
            },
        );
        lit.push(false);
        k = k + 1;
    }
    assert(levels@ =~= start.0);
    assert(lit@ =~= start.1);
    let mut i: usize = 0;
    while i < dots.len()
        invariant
            i <= dots@.len(),
            dots@.len() == w * h,
            gw == w,
            gh == h,
            w < u64::MAX,
            h < u64::MAX,
            levels@.len() == dots@.len(),
            lit@.len() == dots@.len(),
            levels@ == dithered(dots@, gw, gh, invert, threshold, i as nat).0,
            lit@ == dithered(dots@, gw, gh, invert, threshold, i as nat).1,
        decreases dots@.len() - i,
    {
        assert(w > 0) by (nonlinear_arith)
            requires
                i < w * h,
                i >= 0,
                w >= 0,
        ;
        if dots[i].alpha >= threshold {
            let x = i as u64 % w;
            let y = i as u64 / w;
            proof {
                lemma_fundamental_div_mod(i as int, gw);
                assert(y < h) by (nonlinear_arith)
                    requires
                        i == gw * y + x,
                        x >= 0,
                        i < w * h,
                        gw == w,
                        w > 0,
                ;
            }
            let level = levels[i];
            let on = level.less(Single { bits: PIVOT });
            lit.set(i, on);
            let error = level.minus(
                Single {
                    bits: if on {
                        0
                    } else {
                        LIGHT
                    },
                },
            );
            nudge(&mut levels, w, h, x + 1, y, error.times(Single { bits: RIGHT }));
            if x > 0 {
                nudge(&mut levels, w, h, x - 1, y + 1, error.times(Single { bits: DOWN_LEFT }));
            }
            nudge(&mut levels, w, h, x, y + 1, error.times(Single { bits: DOWN }));
            nudge(&mut levels, w, h, x + 1, y + 1, error.times(Single { bits: DOWN_RIGHT }));
        }
        i = i + 1;
    }
    lit
}

/// Bit for the dot at column `dx` (0 or 1), row `dy` (0 to 3).
pub fn dot_bit(dx: u32, dy: u32) -> (r: u8)
    ensures
        r == spec_dot_bit(dx, dy),
{
    match (dx, dy) {
        (0, 0) => 0x01,
        (0, 1) => 0x02,
        (0, 2) => 0x04,
        (0, 3) => 0x40,
        (1, 0) => 0x08,
        (1, 1) => 0x10,
        (1, 2) => 0x20,
        _ => 0x80,
    }
}

/// The braille pattern (U+2800 to U+28FF) for a set of dot bits.
pub fn braille_char(bits: u8) -> (r: char)
    ensures
        r == spec_braille_char(bits),
{
    match char::from_u32(0x2800 + bits as u32) {
        Some(c) => {
            assert(c as int == 0x2800 + bits);
            c
        },
        // The braille block holds no surrogates.
        None => ' ',
    }
}

/// Dots lie inside the grid of dots.
pub proof fn lemma_dot_index(cols: u32, rows: u32, row: int, col: int, k: int)
    requires
        0 <= row < rows,
        0 <= col < cols,
        0 <= k < 8,
    ensures
        0 <= dot_index(cols, row, col, k) < rows * (8 * cols),
        (row * 4 + k / 2) * (2 * cols) >= 0,
{
    let y = row * 4 + k / 2;
    let x = col * 2 + k % 2;
    assert(0 <= y * (2 * cols) && y * (2 * cols) + x < rows * (8 * cols)) by (nonlinear_arith)
        requires
            0 <= y,
            y + 1 <= 4 * rows,
            0 <= x < 2 * cols,
    ;
}

/// One row of a braille conversion.
pub fn braille_row(
    dots: &Vec<Sample>,
    lit: &Vec<bool>,
    threshold: u8,
    geom: &Geometry,
    row: u32,
) -> (out: Row)
    requires
        row < geom.rows,
        dots@.len() == geom.rows * (8 * geom.cols),
        lit@.len() == dots@.len(),
    ensures
        out.wf(geom.cols),
        forall|col: int|
            0 <= col < geom.cols ==> #[trigger] out.cell(col) == spec_braille_cell(
                dots@,
                lit@,
                threshold,
                geom.cols,
                row as int,
                col,
            ),
{
    let cols = geom.cols;
    let mut out = Row::new();
    let mut col: u32 = 0;
    while col < cols
        invariant
            cols == geom.cols,
            row < geom.rows,
            dots@.len() == geom.rows * (8 * geom.cols),
            lit@.len() == dots@.len(),
            col <= cols,
            out.wf(col),
            forall|c: int|
                0 <= c < col ==> #[trigger] out.cell(c) == spec_braille_cell(
                    dots@,
                    lit@,
                    threshold,
                    cols,
                    row as int,
                    c,
                ),
        decreases cols - col,
    {
        let mut bits: u8 = 0;
        let mut red: u32 = 0;
        let mut green: u32 = 0;
        let mut blue: u32 = 0;
        let mut alphas: u32 = 0;
        let mut k: u32 = 0;
        while k < 8
            invariant
                cols == geom.cols,
                row < geom.rows,
                col < cols,
                dots@.len() == geom.rows * (8 * geom.cols),
                lit@.len() == dots@.len(),
                k <= 8,
                bits == cell_bits(lit@, cols, row as int, col as int, k as nat),
                red == dot_sum(dots@, cols, row as int, col as int, 0, k as nat),
                green == dot_sum(dots@, cols, row as int, col as int, 1, k as nat),
                blue == dot_sum(dots@, cols, row as int, col as int, 2, k as nat),
                alphas == dot_sum(dots@, cols, row as int, col as int, 3, k as nat),
                red <= 255 * k,
                green <= 255 * k,
                blue <= 255 * k,
                alphas <= 255 * k,
            decreases 8 - k,
        {
            proof {
                lemma_dot_index(cols, geom.rows, row as int, col as int, k as int);
                assert(dots@.len() == dots.len());
            }
            let dx = k % DOT_COLS;
            let dy = k / DOT_COLS;
            let at = ((row as u128 * 4 + dy as u128) * (2 * cols as u128) + (col as u128 * 2
                + dx as u128)) as usize;
            if lit[at] {
                bits = bits | dot_bit(dx, dy);
            }
            let d = dots[at];
            red = red + d.color[0] as u32;
            green = green + d.color[1] as u32;
            blue = blue + d.color[2] as u32;
            alphas = alphas + d.alpha as u32;
            k = k + 1;
        }
        let alpha = (alphas / 8) as u8;
        let ch = if bits == 0 || alpha < threshold {
            ' '
        } else {
            braille_char(bits)
        };
        let color = [(red / 8) as u8, (green / 8) as u8, (blue / 8) as u8];
        let cell = Cell { ch, color, alpha };
        assert(color =~= spec_braille_cell(
            dots@,
            lit@,
            threshold,
            cols,
            row as int,
            col as int,
        ).color);
        out.push(cell);
        col = col + 1;
    }
    out
}

} // verus!
