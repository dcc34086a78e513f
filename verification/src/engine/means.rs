//! What colors are averaged to.

use crate::charset::Charset;
use crate::engine;
use crate::engine::braille;
use crate::engine::geometry;
use crate::engine::geometry::Span;
use crate::engine::sampling;
use crate::engine::sampling::Sample;
use crate::engine::Options;
use crate::float::Single;
use crate::pixels::RgbaImage;
use vstd::arithmetic::div_mod::*;
use vstd::prelude::*;

verus! {

/// The sum of `f` over the first `n` pixels of a rectangle that starts at (`x0`, `y0`) and is
/// `w` pixels wide, counted row by row.
pub open spec fn total(f: spec_fn(int, int) -> int, x0: int, y0: int, w: int, n: nat) -> int
    decreases n,
{
    if n == 0 {
        0
    } else {
        total(f, x0, y0, w, (n - 1) as nat) + f(x0 + (n - 1) % w, y0 + (n - 1) / w)
    }
}

/// The sum of `f` over the pixels of a rectangle.
pub open spec fn over_span(f: spec_fn(int, int) -> int, span: Span) -> int {
    let (w, h) = (span.x1 - span.x0, span.y1 - span.y0);
    total(f, span.x0 as int, span.y0 as int, w, (w * h) as nat)
}

/// The alpha of each pixel.
pub open spec fn alphas(image: &RgbaImage) -> spec_fn(int, int) -> int {
    |x: int, y: int| image.pixel(x, y)[3] as int
}

/// A channel of each pixel, weighted by its alpha.
pub open spec fn weighted(image: &RgbaImage, c: int) -> spec_fn(int, int) -> int {
    |x: int, y: int| image.pixel(x, y)[c] as int * image.pixel(x, y)[3] as int
}

/// A channel of each pixel composited over a matte, out of 255 * 255.
pub open spec fn composited(image: &RgbaImage, c: int, matte: u8) -> spec_fn(int, int) -> int {
    |x: int, y: int|
        image.pixel(x, y)[c] as int * image.pixel(x, y)[3] as int + matte as int * (255
            - image.pixel(x, y)[3])
}

/// Whether `mean` is `sum / count`, cut to a whole number.
pub open spec fn cut_mean(mean: int, sum: int, count: int) -> bool {
    mean * count <= sum < (mean + 1) * count
}

/// One row more.
proof fn lemma_row(
    image: &RgbaImage,
    c: int,
    f: spec_fn(int, int) -> int,
    x0: int,
    y0: int,
    w: int,
    k: nat,
    n: nat,
)
    requires
        w > 0,
        n <= w,
        forall|x: int, y: int| #[trigger] f(x, y) == sampling::weight(image, c, x, y),
    ensures
        total(f, x0, y0, w, (k * w + n) as nat) == total(f, x0, y0, w, (k * w) as nat)
            + sampling::row_sum(image, c, y0 + k, x0, x0 + n),
    decreases n,
{
    assert(k * w >= 0) by (nonlinear_arith)
        requires
            w > 0,
            k >= 0,
    ;
    if n > 0 {
        lemma_row(image, c, f, x0, y0, w, k, (n - 1) as nat);
        let i = k * w + n - 1;
        lemma_fundamental_div_mod_converse(i, w, k as int, n - 1);
    }
}

/// Rows in rows out, or pixel by pixel: the sum is the same.
proof fn lemma_area(
    image: &RgbaImage,
    c: int,
    f: spec_fn(int, int) -> int,
    x0: int,
    y0: int,
    w: int,
    k: nat,
)
    requires
        w > 0,
        forall|x: int, y: int| #[trigger] f(x, y) == sampling::weight(image, c, x, y),
    ensures
        total(f, x0, y0, w, (k * w) as nat) == sampling::area_sum(image, c, x0, x0 + w, y0, y0 + k),
    decreases k,
{
    if k > 0 {
        lemma_area(image, c, f, x0, y0, w, (k - 1) as nat);
        lemma_row(image, c, f, x0, y0, w, (k - 1) as nat, w as nat);
        assert(k * w == (k - 1) * w + w) by (nonlinear_arith);
    } else {
        assert(k * w == 0) by (nonlinear_arith)
            requires
                k == 0,
        ;
    }
}

/// Compositing is linear.
proof fn lemma_composited(image: &RgbaImage, c: int, m: u8, x0: int, y0: int, w: int, n: nat)
    ensures
        total(composited(image, c, m), x0, y0, w, n) == total(weighted(image, c), x0, y0, w, n)
            + m * (255 * n - total(alphas(image), x0, y0, w, n)),
    decreases n,
{
    if n > 0 {
        lemma_composited(image, c, m, x0, y0, w, (n - 1) as nat);
        let a = total(alphas(image), x0, y0, w, (n - 1) as nat);
        let p = image.pixel(x0 + (n - 1) % w, y0 + (n - 1) / w)[3] as int;
        assert(m * (255 * n - (a + p)) == m * (255 * (n - 1) - a) + m * (255 - p))
            by (nonlinear_arith);
    } else {
        assert(m * 0 == 0) by (nonlinear_arith);
    }
}

/// The sums of a rectangle.
proof fn lemma_sums(image: &RgbaImage, span: Span, c: int)
    requires
        span.x0 < span.x1,
        span.y0 < span.y1,
        0 <= c < 3,
    ensures
        sampling::span_sum(image, 3, span) == over_span(alphas(image), span),
        sampling::span_sum(image, c, span) == over_span(weighted(image, c), span),
        sampling::span_count(span) == (span.x1 - span.x0) * (span.y1 - span.y0),
        sampling::span_count(span) > 0,
        sampling::span_sum(image, c, span) <= 255 * sampling::span_sum(image, 3, span),
        sampling::span_sum(image, 3, span) <= 255 * sampling::span_count(span),
{
    let (w, h) = (span.x1 - span.x0, span.y1 - span.y0);
    let (x0, y0) = (span.x0 as int, span.y0 as int);
    assert(w * h == h * w && h * w > 0) by (nonlinear_arith)
        requires
            w > 0,
            h > 0,
    ;
    lemma_area(image, 3, alphas(image), x0, y0, w, h as nat);
    lemma_area(image, c, weighted(image, c), x0, y0, w, h as nat);
    sampling::lemma_area_sum(image, c, x0, x0 + w, y0, y0 + h);
}

/// A quotient cuts a mean.
proof fn lemma_cut(sum: int, count: int)
    requires
        count > 0,
        sum >= 0,
    ensures
        cut_mean(sum / count, sum, count),
{
    lemma_fundamental_div_mod(sum, count);
    let q = sum / count;
    assert((q + 1) * count == count * q + count && q * count == count * q) by (nonlinear_arith);
}

/// The color of a rectangle is the mean of its pixels, cut to whole numbers: of what they look
/// like over the matte, where there is one; else of the colors weighted by alpha. Its alpha
/// is the mean of the alphas.
pub proof fn law_samples_are_means(image: &RgbaImage, span: Span, matte: Option<[u8; 3]>, c: int)
    requires
        span.x0 < span.x1,
        span.y0 < span.y1,
        0 <= c < 3,
    ensures
        ({
            let s = sampling::spec_sample(image, span, matte);
            let n = (span.x1 - span.x0) * (span.y1 - span.y0);
            let a = over_span(alphas(image), span);
            &&& cut_mean(s.alpha as int, a, n)
            &&& match matte {
                Some(m) => cut_mean(
                    s.color[c] as int,
                    over_span(composited(image, c, m[c]), span),
                    255 * n,
                ),
                None => if a == 0 {
                    s.color[c] == 0
                } else {
                    cut_mean(s.color[c] as int, over_span(weighted(image, c), span), a)
                },
            }
        }),
{
    let (w, h) = (span.x1 - span.x0, span.y1 - span.y0);
    let n = sampling::span_count(span);
    let a = sampling::span_sum(image, 3, span);
    let sum = sampling::span_sum(image, c, span);
    lemma_sums(image, span, c);
    sampling::lemma_mean_channel(sum, a, n, sampling::matte_channel(matte, c));
    lemma_cut(a as int, n as int);
    assert(sampling::mean_color(image, span, matte)[c] == sampling::mean_channel(
        sum,
        a,
        n,
        sampling::matte_channel(matte, c),
    ) as u8);
    match matte {
        Some(m) => {
            lemma_composited(image, c, m[c], span.x0 as int, span.y0 as int, w, (w * h) as nat);
            let clear = (255 * n - a) as nat;
            let mm = m[c] as nat;
            assert(mm * clear >= 0) by (nonlinear_arith)
                requires
                    mm >= 0,
                    clear >= 0,
            ;
            assert(mm * clear == m[c] * (255 * n - a));
            lemma_cut((sum + mm * clear) as int, (255 * n) as int);
        },
        None => {
            if a > 0 {
                lemma_cut(sum as int, a as int);
            }
        },
    }
}

/// A cell of a ramp conversion has the mean color and alpha of its source pixels; the
/// character is the one of the ramp at the index of the luma of that color, or a blank where
/// the alpha is below the threshold.
pub proof fn law_ramp_cells_show_their_pixels(
    image: &RgbaImage,
    opts: &Options,
    ramp: Vec<char>,
    row: int,
    col: int,
    c: int,
)
    requires
        opts.charset == Charset::Ramp(ramp),
        image.width() > 0,
        image.height() > 0,
        0 <= row < engine::grid_geometry(image, opts).rows,
        0 <= col < engine::grid_geometry(image, opts).cols,
        0 <= c < 3,
    ensures
        ({
            let cell = engine::spec_cell(image, opts, row, col);
            let span = engine::grid_geometry(image, opts).span(row as u32, col as u32);
            let n = (span.x1 - span.x0) * (span.y1 - span.y0);
            let a = over_span(alphas(image), span);
            &&& n > 0
            &&& cut_mean(cell.alpha as int, a, n)
            &&& match opts.matte {
                Some(m) => cut_mean(
                    cell.color[c] as int,
                    over_span(composited(image, c, m[c]), span),
                    255 * n,
                ),
                None => if a == 0 {
                    cell.color[c] == 0
                } else {
                    cut_mean(cell.color[c] as int, over_span(weighted(image, c), span), a)
                },
            }
            &&& cell.alpha < opts.alpha_threshold ==> cell.ch == ' '
            &&& cell.alpha >= opts.alpha_threshold ==> cell.ch == ramp@[engine::ramp_index(
                sampling::spec_luma(cell.color),
                ramp@.len() as usize,
                opts.invert,
            ) as int]
        }),
{
    let g = engine::grid_geometry(image, opts);
    geometry::lemma_fits(image.width(), image.height(), opts.width, opts.aspect);
    geometry::lemma_span(g, row as u32, col as u32);
    let span = g.span(row as u32, col as u32);
    law_samples_are_means(image, span, opts.matte, c);
    lemma_sums(image, span, c);
}

/// The eight terms of a sum over the dots of a cell.
proof fn lemma_eight(dots: Seq<Sample>, cols: u32, row: int, col: int, c: int)
    requires
        0 <= c <= 3,
    ensures
        ({
            let at = |k: int| dots[braille::dot_index(cols, row, col, k)];
            let v = |k: int|
                if c == 3 {
                    at(k).alpha as int
                } else {
                    at(k).color[c] as int
                };
            &&& braille::dot_sum(dots, cols, row, col, c, 8) == v(0) + v(1) + v(2) + v(3) + v(4) + v(5)
                + v(6) + v(7)
            &&& braille::dot_sum(dots, cols, row, col, c, 8) <= 8 * 255
        }),
{
    reveal_with_fuel(braille::dot_sum, 9);
}

/// A cell of a braille conversion has the mean color and alpha of its eight dots, cut to whole
/// numbers. Each dot has those of its own source pixels.
#[verifier::spinoff_prover]
#[verifier::rlimit(40)]
pub proof fn law_braille_cells_show_their_dots(
    image: &RgbaImage,
    opts: &Options,
    row: int,
    col: int,
    c: int,
)
    requires
        opts.charset is Braille,
        0 <= row < engine::grid_geometry(image, opts).rows,
        0 <= col < engine::grid_geometry(image, opts).cols,
        0 <= c < 3,
    ensures
        ({
            let cell = engine::spec_cell(image, opts, row, col);
            let span = engine::grid_geometry(image, opts).span(row as u32, col as u32);
            let dot = |dx: int, dy: int|
                sampling::spec_sample(image, braille::dot_span(span, dx, dy), opts.matte);
            &&& cut_mean(
                cell.alpha as int,
                dot(0, 0).alpha + dot(1, 0).alpha + dot(0, 1).alpha + dot(1, 1).alpha + dot(
                    0,
                    2,
                ).alpha + dot(1, 2).alpha + dot(0, 3).alpha + dot(1, 3).alpha,
                8,
            )
            &&& cut_mean(
                cell.color[c] as int,
                dot(0, 0).color[c] + dot(1, 0).color[c] + dot(0, 1).color[c] + dot(1, 1).color[c]
                    + dot(0, 2).color[c] + dot(1, 2).color[c] + dot(0, 3).color[c] + dot(
                    1,
                    3,
                ).color[c],
                8,
            )
            &&& cell.alpha < opts.alpha_threshold ==> cell.ch == ' '
        }),
{
    let g = engine::grid_geometry(image, opts);
    let dots = braille::spec_dots(image, g, opts.matte);
    let (cols, m) = (g.cols, opts.matte);
    engine::exact::lemma_dot(image, g, m, row, col, 0, 0);
    engine::exact::lemma_dot(image, g, m, row, col, 1, 0);
    engine::exact::lemma_dot(image, g, m, row, col, 0, 1);
    engine::exact::lemma_dot(image, g, m, row, col, 1, 1);
    engine::exact::lemma_dot(image, g, m, row, col, 0, 2);
    engine::exact::lemma_dot(image, g, m, row, col, 1, 2);
    engine::exact::lemma_dot(image, g, m, row, col, 0, 3);
    engine::exact::lemma_dot(image, g, m, row, col, 1, 3);
    lemma_eight(dots, cols, row, col, c);
    lemma_eight(dots, cols, row, col, 3);
    let sum = braille::dot_sum(dots, cols, row, col, c, 8);
    let alpha = braille::dot_sum(dots, cols, row, col, 3, 8);
    lemma_cut(sum as int, 8);
    lemma_cut(alpha as int, 8);
}

/// An image can be converted if and only if it has pixels, the ramp, if there is one, has two
/// characters, and the aspect is a number above zero.
pub proof fn law_what_can_be_converted(image: &RgbaImage, opts: &Options)
    ensures
        (engine::convert_error(image, opts) is None) == (image.width() > 0 && image.height() > 0 && (
        opts.charset matches Charset::Ramp(ramp) ==> ramp@.len() >= 2) && 0 < opts.aspect.bits
            < 0x7f80_0000),
{
    reveal(Single::spec_is_finite);
    reveal(Single::spec_is_nan);
    reveal(Single::spec_less);
}

} // verus!
