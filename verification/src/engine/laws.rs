//! What holds of every conversion.

use crate::charset::Charset;
use crate::engine;
use crate::engine::braille;
use crate::engine::geometry;
use crate::engine::geometry::{Geometry, Span};
use crate::engine::sampling;
use crate::engine::sampling::Sample;
use crate::engine::{AsciiGrid, Options, FULL};
use crate::float;
use crate::float::order;
use crate::float::ratio;
use crate::float::{Double, Single};
use crate::pixels::RgbaImage;
use vstd::arithmetic::div_mod::*;
use vstd::arithmetic::power2::*;
use vstd::prelude::*;

verus! {

/// Whether every pixel of an image is opaque.
pub open spec fn opaque(image: &RgbaImage) -> bool {
    forall|x: int, y: int|
        0 <= x < image.width() && 0 <= y < image.height() ==> #[trigger] image.pixel(x, y)[3]
            == 255
}

/// Whether two sets of options ask for the same conversion, but for the matte.
pub open spec fn alike_but_matte(a: &Options, b: &Options) -> bool {
    &&& a.width == b.width
    &&& a.charset == b.charset
    &&& a.invert == b.invert
    &&& a.aspect == b.aspect
    &&& a.alpha_threshold == b.alpha_threshold
    &&& a.braille_threshold == b.braille_threshold
}

proof fn lemma_opaque_row(image: &RgbaImage, y: int, x0: int, x1: int)
    requires
        opaque(image),
        0 <= x0 <= x1 <= image.width(),
        0 <= y < image.height(),
    ensures
        sampling::row_sum(image, 3, y, x0, x1) == 255 * (x1 - x0),
    decreases x1 - x0,
{
    if x0 < x1 {
        lemma_opaque_row(image, y, x0, x1 - 1);
        assert(image.pixel(x1 - 1, y)[3] == 255);
    }
}

proof fn lemma_opaque_area(image: &RgbaImage, x0: int, x1: int, y0: int, y1: int)
    requires
        opaque(image),
        0 <= x0 <= x1 <= image.width(),
        0 <= y0 <= y1 <= image.height(),
    ensures
        sampling::area_sum(image, 3, x0, x1, y0, y1) == 255 * ((y1 - y0) * (x1 - x0)),
    decreases y1 - y0,
{
    if y0 < y1 {
        lemma_opaque_area(image, x0, x1, y0, y1 - 1);
        lemma_opaque_row(image, y1 - 1, x0, x1);
        assert((y1 - y0) * (x1 - x0) == (y1 - 1 - y0) * (x1 - x0) + (x1 - x0)) by (nonlinear_arith);
    } else {
        assert((y1 - y0) * (x1 - x0) == 0) by (nonlinear_arith)
            requires
                y1 == y0,
        ;
    }
}

/// A rectangle of opaque pixels has alpha 255 and the same mean over every matte.
pub proof fn law_opaque_sample(
    image: &RgbaImage,
    span: Span,
    a: Option<[u8; 3]>,
    b: Option<[u8; 3]>,
)
    requires
        opaque(image),
        span.within(image.width(), image.height()),
    ensures
        sampling::spec_sample(image, span, a) == sampling::spec_sample(image, span, b),
        sampling::spec_sample(image, span, a).alpha == 255,
{
    let count = sampling::span_count(span);
    let alphas = sampling::span_sum(image, 3, span);
    lemma_opaque_area(
        image,
        span.x0 as int,
        span.x1 as int,
        span.y0 as int,
        span.y1 as int,
    );
    assert((span.y1 - span.y0) * (span.x1 - span.x0) > 0) by (nonlinear_arith)
        requires
            span.x0 < span.x1,
            span.y0 < span.y1,
    ;
    assert(alphas == 255 * count);
    lemma_div_by_multiple(255, count as int);
    assert(sampling::mean_color(image, span, a) =~= sampling::mean_color(image, span, b)) by {
        lemma_no_clear(a, 0);
        lemma_no_clear(a, 1);
        lemma_no_clear(a, 2);
        lemma_no_clear(b, 0);
        lemma_no_clear(b, 1);
        lemma_no_clear(b, 2);
    }
}

/// A matte weighs nothing where nothing is clear.
proof fn lemma_no_clear(matte: Option<[u8; 3]>, c: int)
    ensures
        match sampling::matte_channel(matte, c) {
            Some(m) => m as nat * 0 == 0,
            None => true,
        },
{
}

/// Opaque images are unaffected by the matte: two conversions that differ in
/// nothing else give the same cells.
pub proof fn law_opaque_images_ignore_the_matte(
    image: &RgbaImage,
    a: &Options,
    b: &Options,
    row: int,
    col: int,
)
    requires
        image.wf(),
        opaque(image),
        engine::convert_error(image, a) is None,
        alike_but_matte(a, b),
        0 <= row < engine::grid_geometry(image, a).rows,
        0 <= col < engine::grid_geometry(image, a).cols,
    ensures
        engine::spec_cell(image, a, row, col) == engine::spec_cell(image, b, row, col),
{
    let g = engine::grid_geometry(image, a);
    geometry::lemma_fits(image.width(), image.height(), a.width, a.aspect);
    match a.charset {
        Charset::Ramp(_) => {
            geometry::lemma_span(g, row as u32, col as u32);
            law_opaque_sample(image, g.span(row as u32, col as u32), a.matte, b.matte);
        },
        Charset::Braille => {
            let x = braille::spec_dots(image, g, a.matte);
            let y = braille::spec_dots(image, g, b.matte);
            assert forall|i: int| 0 <= i < x.len() implies x[i] == y[i] by {
                let span = braille::lemma_dot_span(g, i);
                law_opaque_sample(image, span, a.matte, b.matte);
            }
            assert(x =~= y);
        },
    }
}

/// Eight dots of alpha 255 sum to eight times that.
pub proof fn lemma_opaque_dots(dots: Seq<Sample>, cols: u32, row: int, col: int, n: nat)
    requires
        n <= 8,
        forall|k: int|
            0 <= k < n ==> dots[#[trigger] braille::dot_index(cols, row, col, k)].alpha == 255,
    ensures
        braille::dot_sum(dots, cols, row, col, 3, n) == 255 * n,
    decreases n,
{
    if n > 0 {
        lemma_opaque_dots(dots, cols, row, col, (n - 1) as nat);
        assert(dots[braille::dot_index(cols, row, col, n - 1)].alpha == 255);
    }
}

/// Opaque images have alpha 255 in every cell, so structured output says nothing
/// of transparency.
pub proof fn law_opaque_images_have_no_alpha(grid: &AsciiGrid, image: &RgbaImage, opts: &Options)
    requires
        image.wf(),
        opaque(image),
        engine::convert_error(image, opts) is None,
        engine::is_conversion(grid, image, opts),
    ensures
        forall|i: int| 0 <= i < grid.alphas@.len() ==> #[trigger] grid.alphas@[i] == 255,
        !grid.has_alpha(),
{
    let g = engine::grid_geometry(image, opts);
    geometry::lemma_fits(image.width(), image.height(), opts.width, opts.aspect);
    assert forall|i: int| 0 <= i < grid.alphas@.len() implies #[trigger] grid.alphas@[i] == 255 by {
        let (row, col) = (i / g.cols as int, i % g.cols as int);
        lemma_fundamental_div_mod(i, g.cols as int);
        assert(row * g.cols + col == i && 0 <= row < g.rows && 0 <= col < g.cols)
            by (nonlinear_arith)
            requires
                i == g.cols as int * row + col,
                0 <= i < g.rows * g.cols,
                row == i / g.cols as int,
                col == i % g.cols as int,
                g.cols > 0,
        ;
        assert(grid.cell(row, col).alpha == engine::spec_cell(image, opts, row, col).alpha);
        match opts.charset {
            Charset::Ramp(_) => {
                geometry::lemma_span(g, row as u32, col as u32);
                law_opaque_sample(image, g.span(row as u32, col as u32), opts.matte, opts.matte);
            },
            Charset::Braille => {
                let dots = braille::spec_dots(image, g, opts.matte);
                assert forall|k: int| 0 <= k < 8 implies dots[#[trigger] braille::dot_index(
                    g.cols,
                    row,
                    col,
                    k,
                )].alpha == 255 by {
                    let at = braille::dot_index(g.cols, row, col, k);
                    braille::lemma_dot_index(g.cols, g.rows, row, col, k);
                    let span = braille::lemma_dot_span(g, at);
                    law_opaque_sample(image, span, opts.matte, opts.matte);
                }
                lemma_opaque_dots(dots, g.cols, row, col, 8);
            },
        }
    }
}

/// Whether two images look the same: they differ at most in the colors of pixels
/// that are fully transparent.
pub open spec fn look_alike(a: &RgbaImage, b: &RgbaImage) -> bool {
    &&& a.width() == b.width()
    &&& a.height() == b.height()
    &&& forall|x: int, y: int|
        0 <= x < a.width() && 0 <= y < a.height() ==> {
            let (p, q) = (#[trigger] a.pixel(x, y), b.pixel(x, y));
            p[3] == q[3] && (p[3] > 0 ==> p == q)
        }
}

proof fn lemma_alike_row(a: &RgbaImage, b: &RgbaImage, c: int, y: int, x0: int, x1: int)
    requires
        look_alike(a, b),
        0 <= c <= 3,
        0 <= x0 <= x1 <= a.width(),
        0 <= y < a.height(),
    ensures
        sampling::row_sum(a, c, y, x0, x1) == sampling::row_sum(b, c, y, x0, x1),
    decreases x1 - x0,
{
    if x0 < x1 {
        lemma_alike_row(a, b, c, y, x0, x1 - 1);
        let (p, q) = (a.pixel(x1 - 1, y), b.pixel(x1 - 1, y));
        assert(p[c] as nat * p[3] as nat == q[c] as nat * q[3] as nat) by {
            if p[3] == 0 {
                assert(p[c] as nat * 0 == 0 && q[c] as nat * 0 == 0);
            }
        }
    }
}

proof fn lemma_alike_area(a: &RgbaImage, b: &RgbaImage, c: int, x0: int, x1: int, y0: int, y1: int)
    requires
        look_alike(a, b),
        0 <= c <= 3,
        0 <= x0 <= x1 <= a.width(),
        0 <= y0 <= y1 <= a.height(),
    ensures
        sampling::area_sum(a, c, x0, x1, y0, y1) == sampling::area_sum(b, c, x0, x1, y0, y1),
    decreases y1 - y0,
{
    if y0 < y1 {
        lemma_alike_area(a, b, c, x0, x1, y0, y1 - 1);
        lemma_alike_row(a, b, c, y1 - 1, x0, x1);
    }
}

proof fn lemma_alike_sample(a: &RgbaImage, b: &RgbaImage, span: Span, matte: Option<[u8; 3]>)
    requires
        look_alike(a, b),
        span.within(a.width(), a.height()),
    ensures
        sampling::spec_sample(a, span, matte) == sampling::spec_sample(b, span, matte),
{
    let (x0, x1) = (span.x0 as int, span.x1 as int);
    let (y0, y1) = (span.y0 as int, span.y1 as int);
    lemma_alike_area(a, b, 0, x0, x1, y0, y1);
    lemma_alike_area(a, b, 1, x0, x1, y0, y1);
    lemma_alike_area(a, b, 2, x0, x1, y0, y1);
    lemma_alike_area(a, b, 3, x0, x1, y0, y1);
}

/// A transparent pixel cannot drag the mean toward whatever color sits behind it:
/// images that differ only in the colors of fully transparent pixels give the
/// same cells.
pub proof fn law_hidden_colors_do_not_show(
    a: &RgbaImage,
    b: &RgbaImage,
    opts: &Options,
    row: int,
    col: int,
)
    requires
        look_alike(a, b),
        engine::convert_error(a, opts) is None,
        0 <= row < engine::grid_geometry(a, opts).rows,
        0 <= col < engine::grid_geometry(a, opts).cols,
    ensures
        engine::grid_geometry(a, opts) == engine::grid_geometry(b, opts),
        engine::spec_cell(a, opts, row, col) == engine::spec_cell(b, opts, row, col),
{
    let g = engine::grid_geometry(a, opts);
    geometry::lemma_fits(a.width(), a.height(), opts.width, opts.aspect);
    match opts.charset {
        Charset::Ramp(_) => {
            geometry::lemma_span(g, row as u32, col as u32);
            lemma_alike_sample(a, b, g.span(row as u32, col as u32), opts.matte);
        },
        Charset::Braille => {
            let x = braille::spec_dots(a, g, opts.matte);
            let y = braille::spec_dots(b, g, opts.matte);
            assert forall|i: int| 0 <= i < x.len() implies x[i] == y[i] by {
                let span = braille::lemma_dot_span(g, i);
                lemma_alike_sample(a, b, span, opts.matte);
            }
            assert(x =~= y);
        },
    }
}

/// Whether every pixel of an image is opaque and has one color.
pub open spec fn flat(image: &RgbaImage, color: [u8; 3]) -> bool {
    forall|x: int, y: int|
        0 <= x < image.width() && 0 <= y < image.height() ==> #[trigger] image.pixel(x, y) == [
            color[0],
            color[1],
            color[2],
            255u8,
        ]
}

proof fn lemma_flat_row(image: &RgbaImage, color: [u8; 3], c: int, y: int, x0: int, x1: int)
    requires
        flat(image, color),
        0 <= c < 3,
        0 <= x0 <= x1 <= image.width(),
        0 <= y < image.height(),
    ensures
        sampling::row_sum(image, c, y, x0, x1) == color[c] * (255 * (x1 - x0)),
    decreases x1 - x0,
{
    if x0 < x1 {
        lemma_flat_row(image, color, c, y, x0, x1 - 1);
        assert(image.pixel(x1 - 1, y)[c] == color[c]);
        assert(image.pixel(x1 - 1, y)[3] == 255);
        let v = color[c] as int;
        assert(v * (255 * (x1 - x0)) == v * (255 * (x1 - 1 - x0)) + v * 255) by (nonlinear_arith);
    } else {
        assert(color[c] * (255 * (x1 - x0)) == 0) by (nonlinear_arith)
            requires
                x1 == x0,
        ;
    }
}

proof fn lemma_flat_area(
    image: &RgbaImage,
    color: [u8; 3],
    c: int,
    x0: int,
    x1: int,
    y0: int,
    y1: int,
)
    requires
        flat(image, color),
        0 <= c < 3,
        0 <= x0 <= x1 <= image.width(),
        0 <= y0 <= y1 <= image.height(),
    ensures
        sampling::area_sum(image, c, x0, x1, y0, y1) == color[c] * (255 * ((y1 - y0) * (x1
            - x0))),
    decreases y1 - y0,
{
    let v = color[c] as int;
    if y0 < y1 {
        lemma_flat_area(image, color, c, x0, x1, y0, y1 - 1);
        lemma_flat_row(image, color, c, y1 - 1, x0, x1);
        let (w, h) = (x1 - x0, y1 - y0);
        assert(v * (255 * (h * w)) == v * (255 * ((h - 1) * w)) + v * (255 * w))
            by (nonlinear_arith);
    } else {
        assert(v * (255 * ((y1 - y0) * (x1 - x0))) == 0) by (nonlinear_arith)
            requires
                y1 == y0,
        ;
    }
}

/// The mean of a rectangle of one opaque color is that color.
pub proof fn lemma_flat_sample(image: &RgbaImage, color: [u8; 3], span: Span, matte: Option<[u8; 3]>)
    requires
        flat(image, color),
        span.within(image.width(), image.height()),
    ensures
        sampling::spec_sample(image, span, matte) == (Sample {
            color,
            alpha: 255,
            luma: sampling::spec_luma(color),
        }),
{
    let (x0, x1) = (span.x0 as int, span.x1 as int);
    let (y0, y1) = (span.y0 as int, span.y1 as int);
    let count = sampling::span_count(span);
    assert(opaque(image));
    law_opaque_sample(image, span, matte, matte);
    lemma_opaque_area(image, x0, x1, y0, y1);
    assert((y1 - y0) * (x1 - x0) > 0) by (nonlinear_arith)
        requires
            x0 < x1,
            y0 < y1,
    ;
    assert forall|c: int| 0 <= c < 3 implies sampling::mean_channel(
        #[trigger] sampling::span_sum(image, c, span),
        255 * count,
        count,
        sampling::matte_channel(matte, c),
    ) == color[c] by {
        lemma_flat_area(image, color, c, x0, x1, y0, y1);
        lemma_no_clear(matte, c);
        lemma_div_by_multiple(color[c] as int, 255 * count as int);
    }
    assert(sampling::mean_color(image, span, matte) =~= color);
}

/// A picture of one opaque color comes out in that color: every cell has it, and
/// the ramp character of its luma.
pub proof fn law_flat_images_keep_their_color(
    image: &RgbaImage,
    color: [u8; 3],
    opts: &Options,
    row: int,
    col: int,
)
    requires
        flat(image, color),
        engine::convert_error(image, opts) is None,
        0 <= row < engine::grid_geometry(image, opts).rows,
        0 <= col < engine::grid_geometry(image, opts).cols,
    ensures
        engine::spec_cell(image, opts, row, col).color == color,
        engine::spec_cell(image, opts, row, col).alpha == 255,
        opts.charset matches Charset::Ramp(ramp) ==> engine::spec_cell(image, opts, row, col).ch
            == ramp@[engine::ramp_index(
            sampling::spec_luma(color),
            ramp@.len() as usize,
            opts.invert,
        ) as int],
{
    let g = engine::grid_geometry(image, opts);
    geometry::lemma_fits(image.width(), image.height(), opts.width, opts.aspect);
    match opts.charset {
        Charset::Ramp(_) => {
            geometry::lemma_span(g, row as u32, col as u32);
            lemma_flat_sample(image, color, g.span(row as u32, col as u32), opts.matte);
        },
        Charset::Braille => {
            let dots = braille::spec_dots(image, g, opts.matte);
            assert forall|k: int| 0 <= k < 8 implies ({
                let dot = dots[#[trigger] braille::dot_index(g.cols, row, col, k)];
                dot.alpha == 255 && dot.color == color
            }) by {
                let at = braille::dot_index(g.cols, row, col, k);
                braille::lemma_dot_index(g.cols, g.rows, row, col, k);
                let span = braille::lemma_dot_span(g, at);
                lemma_flat_sample(image, color, span, opts.matte);
            }
            lemma_opaque_dots(dots, g.cols, row, col, 8);
            lemma_flat_dots(dots, color, g.cols, row, col, 0, 8);
            lemma_flat_dots(dots, color, g.cols, row, col, 1, 8);
            lemma_flat_dots(dots, color, g.cols, row, col, 2, 8);
            assert(engine::spec_cell(image, opts, row, col).color =~= color);
        },
    }
}

/// Eight dots of one color sum to eight times that.
proof fn lemma_flat_dots(
    dots: Seq<Sample>,
    color: [u8; 3],
    cols: u32,
    row: int,
    col: int,
    c: int,
    n: nat,
)
    requires
        n <= 8,
        0 <= c < 3,
        forall|k: int|
            0 <= k < n ==> dots[#[trigger] braille::dot_index(cols, row, col, k)].color == color,
    ensures
        braille::dot_sum(dots, cols, row, col, c, n) == color[c] * n,
    decreases n,
{
    if n > 0 {
        lemma_flat_dots(dots, color, cols, row, col, c, (n - 1) as nat);
        assert(dots[braille::dot_index(cols, row, col, n - 1)].color == color);
        let v = color[c] as int;
        assert(v * n == v * (n - 1) + v) by (nonlinear_arith);
    } else {
        assert(color[c] * n == 0) by (nonlinear_arith)
            requires
                n == 0,
        ;
    }
}

/// Where the mean alpha of a cell is below the threshold, the cell is blank, whatever
/// the charset, the direction and the matte are.
pub proof fn law_transparent_cells_are_blank(
    image: &RgbaImage,
    opts: &Options,
    row: int,
    col: int,
)
    requires
        engine::spec_cell(image, opts, row, col).alpha < opts.alpha_threshold,
    ensures
        engine::spec_cell(image, opts, row, col).ch == ' ',
{
}

/// Dithering leaves dots below the alpha threshold off.
proof fn lemma_dither_off(
    dots: Seq<Sample>,
    w: int,
    h: int,
    invert: bool,
    threshold: u8,
    n: nat,
    i: int,
)
    requires
        0 <= i < dots.len(),
        n <= dots.len(),
        dots[i].alpha < threshold,
    ensures
        !braille::dithered(dots, w, h, invert, threshold, n).1[i],
        braille::dithered(dots, w, h, invert, threshold, n).1.len() == dots.len(),
    decreases n,
{
    if n > 0 {
        lemma_dither_off(dots, w, h, invert, threshold, (n - 1) as nat, i);
    }
}

/// Whether two sets of dots differ at most in the colors and lumas of dots below the
/// alpha threshold.
pub open spec fn dots_alike(a: Seq<Sample>, b: Seq<Sample>, threshold: u8) -> bool {
    &&& a.len() == b.len()
    &&& forall|i: int|
        0 <= i < a.len() ==> (#[trigger] a[i]).alpha == b[i].alpha && (a[i].alpha >= threshold
            ==> a[i] == b[i])
}

/// Whether two sets of levels agree at every dot that is not below the threshold.
spec fn levels_alike(a: Seq<Single>, b: Seq<Single>, dots: Seq<Sample>, threshold: u8) -> bool {
    &&& a.len() == dots.len()
    &&& b.len() == dots.len()
    &&& forall|i: int| 0 <= i < dots.len() && dots[i].alpha >= threshold ==> #[trigger] a[i] == b[i]
}

/// Passing a share of an error on keeps levels alike.
proof fn lemma_nudged_alike(
    a: Seq<Single>,
    b: Seq<Single>,
    dots: Seq<Sample>,
    threshold: u8,
    w: int,
    h: int,
    x: int,
    y: int,
    share: Single,
)
    requires
        levels_alike(a, b, dots, threshold),
        dots.len() == w * h,
    ensures
        levels_alike(
            braille::nudged(a, w, h, x, y, share),
            braille::nudged(b, w, h, x, y, share),
            dots,
            threshold,
        ),
{
    if 0 <= x < w && 0 <= y < h {
        assert(0 <= y * w + x < w * h) by (nonlinear_arith)
            requires
                0 <= x < w,
                0 <= y,
                y + 1 <= h,
        ;
    }
}

proof fn lemma_dithered_alike(
    a: Seq<Sample>,
    b: Seq<Sample>,
    w: int,
    h: int,
    invert: bool,
    threshold: u8,
    n: nat,
)
    requires
        dots_alike(a, b, threshold),
        a.len() == w * h,
        n <= a.len(),
    ensures
        levels_alike(
            braille::dithered(a, w, h, invert, threshold, n).0,
            braille::dithered(b, w, h, invert, threshold, n).0,
            a,
            threshold,
        ),
        braille::dithered(a, w, h, invert, threshold, n).1 == braille::dithered(
            b,
            w,
            h,
            invert,
            threshold,
            n,
        ).1,
    decreases n,
{
    let (la, lit) = braille::dithered(a, w, h, invert, threshold, n);
    let (lb, other) = braille::dithered(b, w, h, invert, threshold, n);
    if n == 0 {
        assert(lit =~= other);
    } else {
        let i = n - 1;
        lemma_dithered_alike(a, b, w, h, invert, threshold, i as nat);
        assert(a[i].alpha == b[i].alpha);
        if a[i].alpha >= threshold {
            let (p, _) = braille::dithered(a, w, h, invert, threshold, i as nat);
            let (q, _) = braille::dithered(b, w, h, invert, threshold, i as nat);
            assert(p[i] == q[i]);
            let on = p[i].less(Single { bits: braille::PIVOT });
            let error = p[i].minus(
                Single {
                    bits: if on {
                        0
                    } else {
                        braille::LIGHT
                    },
                },
            );
            let (x, y) = (i % w, i / w);
            let right = error.times(Single { bits: braille::RIGHT });
            let down_left = error.times(Single { bits: braille::DOWN_LEFT });
            let down = error.times(Single { bits: braille::DOWN });
            let down_right = error.times(Single { bits: braille::DOWN_RIGHT });
            lemma_nudged_alike(p, q, a, threshold, w, h, x + 1, y, right);
            let (p, q) = (
                braille::nudged(p, w, h, x + 1, y, right),
                braille::nudged(q, w, h, x + 1, y, right),
            );
            lemma_nudged_alike(p, q, a, threshold, w, h, x - 1, y + 1, down_left);
            let (p, q) = (
                braille::nudged(p, w, h, x - 1, y + 1, down_left),
                braille::nudged(q, w, h, x - 1, y + 1, down_left),
            );
            lemma_nudged_alike(p, q, a, threshold, w, h, x, y + 1, down);
            let (p, q) = (
                braille::nudged(p, w, h, x, y + 1, down),
                braille::nudged(q, w, h, x, y + 1, down),
            );
            lemma_nudged_alike(p, q, a, threshold, w, h, x + 1, y + 1, down_right);
        }
    }
}

/// Transparent dots are not ink and have no error to pass on: what dithering gives
/// does not depend on the colors and lumas of dots below the alpha threshold, and
/// those dots stay off.
pub proof fn law_dithering_ignores_transparent_dots(
    a: Seq<Sample>,
    b: Seq<Sample>,
    w: int,
    h: int,
    invert: bool,
    threshold: u8,
)
    requires
        dots_alike(a, b, threshold),
        a.len() == w * h,
    ensures
        braille::dithered(a, w, h, invert, threshold, a.len()).1 == braille::dithered(
            b,
            w,
            h,
            invert,
            threshold,
            b.len(),
        ).1,
        forall|i: int|
            0 <= i < a.len() && (#[trigger] a[i]).alpha < threshold ==> !braille::dithered(
                a,
                w,
                h,
                invert,
                threshold,
                a.len(),
            ).1[i],
{
    lemma_dithered_alike(a, b, w, h, invert, threshold, a.len());
    assert forall|i: int| 0 <= i < a.len() && (#[trigger] a[i]).alpha
        < threshold implies !braille::dithered(a, w, h, invert, threshold, a.len()).1[i] by {
        lemma_dither_off(a, w, h, invert, threshold, a.len(), i);
    }
}

/// Where the alpha of every dot of a braille cell is below the threshold, the
/// cell is blank, with and without dithering.
pub proof fn law_transparent_dots_are_blank(
    dots: Seq<Sample>,
    g: Geometry,
    opts: &Options,
    row: int,
    col: int,
)
    requires
        dots.len() == g.rows * (8 * g.cols),
        0 <= row < g.rows,
        0 <= col < g.cols,
        forall|k: int|
            0 <= k < 8 ==> dots[#[trigger] braille::dot_index(g.cols, row, col, k)].alpha
                < opts.alpha_threshold,
    ensures
        braille::spec_braille_cell(
            dots,
            braille::spec_lit(dots, g, opts),
            opts.alpha_threshold,
            g.cols,
            row,
            col,
        ).ch == ' ',
{
    let lit = braille::spec_lit(dots, g, opts);
    assert forall|k: int| 0 <= k < 8 implies !lit[#[trigger] braille::dot_index(
        g.cols,
        row,
        col,
        k,
    )] by {
        let i = braille::dot_index(g.cols, row, col, k);
        braille::lemma_dot_index(g.cols, g.rows, row, col, k);
        if opts.braille_threshold is None {
            lemma_dither_off(
                dots,
                2 * g.cols,
                4 * g.rows,
                opts.invert,
                opts.alpha_threshold,
                dots.len(),
                i,
            );
        }
    }
    reveal_with_fuel(braille::cell_bits, 9);
    assert(!lit[braille::dot_index(g.cols, row, col, 0)]);
    assert(!lit[braille::dot_index(g.cols, row, col, 1)]);
    assert(!lit[braille::dot_index(g.cols, row, col, 2)]);
    assert(!lit[braille::dot_index(g.cols, row, col, 3)]);
    assert(!lit[braille::dot_index(g.cols, row, col, 4)]);
    assert(!lit[braille::dot_index(g.cols, row, col, 5)]);
    assert(!lit[braille::dot_index(g.cols, row, col, 6)]);
    assert(!lit[braille::dot_index(g.cols, row, col, 7)]);
}

/// The grid is as wide as asked for, but at least one column and at most one
/// column per pixel; it has at most one row per pixel; and the pixels of every
/// cell lie inside the image.
pub proof fn law_grid_fits_the_image(grid: &AsciiGrid, image: &RgbaImage, opts: &Options)
    requires
        engine::convert_error(image, opts) is None,
        engine::is_conversion(grid, image, opts),
    ensures
        1 <= grid.cols <= image.width(),
        1 <= opts.width <= image.width() ==> grid.cols == opts.width,
        1 <= grid.rows <= image.height(),
        forall|row: u32, col: u32|
            row < grid.rows && col < grid.cols ==> (#[trigger] engine::grid_geometry(
                image,
                opts,
            ).span(row, col)).within(image.width(), image.height()),
{
    let g = engine::grid_geometry(image, opts);
    geometry::lemma_fits(image.width(), image.height(), opts.width, opts.aspect);
    assert forall|row: u32, col: u32| row < grid.rows && col < grid.cols implies (
    #[trigger] engine::grid_geometry(image, opts).span(row, col)).within(
        image.width(),
        image.height(),
    ) by {
        geometry::lemma_span(g, row, col);
    }
}

/// Whether no channel of a color is above that of another.
pub open spec fn darker(a: [u8; 3], b: [u8; 3]) -> bool {
    a[0] <= b[0] && a[1] <= b[1] && a[2] <= b[2]
}

/// Encodings of whole numbers are ordered as the numbers.
pub proof fn lemma_from_mono(a: u64, b: u64)
    requires
        a <= b,
    ensures
        Double::from_u64(a).bits <= Double::from_u64(b).bits,
        order::plain(float::double(), Double::from_u64(b).bits),
{
    let f = float::double();
    let one = pow2(1074);
    reveal(Double::spec_from_u64);
    assert(a as nat * one * 1 <= b as nat * one * 1) by (nonlinear_arith)
        requires
            a <= b,
    ;
    order::lemma_round_mono(f, a as nat * one, 1, b as nat * one, 1);
}

/// Whole numbers above zero have encodings above zero.
pub proof fn lemma_from_positive(a: u64)
    requires
        0 < a,
    ensures
        0 < Double::from_u64(a).bits < float::double().inf(),
{
    let f = float::double();
    let one = pow2(1074);
    lemma_pow2_pos(1074);
    reveal(Double::spec_from_u64);
    assert(a as nat * one > 0) by (nonlinear_arith)
        requires
            a > 0,
            one > 0,
    ;
    float::code::lemma_round_positive(f, a as nat * one);
    let top: nat = 0x10_0000_0000_0000;
    lemma2_to64();
    lemma2_to64_rest();
    lemma_pow2_adds(12, 1074);
    lemma_pow2_adds(12, 1062);
    // Any 64-bit number is below 2^52 times 2^12.
    let big = top * pow2(1086);
    assert(a as nat * one <= big) by (nonlinear_arith)
        requires
            a <= 0xffff_ffff_ffff_ffff,
            big == 0x10_0000_0000_0000 * pow2(1086),
            pow2(1086) == 4096 * one,
    ;
    order::lemma_round_mono(f, a as nat * one, 1, big, 1);
    let code: nat = (1087 * f.hidden()) as nat;
    assert(f.expo(code) == 1086);
    assert(f.mant(code) == f.hidden());
    order::lemma_round_exact(f, code);
}

/// The luma of a color is not below that of a darker one.
pub proof fn lemma_luma_mono(a: [u8; 3], b: [u8; 3])
    requires
        darker(a, b),
    ensures
        sampling::spec_luma(a).bits <= sampling::spec_luma(b).bits,
        order::plain(float::double(), sampling::spec_luma(b).bits),
{
    let f = float::double();
    lemma_from_mono(a[0] as u64, b[0] as u64);
    lemma_from_mono(a[1] as u64, b[1] as u64);
    lemma_from_mono(a[2] as u64, b[2] as u64);
    reveal(Double::spec_times);
    reveal(Double::spec_plus);
    let x = |c: [u8; 3], i: int| Double::from_u64(c[i] as u64).bits;
    order::lemma_product_mono(f, x(a, 0), x(b, 0), sampling::RED_WEIGHT);
    order::lemma_product_mono(f, x(a, 1), x(b, 1), sampling::GREEN_WEIGHT);
    order::lemma_product_mono(f, x(a, 2), x(b, 2), sampling::BLUE_WEIGHT);
    let (ra, rb) = (
        f.spec_product(sampling::RED_WEIGHT, x(a, 0)),
        f.spec_product(sampling::RED_WEIGHT, x(b, 0)),
    );
    let (ga, gb) = (
        f.spec_product(sampling::GREEN_WEIGHT, x(a, 1)),
        f.spec_product(sampling::GREEN_WEIGHT, x(b, 1)),
    );
    let (ba, bb) = (
        f.spec_product(sampling::BLUE_WEIGHT, x(a, 2)),
        f.spec_product(sampling::BLUE_WEIGHT, x(b, 2)),
    );
    order::lemma_sum_mono(f, ra, ga, rb, gb);
    order::lemma_sum_mono(f, f.spec_sum(ra, ga), ba, f.spec_sum(rb, gb), bb);
}

/// The ramp never gets darker as brightness increases: a color that is nowhere
/// below another one gets a ramp index that is not below the other's, and not
/// above it where the ramp is inverted.
pub proof fn law_ramp_is_monotonic(a: [u8; 3], b: [u8; 3], n: usize)
    requires
        darker(a, b),
        n > 0,
    ensures
        engine::ramp_index(sampling::spec_luma(a), n, false) <= engine::ramp_index(
            sampling::spec_luma(b),
            n,
            false,
        ) < n,
        engine::ramp_index(sampling::spec_luma(b), n, true) <= engine::ramp_index(
            sampling::spec_luma(a),
            n,
            true,
        ) < n,
{
    let f = float::double();
    let (la, lb) = (sampling::spec_luma(a), sampling::spec_luma(b));
    let k = Double::from_u64(n as u64);
    lemma_luma_mono(a, b);
    lemma_from_positive(n as u64);
    order::lemma_product_mono(f, la.bits, lb.bits, k.bits);
    order::lemma_quotient_mono(
        f,
        f.spec_product(la.bits, k.bits),
        f.spec_product(lb.bits, k.bits),
        FULL,
    );
    let (qa, qb) = (
        f.spec_quotient(f.spec_product(la.bits, k.bits), FULL),
        f.spec_quotient(f.spec_product(lb.bits, k.bits), FULL),
    );
    order::lemma_trunc_mono(f, qa as nat, qb as nat);
    reveal(Double::spec_times);
    reveal(Double::spec_over);
    reveal(Double::spec_to_u64);
}

/// Inverting a ramp mirrors its indices.
pub proof fn law_invert_mirrors_the_ramp(luma: Double, n: usize)
    requires
        n > 0,
    ensures
        engine::ramp_index(luma, n, true) == n - 1 - engine::ramp_index(luma, n, false),
{
}

/// The eight dots of a cell have eight different bits, which make up a byte.
pub proof fn law_dot_bits_cover_the_pattern()
    ensures
        forall|a: u32, b: u32, c: u32, d: u32|
            a < 2 && b < 4 && c < 2 && d < 4 && (a != c || b != d)
                ==> #[trigger] braille::spec_dot_bit(a, b) != #[trigger] braille::spec_dot_bit(
                c,
                d,
            ),
        braille::spec_dot_bit(0, 0) + braille::spec_dot_bit(0, 1) + braille::spec_dot_bit(0, 2)
            + braille::spec_dot_bit(0, 3) + braille::spec_dot_bit(1, 0) + braille::spec_dot_bit(
            1,
            1,
        ) + braille::spec_dot_bit(1, 2) + braille::spec_dot_bit(1, 3) == 0xff,
{
}

/// A weight times 255, where the product of 255 and the significand of the weight
/// has `len` digits.
proof fn lemma_full_product(weight: u64, len: nat)
    requires
        ({
            let f = float::double();
            let n = 255 * f.mant(weight as nat);
            &&& 0 < weight < f.inf()
            &&& len >= 53
            &&& pow2((len - 1) as nat) <= n < pow2(len)
            &&& f.expo(weight as nat) + len < 2000
        }),
    ensures
        ({
            let f = float::double();
            let n = 255 * f.mant(weight as nat);
            (Double { bits: weight }).times(Double::from_u64(255)).bits == (f.expo(weight as nat)
                + len - 53) * f.hidden() + ratio::half_even(n, pow2((len - 53) as nat))
        }),
{
    let f = float::double();
    let one = pow2(1074);
    let (m, k) = (f.mant(weight as nat), f.expo(weight as nat));
    let n = 255 * m;
    geometry::lemma_small(255);
    lemma_pow2_pos(1074);
    reveal(Double::spec_times);
    assert((m * pow2(k)) * (255 * one) == (n * pow2(k)) * one) by (nonlinear_arith)
        requires
            n == 255 * m,
    ;
    ratio::lemma_round_scale(f, n * pow2(k), 1, one);
    assert(1 * one == one);
    order::lemma_round_digits(f, n, k, len);
    let d = pow2((len - 53) as nat);
    lemma_pow2_pos((len - 53) as nat);
    lemma_pow2_adds(53, (len - 53) as nat);
    order::lemma_half_even_near(n, d);
    lemma2_to64_rest();
    ratio::lemma_div_below(n, d, pow2(53));
    let code = (k + len - 53) * f.hidden() + ratio::half_even(n, d);
    assert((k + len - 53) * f.hidden() <= 1947 * f.hidden()) by (nonlinear_arith)
        requires
            k + len < 2000,
            f.hidden() >= 0,
    ;
    assert(code < f.inf());
}

/// A quotient with a remainder that is not half of the divisor, rounded.
proof fn lemma_halves(num: nat, den: nat, q: nat, r: nat)
    requires
        num == den * q + r,
        r < den,
        2 * r != den,
    ensures
        ratio::half_even(num, den) == if 2 * r < den {
            q
        } else {
            q + 1
        },
{
    assert(den * q == q * den) by (nonlinear_arith);
    lemma_fundamental_div_mod_converse(num as int, den as int, q as int, r as int);
}

/// The luma of white is 255.
pub proof fn lemma_luma_white()
    ensures
        sampling::spec_luma([255u8, 255u8, 255u8]).bits == FULL,
{
    let f = float::double();
    lemma2_to64();
    lemma2_to64_rest();
    let red = Double { bits: sampling::RED_WEIGHT }.times(Double::from_u64(255));
    let green = Double { bits: sampling::GREEN_WEIGHT }.times(Double::from_u64(255));
    let blue = Double { bits: sampling::BLUE_WEIGHT }.times(Double::from_u64(255));
    let (r, g, b) = (
        sampling::RED_WEIGHT as nat,
        sampling::GREEN_WEIGHT as nat,
        sampling::BLUE_WEIGHT as nat,
    );
    assert(f.mant(r) == 0x13_22d0_e560_4189 && f.expo(r) == 1020);
    assert(f.mant(g) == 0x12_c8b4_3958_1062 && f.expo(g) == 1021);
    assert(f.mant(b) == 0x1d_2f1a_9fbe_76c9 && f.expo(b) == 1018);
    lemma_full_product(sampling::RED_WEIGHT, 61);
    lemma_full_product(sampling::GREEN_WEIGHT, 61);
    lemma_full_product(sampling::BLUE_WEIGHT, 61);
    let h = f.hidden();
    assert(pow2(8) == 256);
    lemma_halves(255 * 0x13_22d0_e560_4189, 256, 0x13_0fae_147a_e147, 119);
    lemma_halves(255 * 0x12_c8b4_3958_1062, 256, 0x12_b5eb_851e_b851, 158);
    lemma_halves(255 * 0x1d_2f1a_9fbe_76c9, 256, 0x1d_11eb_851e_b852, 55);
    assert((1020 + 61 - 53) * h == 1028 * h);
    assert((1021 + 61 - 53) * h == 1029 * h);
    assert((1018 + 61 - 53) * h == 1026 * h);
    assert(red.bits == 0x4053_0fae_147a_e147);
    assert(green.bits == 0x4062_b5eb_851e_b852);
    assert(blue.bits == 0x403d_11eb_851e_b852);

    reveal(Double::spec_plus);
    let (x, y, z) = (red.bits as nat, green.bits as nat, blue.bits as nat);
    assert(f.mant(x) == 0x13_0fae_147a_e147 && f.expo(x) == 1028);
    assert(f.mant(y) == 0x12_b5eb_851e_b852 && f.expo(y) == 1029);
    assert(f.mant(z) == 0x1d_11eb_851e_b852 && f.expo(z) == 1026);
    let first: nat = 0x13_0fae_147a_e147 + 2 * 0x12_b5eb_851e_b852;
    lemma_pow2_adds(1, 1028);
    assert(f.units(x) + f.units(y) == first * pow2(1028)) by (nonlinear_arith)
        requires
            f.units(x) == 0x13_0fae_147a_e147 * pow2(1028),
            f.units(y) == 0x12_b5eb_851e_b852 * pow2(1029),
            pow2(1029) == 2 * pow2(1028),
            first == 0x13_0fae_147a_e147 + 2 * 0x12_b5eb_851e_b852,
    ;
    lemma_pow2_pos(1028);
    assert(first * pow2(1028) > 0) by (nonlinear_arith)
        requires
            first > 0,
            pow2(1028) > 0,
    ;
    order::lemma_round_digits(f, first, 1028, 54);
    let part = red.plus(green);
    assert(part.bits == 0x406c_3dc2_8f5c_28f6);

    let w = part.bits as nat;
    assert(f.mant(w) == 0x1c_3dc2_8f5c_28f6 && f.expo(w) == 1029);
    let second: nat = 8 * 0x1c_3dc2_8f5c_28f6 + 0x1d_11eb_851e_b852;
    lemma_pow2_adds(3, 1026);
    assert(f.units(w) + f.units(z) == second * pow2(1026)) by (nonlinear_arith)
        requires
            f.units(w) == 0x1c_3dc2_8f5c_28f6 * pow2(1029),
            f.units(z) == 0x1d_11eb_851e_b852 * pow2(1026),
            pow2(1029) == 8 * pow2(1026),
            second == 8 * 0x1c_3dc2_8f5c_28f6 + 0x1d_11eb_851e_b852,
    ;
    lemma_pow2_pos(1026);
    assert(second * pow2(1026) > 0) by (nonlinear_arith)
        requires
            second > 0,
            pow2(1026) > 0,
    ;
    order::lemma_round_digits(f, second, 1026, 56);
    assert(part.plus(blue).bits == FULL);
}

/// The luma of black is zero.
pub proof fn lemma_luma_black()
    ensures
        sampling::spec_luma([0u8, 0u8, 0u8]).bits == 0,
{
    let f = float::double();
    let zero = Double { bits: 0 };
    geometry::lemma_small(0);
    assert(Double::from_u64(0) == zero);
    assert(f.units(0) == 0) by {
        assert(0 * pow2(0) == 0);
    }
    lemma_zero_product(sampling::RED_WEIGHT);
    lemma_zero_product(sampling::GREEN_WEIGHT);
    lemma_zero_product(sampling::BLUE_WEIGHT);
    reveal(Double::spec_plus);
    assert(zero.plus(zero) == zero);
}

/// A black cell gets the first character of the ramp, the densest one, and the
/// last one where the ramp is inverted.
pub proof fn law_black_is_the_first_character(n: usize)
    requires
        n > 0,
    ensures
        engine::ramp_index(sampling::spec_luma([0u8, 0u8, 0u8]), n, false) == 0,
        engine::ramp_index(sampling::spec_luma([0u8, 0u8, 0u8]), n, true) == n - 1,
{
    let f = float::double();
    let zero = Double { bits: 0 };
    lemma_luma_black();
    assert(f.units(0) == 0) by {
        assert(0 * pow2(0) == 0);
    }
    lemma_from_positive(n as u64);
    lemma_zero_product(Double::from_u64(n as u64).bits);
    reveal(Double::spec_over);
    reveal(Double::spec_to_u64);
    order::lemma_units_positive(f, FULL as nat);
    assert(0 * pow2(1074) == 0);
    lemma_round_nothing(f.units(FULL as nat));
    assert(zero.over(Double { bits: FULL }) == zero);
    lemma_pow2_pos(1074);
    lemma_fundamental_div_mod_converse(0, pow2(1074) as int, 0, 0);
}

/// Nothing rounds to nothing.
proof fn lemma_round_nothing(den: nat)
    requires
        den > 0,
    ensures
        float::double().round(0, den) == 0,
{
    let f = float::double();
    lemma2_to64();
    lemma_fundamental_div_mod_converse(0, den as int, 0, 0);
    assert(den * 1 == den);
    assert(0 * f.hidden() == 0);
}

/// Nothing times a number is nothing.
proof fn lemma_zero_product(bits: u64)
    requires
        0 < bits < float::double().inf(),
    ensures
        (Double { bits }).times((Double { bits: 0 })).bits == 0,
        (Double { bits: 0 }).times((Double { bits })).bits == 0,
{
    let f = float::double();
    reveal(Double::spec_times);
    lemma_pow2_pos(1074);
    assert(f.units(0) == 0) by {
        assert(0 * pow2(0) == 0);
    }
    let x = f.units(bits as nat);
    assert(x * 0 == 0 && 0 * x == 0) by (nonlinear_arith);
    lemma_round_nothing(pow2(1074));
}

/// 255 times a whole number that the format holds, rounded, is at most 128 off.
proof fn lemma_white_product(m: nat)
    requires
        0 < m < 0x20_0000_0000_0000,
    ensures
        ({
            let f = float::double();
            let code = f.round(255 * m * pow2(1074), 1);
            &&& 0 < code < f.inf()
            &&& f.units(code) + 128 * pow2(1074) >= 255 * m * pow2(1074)
        }),
{
    let f = float::double();
    let one = pow2(1074);
    let v = 255 * m * one;
    let k = f.quantum(v, 1);
    let d = pow2(k);
    lemma_pow2_pos(1074);
    lemma_pow2_pos(k);
    lemma2_to64();
    lemma2_to64_rest();
    assert(0 < v < 0x2000_0000_0000_0000 * one) by (nonlinear_arith)
        requires
            v == 255 * m * one,
            0 < m < 0x20_0000_0000_0000,
            one > 0,
    ;
    // The result is finite: 2 to the power of 61 is.
    lemma_pow2_adds(9, 1074);
    let big: nat = 0x10_0000_0000_0000 * pow2(1083);
    assert(v * 1 <= big * 1) by (nonlinear_arith)
        requires
            v <= 0x2000_0000_0000_0000 * one,
            big == 0x10_0000_0000_0000 * pow2(1083),
            pow2(1083) == 512 * one,
    ;
    order::lemma_round_mono(f, v, 1, big, 1);
    let top: nat = (1084 * f.hidden()) as nat;
    assert(f.expo(top) == 1083);
    assert(f.mant(top) == f.hidden());
    order::lemma_round_exact(f, top);
    float::code::lemma_round_positive(f, v);
    // The last place is at most 256.
    order::lemma_quantum(f, v, 1);
    assert(1 * d == d);
    lemma_pow2_adds(8, 1074);
    assert(d <= 256 * one) by {
        if k > 1082 {
            ratio::lemma_pow2_mono(1083, k);
            assert(f.hidden() * d > v) by (nonlinear_arith)
                requires
                    f.hidden() == 0x10_0000_0000_0000,
                    d >= 512 * one,
                    v < 0x2000_0000_0000_0000 * one,
                    one > 0,
            ;
        } else {
            ratio::lemma_pow2_mono(k, 1082);
        }
    }
    order::lemma_round_units(f, v, 1);
    order::lemma_half_even_near(v, d);
    let h = ratio::half_even(v, d);
    assert(2 * d * h == 2 * (h * d)) by (nonlinear_arith);
}

/// A white cell gets the last character of the ramp, and the first one where the
/// ramp is inverted, for every ramp whose length a double holds.
pub proof fn law_white_is_the_last_character(n: usize)
    requires
        0 < n < 0x20_0000_0000_0000,
    ensures
        engine::ramp_index(sampling::spec_luma([255u8, 255u8, 255u8]), n, false) == n - 1,
        engine::ramp_index(sampling::spec_luma([255u8, 255u8, 255u8]), n, true) == 0,
{
    let f = float::double();
    let one = pow2(1074);
    lemma_luma_white();
    lemma_pow2_pos(1074);
    let white = Double { bits: FULL };
    let k = Double::from_u64(n as u64);
    let m = n as nat;
    // 255 and `n` are whole numbers that the format holds.
    lemma_from_positive(n as u64);
    reveal(Double::spec_from_u64);
    order::lemma_round_representable(f, m, 1074);
    assert(f.units(k.bits as nat) == m * one);
    assert(f.mant(FULL as nat) == 0x1f_e000_0000_0000 && f.expo(FULL as nat) == 1029);
    lemma_pow2_adds(45, 1029);
    lemma2_to64_rest();
    assert(f.units(FULL as nat) == 255 * one) by (nonlinear_arith)
        requires
            f.units(FULL as nat) == 0x1f_e000_0000_0000 * pow2(1029),
            one == 0x2000_0000_0000 * pow2(1029),
    ;
    // Their product is at most half a last place off.
    let v = 255 * m * one;
    assert((255 * one) * (m * one) == v * one) by (nonlinear_arith)
        requires
            v == 255 * m * one,
    ;
    ratio::lemma_round_scale(f, v, 1, one);
    assert(1 * one == one);
    lemma_white_product(m);
    reveal(Double::spec_times);
    let product = white.times(k);
    let u = f.units(product.bits as nat);
    assert(product.bits == f.round(v, 1));
    // Dividing by 255 gives at least `n - 1`.
    let less = (m - 1) as nat;
    assert((less * one) * (255 * one) <= (u * one) * 1) by (nonlinear_arith)
        requires
            u + 128 * one >= 255 * m * one,
            less == m - 1,
            m > 0,
            one > 0,
    ;
    order::lemma_round_mono(f, less * one, 1, u * one, 255 * one);
    order::lemma_round_representable(f, less, 1074);
    reveal(Double::spec_over);
    let back = product.over(white);
    let low = f.round(less * one, 1);
    assert(back.bits == f.round(u * one, 255 * one));
    order::lemma_trunc_mono(f, low, back.bits as nat);
    lemma_div_multiples_vanish(less as int, one as int);
    assert(less * one == one * less) by (nonlinear_arith);
    reveal(Double::spec_to_u64);
    assert(back.to_u64() >= n - 1);
}

} // verus!
