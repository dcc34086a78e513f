//! What holds of everything that is painted.

use crate::engine::AsciiGrid;
use crate::float;
use crate::float::order;
use crate::float::Single;
use crate::font;
use crate::paint;
use crate::paint::{Background, Bounds, PaintOptions, Pen};
use crate::pixels::RgbaImage;
use vstd::arithmetic::div_mod::*;
use vstd::arithmetic::power2::*;
use vstd::prelude::*;

verus! {

/// What blending keeps: the alpha of an opaque canvas, and the color of the ink
/// on a transparent one.
pub open spec fn kept(p: [u8; 4], q: [u8; 4], pen: Pen) -> bool {
    if pen.transparent {
        q == p || (q[0] == pen.ink[0] && q[1] == pen.ink[1] && q[2] == pen.ink[2])
    } else {
        q[3] == p[3]
    }
}

proof fn lemma_glyph_kept(
    p: [u8; 4],
    dabs: Seq<(u32, u32, u32)>,
    n: nat,
    left: int,
    top: int,
    area: Bounds,
    pen: Pen,
    x: int,
    y: int,
)
    ensures
        kept(p, paint::glyph_pixel(p, dabs, n, left, top, area, pen, x, y), pen),
        !area.holds(x, y) ==> paint::glyph_pixel(p, dabs, n, left, top, area, pen, x, y) == p,
    decreases n,
{
    if n > 0 {
        lemma_glyph_kept(p, dabs, (n - 1) as nat, left, top, area, pen, x, y);
    }
}

proof fn lemma_braille_kept(
    p: [u8; 4],
    bits: u8,
    area: Bounds,
    width: u32,
    height: u32,
    pen: Pen,
    n: nat,
    x: int,
    y: int,
)
    ensures
        kept(p, paint::braille_pixel(p, bits, area, width, height, pen, n, x, y), pen),
    decreases n,
{
    if n > 0 {
        lemma_braille_kept(p, bits, area, width, height, pen, (n - 1) as nat, x, y);
    }
}

/// The pen of a cell.
pub open spec fn cell_pen(grid: &AsciiGrid, opts: &PaintOptions, row: int, col: int) -> Pen {
    let cell = grid.cell(row, col);
    Pen {
        ink: paint::cell_ink(opts, cell.color),
        opacity: paint::cell_opacity(opts, cell.alpha),
        transparent: opts.background == Background::Transparent,
    }
}

proof fn lemma_cell_kept(
    p: [u8; 4],
    grid: &AsciiGrid,
    fonts: Seq<Seq<u8>>,
    opts: &PaintOptions,
    row: int,
    col: int,
    x: int,
    y: int,
)
    ensures
        kept(
            p,
            paint::cell_pixel(p, grid, fonts, opts, row, col, x, y),
            cell_pen(grid, opts, row, col),
        ),
{
    let cell = grid.cell(row, col);
    let area = paint::cell_area(opts, row, col);
    let pen = cell_pen(grid, opts, row, col);
    match font::spec_locate(fonts, cell.ch, 0) {
        Some(loc) => {
            let font = fonts[loc.font as int];
            let (gx, gy) = paint::glyph_place(opts, area);
            let dabs = font::glyph_ink(font, loc.glyph, opts.font_px.bits, gx.bits, gy.bits);
            if let Some(b) = paint::placed_box(font, loc.glyph, opts, area) {
                lemma_glyph_kept(
                    p,
                    dabs,
                    dabs.len(),
                    (Single { bits: b.0 }).to_i64() as int,
                    (Single { bits: b.1 }).to_i64() as int,
                    area,
                    pen,
                    x,
                    y,
                );
            }
        },
        None => {
            lemma_braille_kept(
                p,
                paint::pattern_bits(cell.ch),
                area,
                paint::canvas_width(grid, opts) as u32,
                paint::canvas_height(grid, opts) as u32,
                pen,
                8,
                x,
                y,
            );
        },
    }
}

/// An opaque background stays opaque, whatever is painted on it.
pub proof fn law_opaque_canvas_stays_opaque(
    grid: &AsciiGrid,
    fonts: Seq<Seq<u8>>,
    opts: &PaintOptions,
    n: nat,
    x: int,
    y: int,
)
    requires
        opts.background != Background::Transparent,
    ensures
        paint::painted(grid, fonts, opts, n, x, y)[3] == 255,
    decreases n,
{
    if n > 0 {
        let i = n - 1;
        law_opaque_canvas_stays_opaque(grid, fonts, opts, i as nat, x, y);
        lemma_cell_kept(
            paint::painted(grid, fonts, opts, i as nat, x, y),
            grid,
            fonts,
            opts,
            i / grid.cols as int,
            i % grid.cols as int,
            x,
            y,
        );
    }
}

/// On a transparent canvas without cell colors, every pixel that ink reached is
/// white: it carries the ink color, not a dark halo.
pub proof fn law_transparent_canvas_holds_only_ink(
    grid: &AsciiGrid,
    fonts: Seq<Seq<u8>>,
    opts: &PaintOptions,
    n: nat,
    x: int,
    y: int,
)
    requires
        opts.background == Background::Transparent,
        !opts.colored,
    ensures
        ({
            let p = paint::painted(grid, fonts, opts, n, x, y);
            p == Background::Transparent.fill() || (p[0] == 255 && p[1] == 255 && p[2] == 255)
        }),
    decreases n,
{
    if n > 0 {
        let i = n - 1;
        law_transparent_canvas_holds_only_ink(grid, fonts, opts, i as nat, x, y);
        lemma_cell_kept(
            paint::painted(grid, fonts, opts, i as nat, x, y),
            grid,
            fonts,
            opts,
            i / grid.cols as int,
            i % grid.cols as int,
            x,
            y,
        );
    }
}

/// Blank cells paint nothing: a grid of spaces gives an empty canvas.
pub proof fn law_blank_grid_is_an_empty_canvas(
    grid: &AsciiGrid,
    fonts: Seq<Seq<u8>>,
    opts: &PaintOptions,
    n: nat,
    x: int,
    y: int,
)
    requires
        grid.wf(),
        n <= paint::cell_count(grid),
        forall|i: int| 0 <= i < grid.chars@.len() ==> grid.chars@[i] == ' ',
    ensures
        paint::painted(grid, fonts, opts, n, x, y) == opts.background.fill(),
    decreases n,
{
    if n > 0 {
        let i = n - 1;
        law_blank_grid_is_an_empty_canvas(grid, fonts, opts, i as nat, x, y);
        assert(grid.cols > 0) by (nonlinear_arith)
            requires
                grid.rows * grid.cols > 0,
                grid.cols >= 0,
        ;
        lemma_fundamental_div_mod(i, grid.cols as int);
        assert(grid.cols * (i / grid.cols as int) == (i / grid.cols as int) * grid.cols)
            by (nonlinear_arith);
    }
}

/// The glyph of a font never paints outside its own cell.
pub proof fn law_glyphs_stay_inside_their_cells(
    p: [u8; 4],
    grid: &AsciiGrid,
    fonts: Seq<Seq<u8>>,
    opts: &PaintOptions,
    row: int,
    col: int,
    x: int,
    y: int,
)
    requires
        font::spec_locate(fonts, grid.cell(row, col).ch, 0) is Some,
        !paint::cell_area(opts, row, col).holds(x, y),
    ensures
        paint::cell_pixel(p, grid, fonts, opts, row, col, x, y) == p,
{
    let cell = grid.cell(row, col);
    let area = paint::cell_area(opts, row, col);
    let pen = cell_pen(grid, opts, row, col);
    if let Some(loc) = font::spec_locate(fonts, cell.ch, 0) {
        let font = fonts[loc.font as int];
        let (gx, gy) = paint::glyph_place(opts, area);
        let dabs = font::glyph_ink(font, loc.glyph, opts.font_px.bits, gx.bits, gy.bits);
        if let Some(b) = paint::placed_box(font, loc.glyph, opts, area) {
            lemma_glyph_kept(
                p,
                dabs,
                dabs.len(),
                (Single { bits: b.0 }).to_i64() as int,
                (Single { bits: b.1 }).to_i64() as int,
                area,
                pen,
                x,
                y,
            );
        }
    }
}

/// Whole numbers that the format holds come back from it, and so does anything
/// larger.
proof fn lemma_not_below(v: Single, n: u32)
    requires
        n <= 0x100_0000,
    ensures
        v.max(Single::from_u64(n as u64)).to_u32() >= n,
{
    let f = float::single();
    let one = pow2(149);
    let k = Single::from_u64(n as u64);
    let r = v.max(k);
    lemma_pow2_pos(149);
    reveal(Single::spec_from_u64);
    reveal(Single::spec_is_nan);
    reveal(Single::spec_less);
    reveal(Single::spec_to_u64);
    if n == 0x100_0000 {
        lemma2_to64();
        lemma_pow2_unfold(150);
        assert(n as nat * one == 0x80_0000 * pow2(150)) by (nonlinear_arith)
            requires
                n == 0x100_0000,
                pow2(150) == 2 * one,
        ;
        let code: nat = 0x4b80_0000;
        assert(f.expo(code) == 150);
        assert(f.mant(code) == 0x80_0000);
        order::lemma_round_exact(f, code);
    } else {
        order::lemma_round_representable(f, n as nat, 149);
    }
    let code = f.round(n as nat * one, 1);
    assert(f.units(code) == n as nat * one);
    assert(code < f.inf());
    lemma_div_multiples_vanish(n as int, one as int);
    assert(n as nat * one == one * n as nat) by (nonlinear_arith);
    assert(f.whole(code, float::code::Whole::Trunc) == n);
    if n > 0 {
        assert(n as nat * one > 0) by (nonlinear_arith)
            requires
                n > 0,
                one > 0,
        ;
        float::code::lemma_round_positive(f, n as nat * one);
        assert(k.bits == code);
        assert(!f.neg(r.bits as u64));
        assert(code <= f.mag(r.bits as u64));
    }
    if n > 0 {
        order::lemma_trunc_mono(f, code, f.mag(r.bits as u64));
    }
}

/// A disc stays inside its cell, on canvases on which every coordinate is a
/// number that the format holds.
proof fn lemma_disc_inside(area: Bounds, i: u32, width: u32, height: u32)
    requires
        area.x0 <= 0x100_0000,
        area.y0 <= 0x100_0000,
    ensures
        ({
            let d = paint::spec_disc(area, i, width, height).area;
            area.x0 <= d.x0 && area.y0 <= d.y0 && d.x1 <= area.x1 && d.y1 <= area.y1
        }),
{
    let disc = paint::spec_disc(area, i, width, height);
    let one = Single { bits: paint::ONE };
    lemma_not_below(disc.x.minus(disc.radius).minus(one).floor(), area.x0);
    lemma_not_below(disc.y.minus(disc.radius).minus(one).floor(), area.y0);
}

pub proof fn lemma_braille_inside(
    p: [u8; 4],
    bits: u8,
    area: Bounds,
    width: u32,
    height: u32,
    pen: Pen,
    n: nat,
    x: int,
    y: int,
)
    requires
        area.x0 <= 0x100_0000,
        area.y0 <= 0x100_0000,
        !area.holds(x, y),
    ensures
        paint::braille_pixel(p, bits, area, width, height, pen, n, x, y) == p,
    decreases n,
{
    if n > 0 {
        lemma_braille_inside(p, bits, area, width, height, pen, (n - 1) as nat, x, y);
        lemma_disc_inside(area, (n - 1) as u32, width, height);
    }
}

/// The dots of a braille cell never paint outside their own cell, on canvases of
/// up to 2^24 pixels a side.
pub proof fn law_dots_stay_inside_their_cells(
    p: [u8; 4],
    grid: &AsciiGrid,
    fonts: Seq<Seq<u8>>,
    opts: &PaintOptions,
    row: int,
    col: int,
    x: int,
    y: int,
)
    requires
        0 <= row < grid.rows,
        0 <= col < grid.cols,
        opts.metrics.wf(),
        paint::canvas_width(grid, opts) <= 0x100_0000,
        paint::canvas_height(grid, opts) <= 0x100_0000,
        font::spec_locate(fonts, grid.cell(row, col).ch, 0) is None,
        !paint::cell_area(opts, row, col).holds(x, y),
    ensures
        paint::cell_pixel(p, grid, fonts, opts, row, col, x, y) == p,
{
    let cell = grid.cell(row, col);
    let area = paint::cell_area(opts, row, col);
    let (w, h) = (opts.metrics.width as int, opts.metrics.height as int);
    assert(0 <= col * w && col * w + w <= w * grid.cols) by (nonlinear_arith)
        requires
            0 <= col,
            col + 1 <= grid.cols,
            w > 0,
    ;
    assert(0 <= row * h && row * h + h <= h * grid.rows) by (nonlinear_arith)
        requires
            0 <= row,
            row + 1 <= grid.rows,
            h > 0,
    ;
    lemma_braille_inside(
        p,
        paint::pattern_bits(cell.ch),
        area,
        paint::canvas_width(grid, opts) as u32,
        paint::canvas_height(grid, opts) as u32,
        cell_pen(grid, opts, row, col),
        8,
        x,
        y,
    );
}

/// Cropping to the content keeps every drawn pixel.
pub proof fn law_crop_keeps_every_drawn_pixel(
    cropped: &RgbaImage,
    img: &RgbaImage,
    b: Bounds,
    background: Background,
    x: int,
    y: int,
)
    requires
        paint::is_content_box(b, img, background),
        paint::is_crop(cropped, img, b),
        0 <= x < img.width(),
        0 <= y < img.height(),
        paint::is_drawn(img.pixel(x, y), background),
    ensures
        0 <= x - b.x0 < cropped.width(),
        0 <= y - b.y0 < cropped.height(),
        cropped.pixel(x - b.x0, y - b.y0) == img.pixel(x, y),
{
}

/// There is one bounding box of what is drawn.
pub proof fn law_content_box_is_unique(
    a: Bounds,
    b: Bounds,
    img: &RgbaImage,
    background: Background,
)
    requires
        paint::is_content_box(a, img, background),
        paint::is_content_box(b, img, background),
    ensures
        a == b,
{
    lemma_box_within(a, b, img, background);
    lemma_box_within(b, a, img, background);
}

/// No bounding box reaches beyond another one.
proof fn lemma_box_within(a: Bounds, b: Bounds, img: &RgbaImage, background: Background)
    requires
        paint::is_content_box(a, img, background),
        paint::is_content_box(b, img, background),
    ensures
        b.x0 <= a.x0,
        b.y0 <= a.y0,
        a.x1 <= b.x1,
        a.y1 <= b.y1,
{
    let y0 = choose|y: int|
        0 <= y < img.height() && paint::is_drawn(
            #[trigger] img.pixel(a.x0 as int, y),
            background,
        );
    assert(b.holds(a.x0 as int, y0));
    let y1 = choose|y: int|
        0 <= y < img.height() && paint::is_drawn(#[trigger] img.pixel(a.x1 - 1, y), background);
    assert(b.holds(a.x1 - 1, y1));
    let x0 = choose|x: int|
        0 <= x < img.width() && paint::is_drawn(
            #[trigger] img.pixel(x, a.y0 as int),
            background,
        );
    assert(b.holds(x0, a.y0 as int));
    let x1 = choose|x: int|
        0 <= x < img.width() && paint::is_drawn(#[trigger] img.pixel(x, a.y1 - 1), background);
    assert(b.holds(x1, a.y1 - 1));
}

/// Cropping a second time changes nothing: the content of a cropped image fills
/// it.
pub proof fn law_cropping_is_complete(
    cropped: &RgbaImage,
    img: &RgbaImage,
    b: Bounds,
    background: Background,
)
    requires
        paint::is_content_box(b, img, background),
        paint::is_crop(cropped, img, b),
    ensures
        paint::is_content_box(
            (Bounds { x0: 0, y0: 0, x1: cropped.width(), y1: cropped.height() }),
            cropped,
            background,
        ),
{
    let y0 = choose|y: int|
        0 <= y < img.height() && paint::is_drawn(
            #[trigger] img.pixel(b.x0 as int, y),
            background,
        );
    assert(cropped.pixel(0, y0 - b.y0) == img.pixel(b.x0 as int, y0));
    let y1 = choose|y: int|
        0 <= y < img.height() && paint::is_drawn(#[trigger] img.pixel(b.x1 - 1, y), background);
    assert(cropped.pixel(cropped.width() - 1, y1 - b.y0) == img.pixel(b.x1 - 1, y1));
    let x0 = choose|x: int|
        0 <= x < img.width() && paint::is_drawn(
            #[trigger] img.pixel(x, b.y0 as int),
            background,
        );
    assert(cropped.pixel(x0 - b.x0, 0) == img.pixel(x0, b.y0 as int));
    let x1 = choose|x: int|
        0 <= x < img.width() && paint::is_drawn(#[trigger] img.pixel(x, b.y1 - 1), background);
    assert(cropped.pixel(x1 - b.x0, cropped.height() - 1) == img.pixel(x1, b.y1 - 1));
}

} // verus!
