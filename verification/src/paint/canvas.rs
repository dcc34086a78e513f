//! What stands where on a painted canvas.

use crate::engine::AsciiGrid;
use crate::engine::Cell;
use crate::float;
use crate::float::near;
use crate::float::Single;
use crate::font;
use crate::paint;
use crate::paint::brightness;
use crate::paint::exact;
use crate::paint::laws;
use crate::paint::{Background, Bounds, PaintError, PaintOptions, Pen};
use vstd::arithmetic::div_mod::*;
use vstd::arithmetic::power2::*;
use vstd::prelude::*;

verus! {

/// The pixel that an empty canvas is made of.
pub open spec fn blank(opts: &PaintOptions) -> [u8; 4] {
    match opts.background {
        Background::Black => [0, 0, 0, 255],
        Background::White => [255, 255, 255, 255],
        Background::Transparent => [0, 0, 0, 0],
    }
}

/// Whether ink of a cell has the right color and opacity: without cell colors it is black on
/// white and white elsewhere, with them the color of the cell, as it is on white and brightened
/// elsewhere. On a transparent canvas it is as opaque as the cell, up to 2^-17, elsewhere it is
/// fully opaque.
pub open spec fn right_pen(opts: &PaintOptions, cell: Cell, pen: Pen) -> bool {
    let o = near::single_value(pen.opacity);
    &&& pen.transparent == (opts.background == Background::Transparent)
    &&& pen.ink == if opts.colored {
        if opts.background == Background::White {
            cell.color
        } else {
            paint::spec_brighten(cell.color)
        }
    } else if opts.background == Background::White {
        [0u8, 0u8, 0u8]
    } else {
        [255u8, 255u8, 255u8]
    }
    &&& exact::finite(pen.opacity)
    &&& 0 <= o <= exact::one()
    &&& opts.background != Background::Transparent ==> pen.opacity.bits == paint::ONE
    &&& opts.background == Background::Transparent ==> 0x2_0000 * (255 * o - cell.alpha
        * exact::one()) <= 255 * exact::one() && 0x2_0000 * (cell.alpha * exact::one() - 255 * o)
        <= 255 * exact::one()
    &&& opts.background == Background::Transparent && cell.alpha == 255 ==> pen.opacity.bits
        == paint::ONE
}

/// The pen of a cell is the right one.
proof fn lemma_pen(opts: &PaintOptions, cell: Cell)
    ensures
        right_pen(
            opts,
            cell,
            (Pen {
                ink: paint::cell_ink(opts, cell.color),
                opacity: paint::cell_opacity(opts, cell.alpha),
                transparent: opts.background == Background::Transparent,
            }),
        ),
{
    let f = float::single();
    let z = exact::one() as int;
    let p = pow2(132) as int;
    let n = cell.alpha as int;
    brightness::lemma_known();
    exact::lemma_powers();
    lemma_pow2_pos(149);
    exact::lemma_byte(cell.alpha);
    brightness::lemma_byte(cell.alpha);
    assert(opts.background.ink() =~= if opts.background == Background::White {
        [0u8, 0u8, 0u8]
    } else {
        [255u8, 255u8, 255u8]
    });
    if opts.background == Background::Transparent {
        let full = Single { bits: paint::FULL };
        let a = Single::from_u64(cell.alpha as u64);
        let r = a.over(full);
        let (num, den) = ((n * z) * z, 255 * z);
        reveal(Single::spec_over);
        let (h, b3, b4) = (f.hidden() as int, pow2(133) as int, pow2(134) as int);
        assert(0 <= num && num < 2 * h * (den * b3) && num <= den * (h * b4) && num <= z * den)
            by (nonlinear_arith)
            requires
                num == (n * z) * z,
                den == 255 * z,
                0 <= n <= 255,
                z > 0,
                2 * h * (1 * b3) == 256 * z,
                1 * (h * b4) == 256 * z,
        ;
        near::lemma_finite(f, num as nat, den as nat, 134);
        near::lemma_off(f, num as nat, den as nat, 133);
        let o = near::single_value(r);
        let u = f.units(f.round(num as nat, den as nat)) as int;
        assert(f.units(f.mag(a.bits as u64)) == n * z);
        assert(2 * (u * den) <= 2 * num + den * b3 && 2 * num <= 2 * (u * den) + den * b3);
        assert(255 * u - n * z <= 255 * p && n * z - 255 * u <= 255 * p) by (nonlinear_arith)
            requires
                2 * (u * den) <= 2 * num + den * b3,
                2 * num <= 2 * (u * den) + den * b3,
                num == (n * z) * z,
                den == 255 * z,
                b3 == 2 * p,
                z > 0,
        ;
        float::order::lemma_round_mono(f, num as nat, den as nat, z as nat, 1);
        float::order::lemma_round_exact(f, paint::ONE as nat);
        float::order::lemma_units_mono(f, f.round(num as nat, den as nat), paint::ONE as nat);
        if cell.alpha == 255 {
            assert(num == z * den) by (nonlinear_arith)
                requires
                    num == (n * z) * z,
                    n == 255,
                    den == 255 * z,
            ;
            float::ratio::lemma_round_scale(f, z as nat, 1, den as nat);
            assert(1 * den == den);
        }
        assert(o == u);
    }
}

/// Later cells leave a pixel alone, and so do earlier ones.
proof fn lemma_cells(
    grid: &AsciiGrid,
    fonts: Seq<Seq<u8>>,
    opts: &PaintOptions,
    n: nat,
    x: int,
    y: int,
)
    requires
        n <= paint::cell_count(grid),
        opts.metrics.wf(),
        paint::canvas_width(grid, opts) <= 0x100_0000,
        paint::canvas_height(grid, opts) <= 0x100_0000,
        0 <= x < paint::canvas_width(grid, opts),
        0 <= y < paint::canvas_height(grid, opts),
    ensures
        ({
            let (row, col) = (y / opts.metrics.height as int, x / opts.metrics.width as int);
            &&& 0 <= row < grid.rows
            &&& 0 <= col < grid.cols
            &&& paint::cell_area(opts, row, col) == (Bounds {
                x0: (col * opts.metrics.width) as u32,
                y0: (row * opts.metrics.height) as u32,
                x1: ((col + 1) * opts.metrics.width) as u32,
                y1: ((row + 1) * opts.metrics.height) as u32,
            })
            &&& 0 <= col * opts.metrics.width <= x < (col + 1) * opts.metrics.width <= 0x100_0000
            &&& 0 <= row * opts.metrics.height <= y < (row + 1) * opts.metrics.height <= 0x100_0000
            &&& paint::painted(grid, fonts, opts, n, x, y) == if n > row * grid.cols + col {
                paint::cell_pixel(blank(opts), grid, fonts, opts, row, col, x, y)
            } else {
                blank(opts)
            }
        }),
    decreases n,
{
    let (w, h) = (opts.metrics.width as int, opts.metrics.height as int);
    let (row, col) = (y / h, x / w);
    let wide = grid.cols as int;
    lemma_fundamental_div_mod(x, w);
    lemma_fundamental_div_mod(y, h);
    assert(0 <= col < wide && 0 <= col * w <= x < (col + 1) * w && (col + 1) * w <= w * wide
        && (col + 1) * w == col * w + w) by (nonlinear_arith)
        requires
            x == w * col + x % w,
            0 <= x % w < w,
            0 <= x < w * wide,
    ;
    assert(0 <= row < grid.rows && 0 <= row * h <= y < (row + 1) * h && (row + 1) * h <= h
        * grid.rows && (row + 1) * h == row * h + h) by (nonlinear_arith)
        requires
            y == h * row + y % h,
            0 <= y % h < h,
            0 <= y < h * grid.rows,
    ;
    assert(opts.background.fill() =~= blank(opts));
    if n > 0 {
        let i = n - 1;
        lemma_cells(grid, fonts, opts, i as nat, x, y);
        let (r, c) = (i / wide, i % wide);
        lemma_fundamental_div_mod(i, wide);
        assert(0 <= r < grid.rows) by (nonlinear_arith)
            requires
                i == wide * r + c,
                0 <= c < wide,
                0 <= i < grid.rows * wide,
        ;
        assert(wide * r == r * wide) by (nonlinear_arith);
        let p = paint::painted(grid, fonts, opts, i as nat, x, y);
        if i == row * wide + col {
            lemma_fundamental_div_mod_converse(i, wide, row, col);
        } else {
            let area = paint::cell_area(opts, r, c);
            assert(0 <= c * w && c * w + w <= w * wide) by (nonlinear_arith)
                requires
                    0 <= c,
                    c + 1 <= wide,
                    w > 0,
            ;
            assert(0 <= r * h && r * h + h <= h * grid.rows) by (nonlinear_arith)
                requires
                    0 <= r,
                    r + 1 <= grid.rows,
                    h > 0,
            ;
            if area.holds(x, y) {
                lemma_fundamental_div_mod_converse(x, w, c, x - c * w);
                lemma_fundamental_div_mod_converse(y, h, r, y - r * h);
                assert(c * w == w * c && r * h == h * r) by (nonlinear_arith);
                assert(r == row && c == col);
            } else if font::spec_locate(fonts, grid.cell(r, c).ch, 0) is Some {
                laws::law_glyphs_stay_inside_their_cells(p, grid, fonts, opts, r, c, x, y);
            } else {
                laws::law_dots_stay_inside_their_cells(p, grid, fonts, opts, r, c, x, y);
            }
        }
    }
}

/// A pixel of a canvas shows the cell that it lies in: cells have one size, and stand in the
/// order of the grid from the corner at the upper left. Blanks, and characters that no font has
/// and that are no braille patterns, leave the canvas empty. A braille pattern that no font has
/// is plotted into the pixels of its cell. The glyph of a character that a font has is drawn from
/// the left edge of its cell, with its base line the ascent below the upper edge. On canvases of
/// up to 2^24 pixels a side.
pub proof fn law_pixels_show_their_own_cell(
    grid: &AsciiGrid,
    fonts: Seq<Seq<u8>>,
    opts: &PaintOptions,
    x: int,
    y: int,
) -> (pen: Pen)
    requires
        opts.metrics.wf(),
        paint::canvas_width(grid, opts) <= 0x100_0000,
        paint::canvas_height(grid, opts) <= 0x100_0000,
        0 <= x < paint::canvas_width(grid, opts),
        0 <= y < paint::canvas_height(grid, opts),
    ensures
        ({
            let (w, h) = (opts.metrics.width as int, opts.metrics.height as int);
            let (row, col) = (y / h, x / w);
            let cell = grid.cell(row, col);
            let area = Bounds {
                x0: (col * w) as u32,
                y0: (row * h) as u32,
                x1: ((col + 1) * w) as u32,
                y1: ((row + 1) * h) as u32,
            };
            let found = font::spec_locate(fonts, cell.ch, 0);
            let after = paint::painted(grid, fonts, opts, paint::cell_count(grid), x, y);
            &&& right_pen(opts, cell, pen)
            &&& area.holds(x, y)
            &&& cell.ch == ' ' ==> after == blank(opts)
            &&& cell.ch != ' ' && found is None && !(0x2800 <= cell.ch as u32 <= 0x28ff) ==> after
                == blank(opts)
            &&& found is None && 0x2800 <= cell.ch as u32 <= 0x28ff ==> after
                == paint::braille_pixel(
                blank(opts),
                (cell.ch as u32 - 0x2800) as u8,
                area,
                (w * grid.cols) as u32,
                (h * grid.rows) as u32,
                pen,
                8,
                x,
                y,
            )
            &&& cell.ch != ' ' && found is Some ==> ({
                let loc = found->0;
                let at = (
                    Single::from_u64((col * w) as u64),
                    Single::from_u64((row * h) as u64).plus(opts.metrics.ascent),
                );
                let box_of = font::glyph_box(
                    fonts[loc.font as int],
                    loc.glyph,
                    opts.font_px.bits,
                    at.0.bits,
                    at.1.bits,
                );
                let dabs = font::glyph_ink(
                    fonts[loc.font as int],
                    loc.glyph,
                    opts.font_px.bits,
                    at.0.bits,
                    at.1.bits,
                );
                let corner = box_of->0;
                &&& box_of is None ==> after == blank(opts)
                &&& box_of is Some ==> after == paint::glyph_pixel(
                    blank(opts),
                    dabs,
                    dabs.len(),
                    (Single { bits: corner.0 }).to_i64() as int,
                    (Single { bits: corner.1 }).to_i64() as int,
                    area,
                    pen,
                    x,
                    y,
                )
            })
        }),
{
    let (w, h) = (opts.metrics.width as int, opts.metrics.height as int);
    let (row, col) = (y / h, x / w);
    let cell = grid.cell(row, col);
    lemma_pen(opts, cell);
    lemma_cells(grid, fonts, opts, paint::cell_count(grid), x, y);
    assert(row * grid.cols + col < grid.rows * grid.cols) by (nonlinear_arith)
        requires
            0 <= row,
            row + 1 <= grid.rows,
            0 <= col < grid.cols,
    ;
    Pen {
        ink: paint::cell_ink(opts, cell.color),
        opacity: paint::cell_opacity(opts, cell.alpha),
        transparent: opts.background == Background::Transparent,
    }
}

/// The pixel `k` of a glyph lies at its place from the corner of the glyph.
pub open spec fn lands(
    dabs: Seq<(u32, u32, u32)>,
    k: int,
    left: int,
    top: int,
    x: int,
    y: int,
) -> bool {
    left + dabs[k].0 == x && top + dabs[k].1 == y
}

/// The first `n` pixels of a glyph.
proof fn lemma_dabs(
    p: [u8; 4],
    dabs: Seq<(u32, u32, u32)>,
    n: nat,
    left: int,
    top: int,
    area: Bounds,
    pen: Pen,
    x: int,
    y: int,
    k: int,
)
    requires
        n <= dabs.len(),
        area.holds(x, y),
        forall|j: int| 0 <= j < dabs.len() && j != k ==> !#[trigger] lands(dabs, j, left, top, x, y),
    ensures
        paint::glyph_pixel(p, dabs, n, left, top, area, pen, x, y) == if 0 <= k < n && lands(
            dabs,
            k,
            left,
            top,
            x,
            y,
        ) {
            paint::spec_blend(
                p,
                pen.ink,
                paint::spec_clamp((Single { bits: dabs[k].2 })).times(pen.opacity),
                pen.transparent,
            )
        } else {
            p
        },
    decreases n,
{
    if n > 0 {
        lemma_dabs(p, dabs, (n - 1) as nat, left, top, area, pen, x, y, k);
        assert(lands(dabs, n - 1, left, top, x, y) == (left + dabs[n - 1].0 == x && top + dabs[n
            - 1].1 == y));
    }
}

/// Ink of a glyph lands where the glyph has it: counted from the corner of its bounds, a
/// pixel of its cell on which only pixel `k` of the glyph lies is inked in the proportion that
/// this one is covered, held between nothing and all, times the opacity of the pen.
pub proof fn law_glyph_ink_lands_where_it_is_drawn(
    p: [u8; 4],
    dabs: Seq<(u32, u32, u32)>,
    left: int,
    top: int,
    area: Bounds,
    pen: Pen,
    x: int,
    y: int,
    k: int,
) -> (alpha: int)
    requires
        area.holds(x, y),
        exact::finite(pen.opacity),
        0 <= near::single_value(pen.opacity) <= exact::one(),
        forall|j: int| 0 <= j < dabs.len() && j != k ==> !#[trigger] lands(dabs, j, left, top, x, y),
        0 <= k < dabs.len() ==> exact::finite((Single { bits: dabs[k].2 })),
    ensures
        ({
            let after = paint::glyph_pixel(p, dabs, dabs.len(), left, top, area, pen, x, y);
            let v = near::single_value((Single { bits: dabs[k].2 }));
            let c = if v < 0 {
                0
            } else if v > exact::one() {
                exact::one() as int
            } else {
                v
            };
            let exact = c * near::single_value(pen.opacity);
            if 0 <= k < dabs.len() && lands(dabs, k, left, top, x, y) {
                &&& exact::inked(p, pen.ink, alpha, pen.transparent, after)
                &&& 0 <= alpha <= exact::one()
                &&& 0x2_0000 * (alpha * exact::one() - exact) <= exact::one() * exact::one()
                &&& 0x2_0000 * (exact - alpha * exact::one()) <= exact::one() * exact::one()
                &&& pen.opacity.bits == paint::ONE ==> alpha == c
            } else {
                after == p
            }
        }),
{
    lemma_dabs(p, dabs, dabs.len(), left, top, area, pen, x, y, k);
    if 0 <= k < dabs.len() && lands(dabs, k, left, top, x, y) {
        let raw = Single { bits: dabs[k].2 };
        let cover = paint::spec_clamp(raw);
        let (zero, one) = (Single { bits: 0 }, Single { bits: paint::ONE });
        brightness::lemma_known();
        assert(near::single_value(zero) == 0 && near::single_value(one) == exact::one());
        paint::discs::lemma_less(raw, zero);
        paint::discs::lemma_less(one, raw);
        exact::lemma_share(cover, pen.opacity);
        exact::law_blending_lays_ink(p, pen.ink, cover.times(pen.opacity), pen.transparent);
        near::single_value(cover.times(pen.opacity))
    } else {
        0
    }
}

/// A font size is accepted if and only if it is a number from 1 to 512.
pub proof fn law_font_sizes_are_limited(px: Single)
    ensures
        paint::font_px_ok(px) == (0x3f80_0000 <= px.bits <= 0x4400_0000),
        paint::font_px_ok(px) ==> exact::one() <= near::single_value(px) <= 512 * exact::one(),
{
    let f = float::single();
    reveal(Single::spec_less);
    reveal(Single::spec_is_nan);
    brightness::lemma_known();
    if paint::font_px_ok(px) {
        float::order::lemma_units_mono(f, paint::ONE as nat, px.bits as nat);
        float::order::lemma_units_mono(f, px.bits as nat, 0x4400_0000);
        assert(f.mant(0x4400_0000) == 0x80_0000 && f.expo(0x4400_0000) == 135);
        lemma2_to64();
        lemma_pow2_adds(23, 135);
        lemma_pow2_adds(9, 149);
    }
}

/// The settings of a background agree with each other: what pictures are composited over is the
/// color of the canvas, where it has one; ink stands out from it; and a conversion is inverted
/// where ink is the bright color. A pixel counts as drawn if and only if it is not what the
/// canvas is made of, or where it is visible at all on a canvas that is made of nothing.
pub proof fn law_backgrounds_agree(opts: &PaintOptions, p: [u8; 4], c: int)
    requires
        0 <= c < 3,
    ensures
        ({
            let bg = opts.background;
            let (fill, ink) = (blank(opts), bg.ink());
            &&& bg.matte() is None <==> fill[3] == 0
            &&& bg.matte() matches Some(m) ==> m[c] == fill[c] && fill[3] == 255 && ink[c] == 255
                - fill[c]
            &&& bg.default_invert() == (ink[c] == 255)
            &&& fill[3] == 255 ==> (paint::is_drawn(p, bg) <==> !(p[0] == fill[0] && p[1] == fill[1]
                && p[2] == fill[2] && p[3] == 255))
            &&& fill[3] == 0 ==> (paint::is_drawn(p, bg) <==> p[3] > 0)
        }),
{
    let fill = blank(opts);
    assert(opts.background.fill() =~= fill);
    if p[0] == fill[0] && p[1] == fill[1] && p[2] == fill[2] && p[3] == fill[3] {
        assert(p =~= fill);
    }
}

/// A canvas has room for every cell, and is refused if and only if it would have more than
/// 500000000 pixels; but a font size that is not accepted is refused first.
pub proof fn law_large_canvases_are_refused(
    grid: &AsciiGrid,
    fonts: Seq<Seq<u8>>,
    opts: &PaintOptions,
)
    ensures
        ({
            let (w, h) = (opts.metrics.width * grid.cols, opts.metrics.height * grid.rows);
            let e = paint::paint_error(grid, fonts, opts);
            if !(0x3f80_0000 <= opts.font_px.bits <= 0x4400_0000) {
                e == Some(PaintError::FontPx(opts.font_px))
            } else if w * h > 500_000_000 {
                e == Some(PaintError::CanvasTooLarge(w as u64, h as u64))
            } else {
                e is None || e == Some(PaintError::GlyphTooLarge)
            }
        }),
{
    law_font_sizes_are_limited(opts.font_px);
    assert(opts.metrics.width * grid.cols >= 0 && opts.metrics.height * grid.rows >= 0)
        by (nonlinear_arith)
        requires
            opts.metrics.width >= 0,
            grid.cols >= 0,
            opts.metrics.height >= 0,
            grid.rows >= 0,
    ;
}

} // verus!
