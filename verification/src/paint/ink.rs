//! What ink on a transparent canvas carries.

use crate::engine::AsciiGrid;
use crate::float;
use crate::float::order;
use crate::float::Single;
use crate::font;
use crate::paint;
use crate::paint::brightness;
use crate::paint::laws;
use crate::paint::{Background, Bounds, PaintOptions, Pen};
use vstd::arithmetic::div_mod::*;
use vstd::arithmetic::power2::*;
use vstd::prelude::*;

verus! {

/// Whether a pixel has the color of an ink and at most the given alpha.
pub open spec fn inked(p: [u8; 4], ink: [u8; 3], alpha: u8) -> bool {
    p[0] == ink[0] && p[1] == ink[1] && p[2] == ink[2] && p[3] <= alpha
}

/// The alpha of a cell as a fraction, brought back to a byte, is not above it.
proof fn lemma_round_trip(alpha: u8)
    requires
        alpha > 0,
    ensures
        ({
            let f = float::single();
            let q = Single::from_u64(alpha as u64).over((Single { bits: paint::FULL })).bits as u64;
            let p = f.spec_product(q, paint::FULL as u64);
            &&& 0 < q <= paint::ONE
            &&& p < f.inf()
            &&& f.whole(p as nat, float::code::Whole::Nearest) <= alpha
        }),
{
    let f = float::single();
    let one = pow2(149);
    let h = f.hidden();
    let full = paint::FULL as u64;
    let a = alpha as nat;
    let x = Single::from_u64(alpha as u64).bits as u64;
    lemma_pow2_pos(149);
    lemma2_to64();
    brightness::lemma_byte(alpha);
    brightness::lemma_byte_mono(alpha, 255);
    brightness::lemma_known();
    reveal(Single::spec_over);
    let q = f.spec_quotient(x, full);
    let num = (a * one) * one;
    let den = 255 * one;
    assert(q == f.round(num, den));
    // The fraction is between nothing and one.
    assert(num * 1 <= one * den) by (nonlinear_arith)
        requires
            num == (a * one) * one,
            den == 255 * one,
            a <= 255,
            one > 0,
    ;
    order::lemma_round_mono(f, num, den, one, 1);
    order::lemma_round_exact(f, paint::ONE as nat);
    assert(q <= paint::ONE);
    lemma_pow2_adds(23, 126);
    lemma_pow2_pos(126);
    assert(one == 0x80_0000 * pow2(126));
    lemma_large(one);
    assert(h * den <= num) by (nonlinear_arith)
        requires
            h == 0x80_0000,
            den == 255 * one,
            num == (a * one) * one,
            a >= 1,
            one >= 255 * 0x80_0000,
    ;
    order::lemma_round_over(f, num, den);
    let u = f.units(q as nat);
    assert(u * 255 * (2 * h) <= (a * one) * (2 * h + 1)) by (nonlinear_arith)
        requires
            u * den * (2 * h) <= num * (2 * h + 1),
            den == 255 * one,
            num == (a * one) * one,
            one > 0,
    ;
    // The fraction is at least that of the least alpha.
    assert(one * den <= (256 * num) * 1) by (nonlinear_arith)
        requires
            num == (a * one) * one,
            den == 255 * one,
            a >= 1,
            one > 0,
    ;
    let least: nat = 0x3b80_0000;
    assert(f.mant(least) == 0x80_0000 && f.expo(least) == 118);
    lemma_pow2_adds(8, 118);
    assert(256 * f.units(least) == one) by (nonlinear_arith)
        requires
            f.units(least) == 0x80_0000 * pow2(118),
            pow2(126) == 256 * pow2(118),
            one == 0x80_0000 * pow2(126),
    ;
    assert(f.units(least) * den <= num * 1) by (nonlinear_arith)
        requires
            256 * f.units(least) == one,
            one * den <= (256 * num) * 1,
    ;
    order::lemma_round_mono(f, f.units(least), 1, num, den);
    order::lemma_round_exact(f, least);
    order::lemma_units_mono(f, least, q as nat);
    // Brought back to a byte.
    let p = f.spec_product(q, full);
    let back = u * (255 * one);
    assert(p == f.round(back, one));
    order::lemma_product_mono(f, q, paint::ONE as u64, full);
    brightness::lemma_times_one(full);
    assert(p <= full);
    assert(h * one <= back) by (nonlinear_arith)
        requires
            back == u * (255 * one),
            u >= f.units(least),
            256 * f.units(least) == one,
            one >= 255 * 0x80_0000,
            h == 0x80_0000,
    ;
    order::lemma_round_over(f, back, one);
    let v = f.units(p as nat);
    assert(v * (2 * h) <= u * 255 * (2 * h + 1)) by (nonlinear_arith)
        requires
            v * one * (2 * h) <= back * (2 * h + 1),
            back == u * (255 * one),
            one > 0,
    ;
    assert(v * (2 * h) * (2 * h) <= (a * one) * ((2 * h + 1) * (2 * h + 1))) by (nonlinear_arith)
        requires
            v * (2 * h) <= u * 255 * (2 * h + 1),
            u * 255 * (2 * h) <= (a * one) * (2 * h + 1),
            h > 0,
    ;
    assert(2 * v < one * (2 * a + 1)) by (nonlinear_arith)
        requires
            v * (2 * h) * (2 * h) <= (a * one) * ((2 * h + 1) * (2 * h + 1)),
            h == 0x80_0000,
            a <= 255,
            one > 0,
    ;
    assert(2 * v + one < (2 * one) * (a + 1)) by (nonlinear_arith)
        requires
            2 * v < one * (2 * a + 1),
    ;
    let n = (2 * v + one) / (2 * one);
    lemma_fundamental_div_mod((2 * v + one) as int, (2 * one) as int);
    assert(n < a + 1) by (nonlinear_arith)
        requires
            2 * v + one == (2 * one) * n + (2 * v + one) % (2 * one),
            (2 * v + one) % (2 * one) >= 0,
            2 * v + one < (2 * one) * (a + 1),
            one > 0,
    ;
}

/// One is a large number of units.
proof fn lemma_large(one: nat)
    requires
        one == pow2(149),
    ensures
        one >= 255 * 0x80_0000,
{
    lemma2_to64();
    lemma_pow2_adds(32, 117);
    lemma_pow2_pos(117);
    assert(one >= 0x1_0000_0000) by (nonlinear_arith)
        requires
            one == 0x1_0000_0000 * pow2(117),
            pow2(117) >= 1,
    ;
}

/// A coverage between nothing and one leaves at most the alpha of the cell.
proof fn lemma_alpha(v: Single, alpha: u8)
    ensures
        paint::to_byte(
            paint::spec_clamp(v).times(
                Single::from_u64(alpha as u64).over((Single { bits: paint::FULL })),
            ).times((Single { bits: paint::FULL })).nearest_u64(),
        ) <= alpha,
{
    let f = float::single();
    let full = paint::FULL as u64;
    let c = paint::spec_clamp(v);
    let o = Single::from_u64(alpha as u64).over((Single { bits: paint::FULL }));
    let one = pow2(149);
    lemma_pow2_pos(149);
    brightness::lemma_known();
    brightness::lemma_byte(alpha);
    reveal(Single::spec_less);
    reveal(Single::spec_is_nan);
    reveal(Single::spec_times);
    reveal(Single::spec_nearest_u64);
    let cb = c.bits as u64;
    assert(f.is_nan(cb) || f.mag(cb) == 0 || 0 < cb <= paint::ONE);
    float::code::lemma_round_zero(f);
    assert(0 * one == 0 && 0 * f.units(full as nat) == 0 && one * 0 == 0);
    lemma_fundamental_div_mod_converse(one as int, (2 * one) as int, 0, one as int);
    assert(f.whole(0, float::code::Whole::Nearest) == 0);
    let product = f.spec_product(cb, o.bits as u64);
    let back = f.spec_product(product as u32 as u64, full);
    if f.is_nan(cb) {
    } else if alpha == 0 {
        reveal(Single::spec_over);
        lemma_nothing(255 * one);
        assert(o.bits == 0);
        lemma_nothing(one);
        assert(f.units(f.mag(cb)) * 0 == 0);
    } else {
        lemma_round_trip(alpha);
        let q = o.bits as u64;
        lemma_nothing(one);
        if f.mag(cb) == 0 {
            assert(0 * f.units(q as nat) == 0);
        } else {
            order::lemma_product_mono(f, cb, paint::ONE as u64, q);
            brightness::lemma_times_one(q);
            assert(product <= q);
            order::lemma_product_mono(f, product, q, full);
            let top = f.spec_product(q, full);
            assert(back <= top);
            order::lemma_units_mono(f, back as nat, top as nat);
            lemma_div_is_ordered(
                (2 * f.units(back as nat) + one) as int,
                (2 * f.units(top as nat) + one) as int,
                (2 * one) as int,
            );
        }
    }
}

/// Nothing rounds to nothing.
proof fn lemma_nothing(den: nat)
    requires
        den > 0,
    ensures
        float::single().round(0, den) == 0,
{
    let f = float::single();
    order::lemma_round_mono(f, 0, den, 0, 1);
    float::code::lemma_round_zero(f);
}

proof fn lemma_glyph_inked(
    p: [u8; 4],
    dabs: Seq<(u32, u32, u32)>,
    n: nat,
    left: int,
    top: int,
    area: Bounds,
    pen: Pen,
    alpha: u8,
    x: int,
    y: int,
)
    requires
        pen.transparent,
        pen.opacity == Single::from_u64(alpha as u64).over((Single { bits: paint::FULL })),
    ensures
        ({
            let q = paint::glyph_pixel(p, dabs, n, left, top, area, pen, x, y);
            q == p || inked(q, pen.ink, alpha)
        }),
    decreases n,
{
    if n > 0 {
        lemma_glyph_inked(p, dabs, (n - 1) as nat, left, top, area, pen, alpha, x, y);
        lemma_alpha((Single { bits: dabs[n - 1].2 }), alpha);
    }
}

proof fn lemma_braille_inked(
    p: [u8; 4],
    bits: u8,
    area: Bounds,
    width: u32,
    height: u32,
    pen: Pen,
    alpha: u8,
    n: nat,
    x: int,
    y: int,
)
    requires
        pen.transparent,
        pen.opacity == Single::from_u64(alpha as u64).over((Single { bits: paint::FULL })),
    ensures
        ({
            let q = paint::braille_pixel(p, bits, area, width, height, pen, n, x, y);
            q == p || inked(q, pen.ink, alpha)
        }),
    decreases n,
{
    if n > 0 {
        lemma_braille_inked(p, bits, area, width, height, pen, alpha, (n - 1) as nat, x, y);
        let disc = paint::spec_disc(area, (n - 1) as u32, width, height);
        let d = paint::off_center(x as u32, disc.x).plus(
            paint::off_center(y as u32, disc.y),
        ).root();
        lemma_alpha(disc.radius.plus((Single { bits: paint::HALF })).minus(d), alpha);
    }
}

/// Whether a pixel has the ink of a cell and at most its alpha.
pub open spec fn inked_by(
    p: [u8; 4],
    grid: &AsciiGrid,
    opts: &PaintOptions,
    row: int,
    col: int,
) -> bool {
    inked(p, paint::cell_ink(opts, grid.cell(row, col).color), grid.cell(row, col).alpha)
}

/// A pixel of a transparent canvas after one more cell was painted.
proof fn lemma_cell_inked(
    p: [u8; 4],
    grid: &AsciiGrid,
    fonts: Seq<Seq<u8>>,
    opts: &PaintOptions,
    row: int,
    col: int,
    x: int,
    y: int,
)
    requires
        opts.background == Background::Transparent,
    ensures
        ({
            let q = paint::cell_pixel(p, grid, fonts, opts, row, col, x, y);
            q == p || inked_by(q, grid, opts, row, col)
        }),
{
    let cell = grid.cell(row, col);
    let area = paint::cell_area(opts, row, col);
    let pen = laws::cell_pen(grid, opts, row, col);
    match font::spec_locate(fonts, cell.ch, 0) {
        Some(loc) => {
            let font = fonts[loc.font as int];
            let (gx, gy) = paint::glyph_place(opts, area);
            let dabs = font::glyph_ink(font, loc.glyph, opts.font_px.bits, gx.bits, gy.bits);
            if let Some(b) = paint::placed_box(font, loc.glyph, opts, area) {
                lemma_glyph_inked(
                    p,
                    dabs,
                    dabs.len(),
                    (Single { bits: b.0 }).to_i64() as int,
                    (Single { bits: b.1 }).to_i64() as int,
                    area,
                    pen,
                    cell.alpha,
                    x,
                    y,
                );
            }
        },
        None => {
            lemma_braille_inked(
                p,
                paint::pattern_bits(cell.ch),
                area,
                paint::canvas_width(grid, opts) as u32,
                paint::canvas_height(grid, opts) as u32,
                pen,
                cell.alpha,
                8,
                x,
                y,
            );
        },
    }
}

/// A pixel lies in one cell only.
proof fn lemma_own_cell(grid: &AsciiGrid, opts: &PaintOptions, row: int, col: int, x: int, y: int)
    requires
        0 <= row < grid.rows,
        0 <= col < grid.cols,
        opts.metrics.wf(),
        paint::canvas_width(grid, opts) <= 0x100_0000,
        paint::canvas_height(grid, opts) <= 0x100_0000,
        paint::cell_area(opts, row, col).holds(x, y),
    ensures
        row == y / opts.metrics.height as int,
        col == x / opts.metrics.width as int,
{
    let (w, h) = (opts.metrics.width as int, opts.metrics.height as int);
    assert(0 <= col * w && col * w + w <= w * grid.cols) by (nonlinear_arith)
        requires
            0 <= col,
            col + 1 <= grid.cols,
            w > 0,
    ;
    assert(0 <= row * h && row * h + h <= h * grid.rows) by (nonlinear_arith)
        requires
            0 <= row,
            row + 1 <= grid.rows,
            h > 0,
    ;
    lemma_fundamental_div_mod_converse(x, w, col, x - col * w);
    lemma_fundamental_div_mod_converse(y, h, row, y - row * h);
}

/// On a transparent canvas, with and without cell colors, every pixel is empty or has the
/// ink color of its own cell, at most as opaque as the cell, on canvases of up to 2^24
/// pixels a side.
pub proof fn law_transparent_canvas_holds_the_ink_of_cells(
    grid: &AsciiGrid,
    fonts: Seq<Seq<u8>>,
    opts: &PaintOptions,
    n: nat,
    x: int,
    y: int,
)
    requires
        opts.background == Background::Transparent,
        n <= paint::cell_count(grid),
        opts.metrics.wf(),
        paint::canvas_width(grid, opts) <= 0x100_0000,
        paint::canvas_height(grid, opts) <= 0x100_0000,
    ensures
        ({
            let p = paint::painted(grid, fonts, opts, n, x, y);
            p == Background::Transparent.fill() || inked_by(
                p,
                grid,
                opts,
                y / opts.metrics.height as int,
                x / opts.metrics.width as int,
            )
        }),
    decreases n,
{
    if n > 0 {
        let i = n - 1;
        law_transparent_canvas_holds_the_ink_of_cells(grid, fonts, opts, i as nat, x, y);
        let w = grid.cols as int;
        assert(w > 0) by (nonlinear_arith)
            requires
                grid.rows * w > 0,
                w >= 0,
        ;
        let (row, col) = (i / w, i % w);
        lemma_fundamental_div_mod(i, w);
        assert(0 <= row < grid.rows) by (nonlinear_arith)
            requires
                i == w * row + col,
                0 <= col < w,
                0 <= i < grid.rows * w,
        ;
        let p = paint::painted(grid, fonts, opts, i as nat, x, y);
        lemma_cell_inked(p, grid, fonts, opts, row, col, x, y);
        if paint::cell_area(opts, row, col).holds(x, y) {
            lemma_own_cell(grid, opts, row, col, x, y);
        } else if font::spec_locate(fonts, grid.cell(row, col).ch, 0) is Some {
            laws::law_glyphs_stay_inside_their_cells(p, grid, fonts, opts, row, col, x, y);
        } else {
            laws::law_dots_stay_inside_their_cells(p, grid, fonts, opts, row, col, x, y);
        }
    }
}

} // verus!
