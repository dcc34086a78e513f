//! What conversions do, in exact numbers.

use crate::engine;
use crate::engine::braille;
use crate::engine::geometry;
use crate::engine::geometry::{Geometry, Span};
use crate::engine::laws;
use crate::engine::sampling;
use crate::engine::tones;
use crate::engine::{Options, FULL};
use crate::float;
use crate::float::code;
use crate::float::near;
use crate::float::order;
use crate::float::ratio;
use crate::float::Double;
use crate::pixels::RgbaImage;
use vstd::arithmetic::div_mod::*;
use vstd::arithmetic::power2::*;
use vstd::prelude::*;

verus! {

/// One, in units of 2^-1074.
pub open spec fn one() -> nat {
    pow2(1074)
}

/// The powers of two that lumas are made of.
proof fn lemma_powers()
    ensures
        pow2(1018) > 0,
        pow2(1020) == 4 * pow2(1018),
        pow2(1021) == 8 * pow2(1018),
        pow2(1029) == 0x800 * pow2(1018),
        pow2(1030) == 0x1000 * pow2(1018),
        pow2(1074) == 0x100_0000_0000_0000 * pow2(1018),
        2 * float::double().hidden() * (1 * pow2(1029)) == 256 * pow2(1074),
        1 * (float::double().hidden() * pow2(1030)) == 256 * pow2(1074),
{
    lemma2_to64();
    lemma2_to64_rest();
    lemma_pow2_pos(1018);
    lemma_pow2_adds(2, 1018);
    lemma_pow2_adds(3, 1018);
    lemma_pow2_adds(11, 1018);
    lemma_pow2_adds(12, 1018);
    lemma_pow2_adds(56, 1018);
    let (h, a, b, c) = (float::double().hidden(), pow2(1029), pow2(1030), pow2(1018));
    assert(2 * h * (1 * a) == 256 * (0x100_0000_0000_0000 * c) && 1 * (h * b) == 256 * (
    0x100_0000_0000_0000 * c)) by (nonlinear_arith)
        requires
            h == 0x10_0000_0000_0000,
            a == 0x800 * c,
            b == 0x1000 * c,
    ;
}

/// A weight times a byte is within 2^-46 of the exact product.
proof fn lemma_weighted(weight: u64, c: u8)
    requires
        weight < 0x3ff0_0000_0000_0000,
    ensures
        ({
            let f = float::double();
            let p = (Double { bits: weight }).times(Double::from_u64(c as u64));
            let x = f.units(weight as nat) * c;
            &&& p.bits < f.inf()
            &&& 2 * f.units(p.bits as nat) <= 2 * x + pow2(1029)
            &&& 2 * x <= 2 * f.units(p.bits as nat) + pow2(1029)
            &&& x <= 255 * one()
        }),
{
    let f = float::double();
    let w = f.units(weight as nat);
    let x = w * c as nat;
    let p = (Double { bits: weight }).times(Double::from_u64(c as u64));
    lemma_powers();
    lemma2_to64();
    lemma2_to64_rest();
    geometry::lemma_small(c as u32);
    let full: nat = 0x3ff0_0000_0000_0000;
    order::lemma_units_mono(f, weight as nat, full);
    assert(f.mant(full) == 0x10_0000_0000_0000 && f.expo(full) == 1022);
    lemma_pow2_adds(52, 1022);
    assert(w <= one());
    assert(x <= 255 * one()) by (nonlinear_arith)
        requires
            x == w * c as nat,
            w <= one(),
            c <= 255,
    ;
    let z = one();
    assert(w * (c as nat * z) == x * z) by (nonlinear_arith)
        requires
            x == w * c as nat,
    ;
    ratio::lemma_round_scale(f, x, 1, z);
    assert(1 * z == z);
    near::lemma_finite(f, x, 1, 1030);
    assert(1 * pow2(1029) == pow2(1029));
    near::lemma_off(f, x, 1, 1029);
    reveal(Double::spec_times);
}

/// A sum of numbers below 256 in all is within 2^-46 of the exact one.
proof fn lemma_added(a: Double, b: Double)
    requires
        a.bits < float::double().inf(),
        b.bits < float::double().inf(),
        float::double().units(a.bits as nat) + float::double().units(b.bits as nat) < 256 * one(),
    ensures
        ({
            let f = float::double();
            let s = f.units(a.bits as nat) + f.units(b.bits as nat);
            let r = a.plus(b).bits;
            &&& r < f.inf()
            &&& 2 * f.units(r as nat) <= 2 * s + pow2(1029)
            &&& 2 * s <= 2 * f.units(r as nat) + pow2(1029)
        }),
{
    let f = float::double();
    let s = f.units(a.bits as nat) + f.units(b.bits as nat);
    lemma_powers();
    code::lemma_round_zero(f);
    near::lemma_finite(f, s, 1, 1030);
    assert(1 * pow2(1029) == pow2(1029));
    near::lemma_off(f, s, 1, 1029);
    reveal(Double::spec_plus);
}

/// The luma of a color is 0.299 of its red, 0.587 of its green and 0.114 of its blue: a
/// thousand times the luma is within 2^-32 of 299, 587 and 114 times the channels.
pub proof fn law_luma_is_the_weighted_mean(color: [u8; 3])
    ensures
        ({
            let luma = sampling::spec_luma(color);
            let exact = (299 * color[0] + 587 * color[1] + 114 * color[2]) * one();
            &&& luma.bits < float::double().inf()
            &&& 0 <= near::double_value(luma)
            &&& -one() < 0x1_0000_0000 * (1000 * near::double_value(luma) - exact) < one()
        }),
{
    let f = float::double();
    lemma_powers();
    let (r, g, b) = (color[0] as int, color[1] as int, color[2] as int);
    let (wr, wg, wb) = (
        sampling::RED_WEIGHT as nat,
        sampling::GREEN_WEIGHT as nat,
        sampling::BLUE_WEIGHT as nat,
    );
    assert(f.mant(wr) == 0x13_22d0_e560_4189 && f.expo(wr) == 1020);
    assert(f.mant(wg) == 0x12_c8b4_3958_1062 && f.expo(wg) == 1021);
    assert(f.mant(wb) == 0x1d_2f1a_9fbe_76c9 && f.expo(wb) == 1018);
    lemma_weighted(sampling::RED_WEIGHT, color[0]);
    lemma_weighted(sampling::GREEN_WEIGHT, color[1]);
    lemma_weighted(sampling::BLUE_WEIGHT, color[2]);
    let q = pow2(1018) as int;
    let (qr, qg, qb) = (q * r, q * g, q * b);
    assert(0 <= qr <= 255 * q && 0 <= qg <= 255 * q && 0 <= qb <= 255 * q) by (nonlinear_arith)
        requires
            qr == q * r,
            qg == q * g,
            qb == q * b,
            0 <= r <= 255,
            0 <= g <= 255,
            0 <= b <= 255,
            q > 0,
    ;
    assert(f.units(wr) == 0x13_22d0_e560_4189 * (4 * q));
    assert(f.units(wg) == 0x12_c8b4_3958_1062 * (8 * q));
    assert(f.units(wb) == 0x1d_2f1a_9fbe_76c9 * q);
    let (xr, xg, xb) = (f.units(wr) * color[0], f.units(wg) * color[1], f.units(wb) * color[2]);
    assert(xr == 0x4c8b_4395_8106_24 * qr && xg == 0x9645_a1ca_c083_10 * qg && xb
        == 0x1d_2f1a_9fbe_76c9 * qb) by (nonlinear_arith)
        requires
            xr == (0x13_22d0_e560_4189 * (4 * q)) * r,
            xg == (0x12_c8b4_3958_1062 * (8 * q)) * g,
            xb == (0x1d_2f1a_9fbe_76c9 * q) * b,
            qr == q * r,
            qg == q * g,
            qb == q * b,
    ;
    let red = Double { bits: sampling::RED_WEIGHT }.times(Double::from_u64(color[0] as u64));
    let green = Double { bits: sampling::GREEN_WEIGHT }.times(Double::from_u64(color[1] as u64));
    let blue = Double { bits: sampling::BLUE_WEIGHT }.times(Double::from_u64(color[2] as u64));
    lemma_added(red, green);
    lemma_added(red.plus(green), blue);
    let exact = (299 * r + 587 * g + 114 * b) * one();
    assert(exact == 0x100_0000_0000_0000 * (299 * qr + 587 * qg + 114 * qb)) by (nonlinear_arith)
        requires
            exact == (299 * r + 587 * g + 114 * b) * one(),
            one() == 0x100_0000_0000_0000 * q,
            qr == q * r,
            qg == q * g,
            qb == q * b,
    ;
}

/// Lumas and whole numbers compare as what they stand for.
proof fn lemma_cut(color: [u8; 3], t: u8)
    ensures
        ({
            let luma = sampling::spec_luma(color);
            let limit = Double::from_u64(t as u64);
            &&& luma.less(limit) == (near::double_value(luma) < t * one())
            &&& limit.less(luma) == (t * one() < near::double_value(luma))
        }),
{
    let (luma, limit) = (sampling::spec_luma(color), Double::from_u64(t as u64));
    law_luma_is_the_weighted_mean(color);
    geometry::lemma_small(t as u32);
    near::lemma_less(luma, limit);
    near::lemma_less(limit, luma);
}

/// What the dot in column `dx` and row `dy` adds to the code point of a braille pattern.
pub open spec fn dot_value(dx: u32, dy: u32) -> u8 {
    if dx == 0 {
        if dy == 0 {
            1
        } else if dy == 1 {
            2
        } else if dy == 2 {
            4
        } else {
            64
        }
    } else if dy == 0 {
        8
    } else if dy == 1 {
        16
    } else if dy == 2 {
        32
    } else {
        128
    }
}

/// Adding no bit changes nothing.
proof fn lemma_no_bit(a: u8)
    ensures
        a | 0 == a,
{
    assert(a | 0 == a) by (bit_vector);
}

/// A pattern has exactly the bits of the dots that are ink.
pub proof fn lemma_bits(lit: Seq<bool>, cols: u32, row: int, col: int, dx: u32, dy: u32)
    requires
        dx < 2,
        dy < 4,
    ensures
        (braille::cell_bits(lit, cols, row, col, 8) & dot_value(dx, dy) != 0)
            == lit[braille::dot_index(cols, row, col, 2 * dy + dx)],
{
    reveal_with_fuel(braille::cell_bits, 9);
    let on = |k: int| lit[braille::dot_index(cols, row, col, k)];
    let bit = |k: int, v: u8|
        if on(k) {
            v
        } else {
            0u8
        };
    let (a, b, c, d) = (bit(0, 1), bit(1, 8), bit(2, 2), bit(3, 16));
    let (e, f, g, h) = (bit(4, 4), bit(5, 32), bit(6, 64), bit(7, 128));
    let part = |k: nat| braille::cell_bits(lit, cols, row, col, k);
    lemma_no_bit(part(0));
    lemma_no_bit(part(1));
    lemma_no_bit(part(2));
    lemma_no_bit(part(3));
    lemma_no_bit(part(4));
    lemma_no_bit(part(5));
    lemma_no_bit(part(6));
    lemma_no_bit(part(7));
    let all = 0u8 | a | b | c | d | e | f | g | h;
    assert(part(8) == all);
    assert((all & 1 != 0) == (a != 0) && (all & 8 != 0) == (b != 0) && (all & 2 != 0) == (c != 0)
        && (all & 16 != 0) == (d != 0) && (all & 4 != 0) == (e != 0) && (all & 32 != 0) == (f != 0)
        && (all & 64 != 0) == (g != 0) && (all & 128 != 0) == (h != 0)) by (bit_vector)
        requires
            all == 0u8 | a | b | c | d | e | f | g | h,
            a == 0 || a == 1,
            b == 0 || b == 8,
            c == 0 || c == 2,
            d == 0 || d == 16,
            e == 0 || e == 4,
            f == 0 || f == 32,
            g == 0 || g == 64,
            h == 0 || h == 128,
    ;
}

/// The dots of a grid stand where their cell says.
pub proof fn lemma_dot(
    image: &RgbaImage,
    g: Geometry,
    matte: Option<[u8; 3]>,
    row: int,
    col: int,
    dx: u32,
    dy: u32,
)
    requires
        0 <= row < g.rows,
        0 <= col < g.cols,
        dx < 2,
        dy < 4,
    ensures
        ({
            let i = braille::dot_index(g.cols, row, col, 2 * dy + dx);
            &&& 0 <= i < g.rows * (8 * g.cols)
            &&& braille::spec_dots(image, g, matte)[i] == sampling::spec_sample(
                image,
                braille::dot_span(g.span(row as u32, col as u32), dx as int, dy as int),
                matte,
            )
        }),
{
    let k = 2 * dy + dx;
    let i = braille::dot_index(g.cols, row, col, k);
    braille::lemma_dot_index(g.cols, g.rows, row, col, k);
    let (x, y) = (col * 2 + dx, row * 4 + dy);
    lemma_fundamental_div_mod_converse(i, 2 * g.cols, y, x);
}

/// With a hard cutoff, a dot of a braille cell that is not blank is ink exactly where it is
/// visible and its luma is below the cutoff, or above it where the conversion is
/// inverted. The dot in each column and row has its own bit in the character.
pub proof fn law_hard_cutoffs_compare_lumas(
    image: &RgbaImage,
    opts: &Options,
    t: u8,
    row: int,
    col: int,
    dx: u32,
    dy: u32,
)
    requires
        opts.charset is Braille,
        opts.braille_threshold == Some(t),
        0 <= row < engine::grid_geometry(image, opts).rows,
        0 <= col < engine::grid_geometry(image, opts).cols,
        dx < 2,
        dy < 4,
        engine::spec_cell(image, opts, row, col).alpha >= opts.alpha_threshold,
    ensures
        ({
            let cell = engine::grid_geometry(image, opts).span(row as u32, col as u32);
            let dot = sampling::spec_sample(
                image,
                braille::dot_span(cell, dx as int, dy as int),
                opts.matte,
            );
            let luma = near::double_value(dot.luma);
            let ch = engine::spec_cell(image, opts, row, col).ch;
            let pattern = if ch == ' ' {
                0u8
            } else {
                (ch as u32 - 0x2800) as u8
            };
            &&& ch == ' ' || 0x2800 < ch as u32 <= 0x28ff
            &&& (pattern & dot_value(dx, dy) != 0) == (dot.alpha >= opts.alpha_threshold && if opts.invert {
                t * one() < luma
            } else {
                luma < t * one()
            })
        }),
{
    let g = engine::grid_geometry(image, opts);
    let dots = braille::spec_dots(image, g, opts.matte);
    let lit = braille::spec_lit(dots, g, opts);
    let bits = braille::cell_bits(lit, g.cols, row, col, 8);
    lemma_dot(image, g, opts.matte, row, col, dx, dy);
    lemma_bits(lit, g.cols, row, col, dx, dy);
    let dot = dots[braille::dot_index(g.cols, row, col, 2 * dy + dx)];
    lemma_cut(dot.color, t);
    assert((0x2800 + bits) as char as u32 == 0x2800 + bits);
    let v = dot_value(dx, dy);
    assert(0u8 & v == 0) by (bit_vector);
}

/// A picture of one opaque gray comes out full of ink where the gray is below a hard cutoff,
/// and blank where it is above it; the other way round where the conversion is
/// inverted.
pub proof fn law_grays_are_cut_at_the_threshold(
    image: &RgbaImage,
    v: u8,
    opts: &Options,
    t: u8,
    row: int,
    col: int,
)
    requires
        laws::flat(image, [v, v, v]),
        opts.charset is Braille,
        opts.braille_threshold == Some(t),
        engine::convert_error(image, opts) is None,
        0 <= row < engine::grid_geometry(image, opts).rows,
        0 <= col < engine::grid_geometry(image, opts).cols,
        v != t,
    ensures
        engine::spec_cell(image, opts, row, col).ch == if (v < t) != opts.invert {
            '\u{28FF}'
        } else {
            ' '
        },
{
    let g = engine::grid_geometry(image, opts);
    let dots = braille::spec_dots(image, g, opts.matte);
    let lit = braille::spec_lit(dots, g, opts);
    let color = [v, v, v];
    let on = (v < t) != opts.invert;
    geometry::lemma_fits(image.width(), image.height(), opts.width, opts.aspect);
    law_luma_is_the_weighted_mean(color);
    lemma_cut(color, t);
    let luma = near::double_value(sampling::spec_luma(color));
    let z = one() as int;
    let (n, m) = (v as int, t as int);
    assert(z > 0) by {
        lemma_pow2_pos(1074);
    }
    assert((299 * n + 587 * n + 114 * n) * z == 1000 * (n * z)) by (nonlinear_arith);
    assert(n < m ==> n * z + z <= m * z) by (nonlinear_arith)
        requires
            z > 0,
    ;
    assert(n > m ==> n * z >= m * z + z) by (nonlinear_arith)
        requires
            z > 0,
    ;
    assert forall|k: int| 0 <= k < 8 implies lit[#[trigger] braille::dot_index(
        g.cols,
        row,
        col,
        k,
    )] == on by {
        let i = braille::dot_index(g.cols, row, col, k);
        braille::lemma_dot_index(g.cols, g.rows, row, col, k);
        let span = braille::lemma_dot_span(g, i);
        laws::lemma_flat_sample(image, color, span, opts.matte);
    }
    tones::lemma_all_bits(lit, g.cols, row, col, on);
    laws::law_flat_images_keep_their_color(image, color, opts, row, col);
}

/// The dots of a cell split it evenly: the part of a side that belongs to a dot starts at the
/// pixel that holds its share of the side, and ends where the next one starts, but has at
/// least one pixel.
pub proof fn law_dots_split_their_cell(cell: Span, dx: int, dy: int)
    requires
        cell.x0 < cell.x1,
        cell.y0 < cell.y1,
        0 <= dx < 2,
        0 <= dy < 4,
    ensures
        ({
            let d = braille::dot_span(cell, dx, dy);
            let (w, h) = (cell.x1 - cell.x0, cell.y1 - cell.y0);
            &&& 2 * (d.x0 - cell.x0) <= dx * w < 2 * (d.x0 - cell.x0) + 2
            &&& 4 * (d.y0 - cell.y0) <= dy * h < 4 * (d.y0 - cell.y0) + 4
            &&& w >= 2 ==> d.x1 == if dx == 1 {
                cell.x1
            } else {
                braille::dot_span(cell, dx + 1, dy).x0
            }
            &&& h >= 4 ==> d.y1 == if dy == 3 {
                cell.y1
            } else {
                braille::dot_span(cell, dx, dy + 1).y0
            }
            &&& w < 2 ==> d.x1 == d.x0 + 1
            &&& d.x0 < d.x1 <= cell.x1
            &&& d.y0 < d.y1 <= cell.y1
            &&& h < 4 && dy < 3 && braille::dot_span(cell, dx, dy + 1).y0 > d.y0 ==> d.y1
                == braille::dot_span(cell, dx, dy + 1).y0
            &&& h < 4 && dy < 3 && braille::dot_span(cell, dx, dy + 1).y0 == d.y0 ==> d.y1 == d.y0 + 1
        }),
{
    let (w, h) = (cell.x1 - cell.x0, cell.y1 - cell.y0);
    braille::lemma_part(cell.x0, cell.x1, dx, 2);
    braille::lemma_part(cell.y0, cell.y1, dy, 4);
    lemma_fundamental_div_mod(dx * w, 2);
    lemma_fundamental_div_mod(dy * h, 4);
    lemma_fundamental_div_mod((dx + 1) * w, 2);
    lemma_fundamental_div_mod((dy + 1) * h, 4);
    assert((dx + 1) * w == dx * w + w && (dy + 1) * h == dy * h + h) by (nonlinear_arith);
    if dy < 3 {
        braille::lemma_part(cell.y0, cell.y1, dy + 1, 4);
    }
    if dx < 1 {
        braille::lemma_part(cell.x0, cell.x1, dx + 1, 2);
    }
    assert(dx == 1 ==> (dx + 1) * w == 2 * w) by (nonlinear_arith);
    assert(dy == 3 ==> (dy + 1) * h == 4 * h) by (nonlinear_arith);
}

/// The value of the brightness of a color, out of 255000.
pub open spec fn brightness(color: [u8; 3]) -> int {
    299 * color[0] + 587 * color[1] + 114 * color[2]
}

/// The ramp index of a luma that is not zero, before it is held to the ramp.
proof fn lemma_ramp_index(luma: Double, n: usize)
    requires
        luma.bits < float::double().inf(),
        0x2000_0000_0000_0000 <= near::double_value(luma) <= 256 * one(),
        0 < n < 0x20_0000_0000_0000,
    ensures
        ({
            let raw = luma.times(Double::from_u64(n as u64)).over(Double { bits: FULL }).to_u64();
            let exact = near::double_value(luma) * n;
            &&& (raw * one()) * 255 * 0x400_0000_0000_0000_0000_0000_0000 <= exact * (
            0x20_0000_0000_0001 * 0x20_0000_0000_0001)
            &&& exact * (0x1f_ffff_ffff_ffff * 0x1f_ffff_ffff_ffff) < ((raw + 1) * one()) * 255
                * 0x400_0000_0000_0000_0000_0000_0000
        }),
{
    let f = float::double();
    let z = one();
    let h = f.hidden();
    let l = f.units(luma.bits as nat);
    let m = n as nat;
    let k = Double::from_u64(n as u64);
    lemma_pow2_pos(1074);
    lemma2_to64();
    lemma2_to64_rest();
    // The length of the ramp and 255 are held exactly.
    laws::lemma_from_positive(n as u64);
    reveal(Double::spec_from_u64);
    order::lemma_round_representable(f, m, 1074);
    assert(f.units(k.bits as nat) == m * z);
    assert(f.mant(FULL as nat) == 0x1f_e000_0000_0000 && f.expo(FULL as nat) == 1029);
    lemma_pow2_adds(45, 1029);
    assert(f.units(FULL as nat) == 255 * z) by (nonlinear_arith)
        requires
            f.units(FULL as nat) == 0x1f_e000_0000_0000 * pow2(1029),
            z == 0x2000_0000_0000 * pow2(1029),
    ;
    // The product.
    let x = l * m;
    assert(l * (m * z) == x * z) by (nonlinear_arith)
        requires
            x == l * m,
    ;
    ratio::lemma_round_scale(f, x, 1, z);
    assert(1 * z == z);
    lemma_pow2_adds(9, 1074);
    let big = pow2(1083);
    assert(h <= x && x <= 1 * (h * big)) by (nonlinear_arith)
        requires
            x == l * m,
            h == 0x10_0000_0000_0000,
            h <= l <= 256 * z,
            1 <= m <= 0x20_0000_0000_0000,
            big == 512 * z,
    ;
    near::lemma_finite(f, x, 1, 1083);
    assert(h * 1 == h);
    near::lemma_near(f, x, 1);
    reveal(Double::spec_times);
    let p = luma.times(k);
    let u = f.units(p.bits as nat);
    assert(p.bits == f.round(x, 1));
    assert(u * 1 == u);
    // The quotient.
    let (num, den) = (u * z, 255 * z);
    assert(x >= l) by (nonlinear_arith)
        requires
            x == l * m,
            m >= 1,
            l >= 0,
    ;
    assert(h * den <= num) by (nonlinear_arith)
        requires
            num == u * z,
            den == 255 * z,
            255 * h <= u,
    ;
    assert(num <= den * (h * big)) by (nonlinear_arith)
        requires
            num == u * z,
            den == 255 * z,
            u * (2 * h) <= x * (2 * h + 1),
            x <= h * big,
            h == 0x10_0000_0000_0000,
            big >= 0,
    ;
    near::lemma_finite(f, num, den, 1083);
    near::lemma_near(f, num, den);
    reveal(Double::spec_over);
    let q = p.over(Double { bits: FULL });
    let v = f.units(q.bits as nat);
    assert(q.bits == f.round(num, den));
    assert(v * 255 * (2 * h) <= u * (2 * h + 1) && u * (2 * h - 1) <= v * 255 * (2 * h))
        by (nonlinear_arith)
        requires
            v * den * (2 * h) <= num * (2 * h + 1),
            num * (2 * h - 1) <= v * den * (2 * h),
            num == u * z,
            den == 255 * z,
            z > 0,
    ;
    let raw = v / z;
    lemma_fundamental_div_mod(v as int, z as int);
    assert(raw * z == z * raw) by (nonlinear_arith);
    assert((raw + 1) * z == raw * z + z) by (nonlinear_arith);
    assert(raw < 0x1_0000_0000_0000_0000) by (nonlinear_arith)
        requires
            raw * z <= v,
            v * 255 * (2 * h) <= u * (2 * h + 1),
            u * (2 * h) <= x * (2 * h + 1),
            x <= h * (512 * z),
            h == 0x10_0000_0000_0000,
            z > 0,
    ;
    reveal(Double::spec_to_u64);
    assert(q.to_u64() == raw);
    assert(v * 255 * 0x400_0000_0000_0000_0000_0000_0000 <= x * (0x20_0000_0000_0001
        * 0x20_0000_0000_0001)) by (nonlinear_arith)
        requires
            v * 255 * (2 * h) <= u * (2 * h + 1),
            u * (2 * h) <= x * (2 * h + 1),
            h == 0x10_0000_0000_0000,
    ;
    assert(x * (0x1f_ffff_ffff_ffff * 0x1f_ffff_ffff_ffff) <= v * 255
        * 0x400_0000_0000_0000_0000_0000_0000) by (nonlinear_arith)
        requires
            u * (2 * h - 1) <= v * 255 * (2 * h),
            x * (2 * h - 1) <= u * (2 * h),
            h == 0x10_0000_0000_0000,
    ;
    assert(near::double_value(luma) * n == x);
}

/// The ramp is divided evenly over brightness: the index of a color is its brightness times
/// the length of the ramp, out of 255000 and cut to a whole number, up to 2^-31 of the
/// length; and the last index at full brightness.
pub proof fn law_ramp_index_is_proportional(color: [u8; 3], n: usize)
    requires
        0 < n < 0x20_0000_0000_0000,
    ensures
        ({
            let i = engine::ramp_index(sampling::spec_luma(color), n, false);
            let e = 0x1_0000_0000int;
            &&& i < n
            &&& e * 255000 * i <= n * (e * brightness(color) + 2)
            &&& i == n - 1 || n * (e * brightness(color) - 2) < e * 255000 * (i + 1)
            &&& engine::ramp_index(sampling::spec_luma(color), n, true) == n - 1 - i
        }),
{
    let luma = sampling::spec_luma(color);
    let y = brightness(color);
    let z = one() as int;
    let l = near::double_value(luma);
    let e = 0x1_0000_0000int;
    lemma_powers();
    law_luma_is_the_weighted_mean(color);
    if y == 0 {
        assert(color =~= [0u8, 0u8, 0u8]);
        laws::law_black_is_the_first_character(n);
        assert(n * (e * y + 2) >= 0) by (nonlinear_arith)
            requires
                y == 0,
                n > 0,
        ;
        assert(n * (e * y - 2) < 0) by (nonlinear_arith)
            requires
                y == 0,
                n > 0,
        ;
    } else {
        assert(1 <= y <= 255000);
        assert(z <= y * z <= 255000 * z) by (nonlinear_arith)
            requires
                1 <= y <= 255000,
                z > 0,
        ;
        assert(z >= 0x1000_0000_0000_0000_0000) by {
            lemma2_to64();
            lemma_pow2_adds(64, 1010);
            lemma_pow2_adds(12, 998);
            lemma_pow2_pos(998);
            assert(z >= 0x1000_0000_0000_0000_0000) by (nonlinear_arith)
                requires
                    z == 0x1_0000_0000_0000_0000 * pow2(1010),
                    pow2(1010) == 4096 * pow2(998),
                    pow2(998) >= 1,
            ;
        }
        lemma_ramp_index(luma, n);
        let raw = luma.times(Double::from_u64(n as u64)).over(Double { bits: FULL }).to_u64() as int;
        let m = n as int;
        let (up, down) = (0x20_0000_0000_0001int * 0x20_0000_0000_0001, 0x1f_ffff_ffff_ffffint
            * 0x1f_ffff_ffff_ffff);
        let sq = 0x400_0000_0000_0000_0000_0000_0000int;
        let (more, less) = (e * y + 1, e * y - 1);
        // The luma is next to the brightness.
        assert(e * (1000 * l) <= more * z && less * z <= e * (1000 * l)) by (nonlinear_arith)
            requires
                -z < e * (1000 * l - y * z) < z,
                more == e * y + 1,
                less == e * y - 1,
        ;
        let lm = l * m;
        assert(e * (1000 * lm) <= (m * more) * z && (m * less) * z <= e * (1000 * lm))
            by (nonlinear_arith)
            requires
                lm == l * m,
                e * (1000 * l) <= more * z,
                less * z <= e * (1000 * l),
                m > 0,
        ;
        let (a, b) = (m * more, m * less);
        // Divided by one.
        assert(raw * 255 * sq * 1000 * e <= a * up) by (nonlinear_arith)
            requires
                (raw * z) * 255 * sq <= lm * up,
                e * (1000 * lm) <= a * z,
                up > 0,
                e > 0,
                z > 0,
        ;
        assert(b * down < (raw + 1) * 255 * sq * 1000 * e) by (nonlinear_arith)
            requires
                lm * down < ((raw + 1) * z) * 255 * sq,
                b * z <= e * (1000 * lm),
                down > 0,
                e > 0,
                z > 0,
        ;
        // The rounding takes less than one more.
        assert(0 < e * y <= 0x3_e418_0000_0000);
        assert(m * (more * up) <= m * ((e * y + 2) * sq)) by (nonlinear_arith)
            requires
                more * up <= (e * y + 2) * sq,
                m > 0,
        ;
        assert(m * ((e * y - 2) * sq) <= m * (less * down)) by (nonlinear_arith)
            requires
                (e * y - 2) * sq <= less * down,
                m > 0,
        ;
        let (c, d) = (m * (e * y + 2), m * (e * y - 2));
        assert(a * up == m * (more * up) && b * down == m * (less * down) && c * sq == m * ((e * y
            + 2) * sq) && d * sq == m * ((e * y - 2) * sq)) by (nonlinear_arith)
            requires
                a == m * more,
                b == m * less,
                c == m * (e * y + 2),
                d == m * (e * y - 2),
        ;
        let i = engine::ramp_index(luma, n, false);
        assert(i <= raw);
    }
}

} // verus!
