//! How cells lie next to each other.

use crate::engine::geometry;
use crate::engine::geometry::Geometry;
use crate::float;
use crate::float::code;
use crate::float::order;
use crate::float::ratio;
use crate::float::{Double, Single};
use vstd::arithmetic::div_mod::*;
use vstd::arithmetic::power2::*;
use vstd::prelude::*;

verus! {

/// Adding an even number of divisors adds that number to a rounded quotient.
proof fn lemma_shift(a: nat, d: nat, s: nat)
    requires
        d > 0,
    ensures
        ratio::half_even(a + 2 * s * d, d) == ratio::half_even(a, d) + 2 * s,
{
    let (q, r) = (a / d, a % d);
    lemma_fundamental_div_mod(a as int, d as int);
    assert(a + 2 * s * d == (q + 2 * s) * d + r) by (nonlinear_arith)
        requires
            a == d * q + r,
    ;
    lemma_fundamental_div_mod_converse(
        (a + 2 * s * d) as int,
        d as int,
        (q + 2 * s) as int,
        r as int,
    );
}

/// Where a number rounds to at least `k`, one more rounds to at least `k + 1`.
proof fn lemma_next_whole(u: nat, k: nat)
    requires
        ({
            let f = float::double();
            let one = pow2(1074);
            &&& k < 0x1_0000_0000
            &&& f.round(u, 1) < f.inf()
            &&& f.round(u + one, 1) < f.inf()
            &&& k * one <= f.units(f.round(u, 1))
        }),
    ensures
        (k + 1) * pow2(1074) <= float::double().units(float::double().round(u + pow2(1074), 1)),
{
    let f = float::double();
    let one = pow2(1074);
    let v = u + one;
    geometry::lemma_double();
    order::lemma_round_representable(f, k + 1, 1074);
    order::lemma_round_representable(f, k, 1074);
    assert((k + 1) * one == k * one + one) by (nonlinear_arith);
    if u >= k * one {
        order::lemma_round_mono(f, (k + 1) * one, 1, v, 1);
        order::lemma_units_mono(f, f.round((k + 1) * one, 1), f.round(v, 1));
    } else {
        order::lemma_round_mono(f, u, 1, k * one, 1);
        order::lemma_units_mono(f, f.round(u, 1), f.round(k * one, 1));
        assert(f.units(f.round(u, 1)) == k * one);
        let (q, r) = (f.quantum(u, 1), f.quantum(v, 1));
        let (d, e) = (pow2(q), pow2(r));
        order::lemma_round_units(f, u, 1);
        order::lemma_round_units(f, v, 1);
        lemma_pow2_pos(q);
        lemma_pow2_pos(r);
        assert(u / 1 == u && v / 1 == v && 1 * d == d && 1 * e == e);
        order::lemma_bit_len_mono(u, v);
        order::lemma_quantum(f, v, 1);
        assert(r <= 1073) by {
            if r > 1073 {
                ratio::lemma_pow2_mono(1074, r);
                assert(f.hidden() * e > v) by (nonlinear_arith)
                    requires
                        f.hidden() == 0x10_0000_0000_0000,
                        e >= one,
                        v < (k + 1) * one,
                        k < 0x1_0000_0000,
                        one > 0,
                ;
            }
        }
        let s = pow2((1073 - r) as nat);
        lemma_pow2_adds(r, (1074 - r) as nat);
        lemma_pow2_unfold((1074 - r) as nat);
        assert(one == 2 * s * e) by (nonlinear_arith)
            requires
                one == e * (2 * s),
        ;
        let (m, h) = (ratio::half_even(u, d), ratio::half_even(v, e));
        assert(m * d == k * one);
        if q == r {
            lemma_shift(u, d, s);
            assert((m + 2 * s) * d == m * d + 2 * s * d) by (nonlinear_arith);
        } else {
            ratio::lemma_pow2_mono(q + 1, r);
            lemma_pow2_unfold(q + 1);
            order::lemma_half_even_near(u, d);
            order::lemma_half_even_near(v, e);
            let most = (k + 1) * (2 * s);
            assert(most * e == (k + 1) * one) by (nonlinear_arith)
                requires
                    most == (k + 1) * (2 * s),
                    one == 2 * s * e,
            ;
            assert(2 * d * m == 2 * (m * d)) by (nonlinear_arith);
            assert(h >= most) by (nonlinear_arith)
                requires
                    2 * (k * one) <= 2 * u + d,
                    2 * v <= 2 * e * h + e,
                    v == u + one,
                    most * e == k * one + one,
                    2 * d <= e,
                    e > 0,
            ;
            assert(h * e >= most * e) by (nonlinear_arith)
                requires
                    h >= most,
                    e > 0,
            ;
        }
    }
}

/// The first pixel of a cell, before it is held to a range.
pub proof fn lemma_start_value(cell: Double, at: u32)
    requires
        !float::double().neg(cell.bits),
        float::double().mag(cell.bits) < float::double().inf(),
    ensures
        ({
            let f = float::double();
            let z = at as nat * f.units(f.mag(cell.bits));
            let product = Double::from_u64(at as u64).times(cell).bits;
            &&& !f.neg(product)
            &&& f.mag(product) == f.round(z, 1)
        }),
{
    let f = float::double();
    let c = f.units(f.mag(cell.bits));
    let p = pow2(1074);
    let z = at as nat * c;
    geometry::lemma_double();
    geometry::lemma_small(at);
    assert((at as nat * p) * c == z * p) by (nonlinear_arith)
        requires
            z == at as nat * c,
    ;
    ratio::lemma_round_scale(f, z, 1, p);
    assert(1 * p == p);
    reveal(Double::spec_times);
}

/// Cells that are not smaller than a pixel start at different pixels.
proof fn lemma_starts(cell: Double, at: u32, size: u32)
    requires
        at < u32::MAX,
        ({
            let f = float::double();
            &&& !f.neg(cell.bits)
            &&& f.mag(cell.bits) < f.inf()
            &&& f.units(f.mag(cell.bits)) >= pow2(1074)
        }),
        geometry::spec_start(cell, (at + 1) as u32) < size,
    ensures
        geometry::spec_start(cell, at) < geometry::spec_start(cell, (at + 1) as u32),
{
    let f = float::double();
    let one = pow2(1074);
    let c = f.units(f.mag(cell.bits));
    let (u, v) = (at as nat * c, (at + 1) as nat * c);
    geometry::lemma_double();
    lemma_start_value(cell, at);
    lemma_start_value(cell, (at + 1) as u32);
    assert(v == u + c) by (nonlinear_arith)
        requires
            u == at as nat * c,
            v == (at + 1) as nat * c,
    ;
    reveal(Double::spec_to_u64);
    let (x, y) = (f.round(u, 1), f.round(v, 1));
    order::lemma_round_mono(f, u, 1, u + one, 1);
    order::lemma_round_mono(f, u + one, 1, v, 1);
    assert(y < f.inf());
    order::lemma_trunc_mono(f, x, y);
    let k = f.units(x) / one;
    lemma_fundamental_div_mod(f.units(x) as int, one as int);
    assert(k * one == one * k) by (nonlinear_arith);
    lemma_next_whole(u, k);
    order::lemma_units_mono(f, f.round(u + one, 1), y);
    lemma_div_is_ordered(((k + 1) * one) as int, f.units(y) as int, one as int);
    lemma_div_multiples_vanish((k + 1) as int, one as int);
    assert((k + 1) * one == one * (k + 1)) by (nonlinear_arith);
}

/// The first cell starts at the first pixel.
pub proof fn lemma_first(cell: Double)
    ensures
        geometry::spec_start(cell, 0) == 0,
{
    let f = float::double();
    geometry::lemma_double();
    geometry::lemma_small(0);
    reveal(Double::spec_times);
    reveal(Double::spec_to_u64);
    let c = f.units(f.mag(cell.bits));
    assert(0 * c == 0 && 0 * pow2(1074) == 0) by (nonlinear_arith);
    order::lemma_round_mono(f, 0, pow2(1074), 0, 1);
    code::lemma_round_zero(f);
    assert(f.units(0) == 0) by {
        assert(0 * pow2(0) == 0);
    }
    lemma_fundamental_div_mod_converse(0, pow2(1074) as int, 0, 0);
}

/// A cell is at least one pixel wide.
proof fn lemma_cell_width_least(img_w: u32, cols: u32)
    requires
        1 <= cols <= img_w,
    ensures
        ({
            let f = float::double();
            let cell = Double::from_u64(img_w as u64).over(Double::from_u64(cols as u64));
            f.units(f.mag(cell.bits)) >= pow2(1074)
        }),
{
    let f = float::double();
    let one = pow2(1074);
    let cell = Double::from_u64(img_w as u64).over(Double::from_u64(cols as u64));
    geometry::lemma_double();
    geometry::lemma_small(img_w);
    geometry::lemma_small(cols);
    geometry::lemma_cell_width(img_w, cols);
    reveal(Double::spec_over);
    let (num, den) = ((img_w as nat * one) * one, cols as nat * one);
    assert(den > 0 && one * den <= num * 1) by (nonlinear_arith)
        requires
            num == (img_w as nat * one) * one,
            den == cols as nat * one,
            1 <= cols <= img_w,
            one > 0,
    ;
    order::lemma_round_mono(f, one, 1, num, den);
    order::lemma_round_representable(f, 1, 1074);
    assert(1 * one == one);
    order::lemma_units_mono(f, f.round(one, 1), f.round(num, den));
}

/// Cells tile the image without gap or overlap: the first ones start at its corner, and
/// every other one starts where the one before it ends.
pub proof fn law_cells_tile_the_image(
    img_w: u32,
    img_h: u32,
    width: u32,
    aspect: Single,
    row: u32,
    col: u32,
)
    requires
        img_w > 0,
        img_h > 0,
        row < Geometry::of(img_w, img_h, width, aspect).rows,
        col < Geometry::of(img_w, img_h, width, aspect).cols,
    ensures
        ({
            let g = Geometry::of(img_w, img_h, width, aspect);
            let span = g.span(row, col);
            &&& span.within(img_w, img_h)
            &&& col == 0 ==> span.x0 == 0
            &&& row == 0 ==> span.y0 == 0
            &&& col + 1 < g.cols ==> g.span(row, (col + 1) as u32).x0 == span.x1
            &&& row + 1 < g.rows ==> g.span((row + 1) as u32, col).y0 == span.y1
        }),
{
    let g = Geometry::of(img_w, img_h, width, aspect);
    geometry::lemma_fits(img_w, img_h, width, aspect);
    geometry::lemma_span(g, row, col);
    lemma_first(g.cell_w);
    lemma_first(g.cell_h);
    if col + 1 < g.cols {
        geometry::lemma_cell_width(img_w, g.cols);
        lemma_cell_width_least(img_w, g.cols);
        assert(geometry::spec_start(g.cell_w, (col + 1) as u32) < img_w);
        lemma_starts(g.cell_w, col, img_w);
    }
    if row + 1 < g.rows {
        geometry::lemma_cell_height(g.cell_w.times(aspect.to_double()));
        geometry::lemma_rows(img_h, g.cell_h);
        assert(geometry::spec_start(g.cell_h, (row + 1) as u32) < img_h);
        lemma_starts(g.cell_h, row, img_h);
    }
}

} // verus!
