//! Where glyphs are drawn, in exact numbers.

use crate::float;
use crate::float::code;
use crate::float::near;
use crate::float::order;
use crate::float::steps;
use crate::float::Single;
use crate::font;
use crate::paint::discs;
use crate::paint::exact;
use vstd::arithmetic::div_mod::*;
use vstd::arithmetic::power2::*;
use vstd::prelude::*;

verus! {

/// Sums of whole numbers below 2^24 are exact.
proof fn lemma_whole_sum(a: Single, b: Single)
    requires
        exact::finite(a),
        exact::finite(b),
        near::single_value(a) % (exact::one() as int) == 0,
        near::single_value(b) % (exact::one() as int) == 0,
        -0x100_0000 * exact::one() < near::single_value(a) + near::single_value(b) < 0x100_0000
            * exact::one(),
    ensures
        exact::finite(a.plus(b)),
        near::single_value(a.plus(b)) == near::single_value(a) + near::single_value(b),
{
    let f = float::single();
    let z = exact::one() as int;
    let (x, y) = (near::single_value(a), near::single_value(b));
    let s = x + y;
    lemma_pow2_pos(149);
    reveal(Single::spec_plus);
    lemma_fundamental_div_mod(x, z);
    lemma_fundamental_div_mod(y, z);
    let n = x / z + y / z;
    assert(s == n * z) by (nonlinear_arith)
        requires
            s == x + y,
            x == z * (x / z),
            y == z * (y / z),
            n == x / z + y / z,
    ;
    assert(-0x100_0000 < n < 0x100_0000) by (nonlinear_arith)
        requires
            s == n * z,
            -0x100_0000 * z < s < 0x100_0000 * z,
            z > 0,
    ;
    let m = exact::size(n);
    assert(exact::size(s) == m * z) by (nonlinear_arith)
        requires
            s == n * z,
            m == n || m == -n,
            m >= 0,
            z > 0,
            exact::size(s) == s || exact::size(s) == -s,
            exact::size(s) >= 0,
    ;
    order::lemma_round_representable(f, m, 149);
    code::lemma_round_zero(f);
    assert(f.units(0) == 0) by {
        assert(0 * pow2(0) == 0);
    }
}

/// A coordinate on its way to a pixel: `v` times `scale`, and the part of `at` behind the point.
proof fn lemma_inner(v: Single, scale: Single, at: Single) -> (r: int)
    requires
        exact::finite(v),
        exact::finite(scale),
        at.bits < float::single().inf(),
        near::single_value(at) < 0x40_0000 * exact::one(),
        -200 * (exact::one() * exact::one()) < near::single_value(v) * near::single_value(scale) < 200
            * (exact::one() * exact::one()),
    ensures
        ({
            let inner = v.times(scale).plus(at.minus(at.truncated()));
            let (z, whole) = (exact::one() as int, near::single_value(at.truncated()));
            let e = near::single_value(v) * near::single_value(scale) + (near::single_value(at)
                - whole) * z;
            &&& r == near::single_value(inner)
            &&& exact::finite(inner)
            &&& exact::finite(at.truncated())
            &&& whole % z == 0
            &&& 0 <= whole <= near::single_value(at)
            &&& -202 * z < r < 202 * z
            &&& 0x8000 * (r * z - e) <= z * z
            &&& 0x8000 * (e - r * z) <= z * z
        }),
{
    let f = float::single();
    let (z, p) = (exact::one() as int, pow2(132) as int);
    let zero = Single { bits: 0 };
    exact::lemma_powers();
    lemma_pow2_pos(149);
    assert(f.units(0) == 0) by {
        assert(0 * pow2(0) == 0);
    }
    assert(near::single_value(at) >= 0);
    discs::lemma_less(at, zero);
    assert(near::single_value(zero) == 0);
    steps::law_whole_numbers_are_next(at);
    let whole = at.truncated();
    assert(whole == at.floor());
    let (t, w) = (near::single_value(at), near::single_value(whole));
    assert(w >= 0) by {
        if w < 0 {
            lemma_fundamental_div_mod(w, z);
            assert(w <= -z) by (nonlinear_arith)
                requires
                    w == z * (w / z),
                    w < 0,
                    z > 0,
            ;
        }
    }
    lemma_finite_small(at);
    exact::lemma_difference(at, whole);
    let part = at.minus(whole);
    let d = near::single_value(part);
    let prod = v.times(scale);
    let x = near::single_value(v) * near::single_value(scale);
    let zz = z * z;
    assert(zz > 0) by (nonlinear_arith)
        requires
            zz == z * z,
            z > 0,
    ;
    exact::lemma_product(v, scale);
    let y = near::single_value(prod);
    assert(p * z * 0x2_0000 == zz) by (nonlinear_arith)
        requires
            zz == z * z,
            z == 0x2_0000 * p,
    ;
    assert(-200 * z - p < y < 200 * z + p) by (nonlinear_arith)
        requires
            y * z - x <= p * z,
            x - y * z <= p * z,
            -200 * (z * z) < x < 200 * (z * z),
            z > 0,
    {
        assert(y * z < (200 * z + p) * z);
        assert((-200 * z - p) * z < y * z);
    }
    exact::lemma_sum(prod, part);
    let r = near::single_value(prod.plus(part));
    let (rz, dz, tz) = (r * z, d * z, (t - w) * z);
    assert(rz - (y * z + dz) <= p * z && (y * z + dz) - rz <= p * z && dz - tz <= p * z && tz - dz
        <= p * z) by (nonlinear_arith)
        requires
            rz == r * z,
            dz == d * z,
            tz == (t - w) * z,
            r - (y + d) <= p,
            (y + d) - r <= p,
            d - (t - w) <= p,
            (t - w) - d <= p,
            z > 0,
    ;
    r
}

/// Whole numbers below a small number are finite.
pub proof fn lemma_finite_small(v: Single)
    requires
        exact::finite(v),
        -0x80_0000 * exact::one() < near::single_value(v) < 0x80_0000 * exact::one(),
    ensures
        exact::finite(v.floor()),
{
    let f = float::single();
    let z = exact::one() as int;
    lemma_pow2_pos(149);
    reveal(Single::spec_floor);
    let u = f.units(f.mag(v.bits as u64)) as int;
    lemma_fundamental_div_mod(u, z);
    lemma_fundamental_div_mod(u + z - 1, z);
    let (n, m) = (u / z, (u + z - 1) / z);
    assert(0 <= n < 0x100_0000) by (nonlinear_arith)
        requires
            u == z * n + u % z,
            0 <= u % z < z,
            0 <= u < 0x80_0000 * z,
    ;
    assert(0 <= m < 0x100_0000) by (nonlinear_arith)
        requires
            u + z - 1 == z * m + (u + z - 1) % z,
            0 <= (u + z - 1) % z < z,
            0 <= u < 0x80_0000 * z,
    ;
    order::lemma_round_representable(f, n as nat, 149);
    order::lemma_round_representable(f, m as nat, 149);
}

/// The corner of a glyph is the pixel that its outline starts in: the whole number below the
/// outline, scaled and moved to where the glyph is drawn, up to 2^-15. For glyphs of up to 200
/// pixels, at up to 2^22 pixels.
pub proof fn law_glyphs_start_in_their_corner(v: u32, scale: Single, at: Single)
    requires
        exact::finite((Single { bits: v })),
        exact::finite(scale),
        at.bits < float::single().inf(),
        near::single_value(at) < 0x40_0000 * exact::one(),
        -200 * (exact::one() * exact::one()) < near::single_value((Single { bits: v }))
            * near::single_value(scale) < 200 * (exact::one() * exact::one()),
    ensures
        ({
            let z = exact::one() as int;
            let b = near::single_value(font::pixel_below(v, scale, at));
            let exact = near::single_value((Single { bits: v })) * near::single_value(scale)
                + near::single_value(at) * z;
            &&& b % z == 0
            &&& 0x8000 * (b * z - exact) <= z * z
            &&& 0x8000 * (exact - (b + z) * z) <= z * z
        }),
{
    let z = exact::one() as int;
    let c = Single { bits: v };
    lemma_pow2_pos(149);
    let r = lemma_inner(c, scale, at);
    let inner = c.times(scale).plus(at.minus(at.truncated()));
    let whole = at.truncated();
    steps::law_whole_numbers_are_next(inner);
    lemma_finite_small(inner);
    let low = inner.floor();
    lemma_whole_sum(low, whole);
    let (a, w, t) = (near::single_value(low), near::single_value(whole), near::single_value(at));
    let b = a + w;
    assert(font::pixel_below(v, scale, at) == low.plus(whole));
    lemma_fundamental_div_mod(a, z);
    lemma_fundamental_div_mod(w, z);
    let k = a / z + w / z;
    assert(b == k * z) by (nonlinear_arith)
        requires
            b == a + w,
            a == z * (a / z),
            w == z * (w / z),
            k == a / z + w / z,
    ;
    lemma_mod_multiples_basic(k, z);
    let x = near::single_value(c) * near::single_value(scale);
    let e = x + (t - w) * z;
    let full = x + t * z;
    assert(b * z - full <= r * z - e && full - (b + z) * z <= e - r * z) by (nonlinear_arith)
        requires
            b == a + w,
            a <= r,
            r < a + z,
            e == x + (t - w) * z,
            full == x + t * z,
            z > 0,
    ;
}

/// The corner of a glyph lies at the least x of its outline, and at the first y, which grow
/// upwards in fonts and downwards on a canvas.
pub proof fn law_boxes_start_at_the_outline(
    data: Seq<u8>,
    glyph: u16,
    px: Single,
    x: Single,
    y: Single,
)
    requires
        exact::finite(font::draw_scale(data, px.bits)),
    ensures
        match (font::glyph_outline(data, glyph), font::glyph_box(data, glyph, px.bits, x.bits, y.bits)) {
            (Some(o), Some(b)) => {
                let scale = px.over((Single { bits: font::font_height(data) }));
                let ((left, top), _) = o.0;
                &&& b.0 == font::pixel_below(left, scale, x).bits
                &&& b.1 == font::pixel_below(top, scale.negated(), y).bits
                &&& exact::finite(scale.negated())
                &&& near::single_value(scale.negated()) == -near::single_value(scale)
            },
            (None, None) => true,
            _ => false,
        },
{
    let f = float::single();
    let scale = font::draw_scale(data, px.bits);
    reveal(Single::spec_negated);
    assert(f.mag(scale.negated().bits as u64) == f.mag(scale.bits as u64));
}

} // verus!
