//! What the dots of small braille cells look like.

use crate::engine::braille;
use crate::float;
use crate::float::code;
use crate::float::order;
use crate::float::ratio;
use crate::float::root;
use crate::float::Single;
use crate::paint;
use crate::paint::brightness;
use crate::paint::laws;
use crate::paint::{Bounds, Disc, Pen};
use vstd::arithmetic::div_mod::*;
use vstd::arithmetic::power2::*;
use vstd::prelude::*;

verus! {

spec fn size(n: int) -> nat {
    if n < 0 {
        (-n) as nat
    } else {
        n as nat
    }
}

/// The encoding of half of `n`.
spec fn halves(n: int) -> Single {
    let f = float::single();
    Single { bits: f.join(n < 0, f.round(size(n) * pow2(148), 1)) as u32 }
}

/// Small halves are held exactly.
proof fn lemma_halves(n: int)
    requires
        size(n) < 0x100_0000,
    ensures
        ({
            let f = float::single();
            let b = halves(n).bits as u64;
            &&& f.mag(b) == f.round(size(n) * pow2(148), 1)
            &&& f.mag(b) < f.inf()
            &&& f.neg(b) == (n < 0)
            &&& f.units(f.mag(b)) == size(n) * pow2(148)
            &&& f.value(b) == n * pow2(148)
            &&& n == 0 ==> b == 0
            &&& n != 0 ==> f.mag(b) > 0
        }),
{
    let f = float::single();
    let m = size(n);
    lemma_pow2_pos(148);
    order::lemma_round_representable(f, m, 148);
    if n == 0 {
        assert(m * pow2(148) == 0) by (nonlinear_arith)
            requires
                m == 0,
        ;
        code::lemma_round_zero(f);
    } else {
        assert(m * pow2(148) > 0) by (nonlinear_arith)
            requires
                m > 0,
                pow2(148) > 0,
        ;
        code::lemma_round_positive(f, m * pow2(148));
    }
    if n < 0 {
        assert(-(m * pow2(148)) == n * pow2(148)) by (nonlinear_arith)
            requires
                m == -n,
        ;
    }
}

/// Whole numbers are an even number of halves.
proof fn lemma_from(n: u64)
    requires
        n < 0x80_0000,
    ensures
        Single::from_u64(n) == halves(2 * n as int),
{
    let f = float::single();
    reveal(Single::spec_from_u64);
    lemma_pow2_unfold(149);
    assert(n as nat * pow2(149) == size(2 * n as int) * pow2(148)) by (nonlinear_arith)
        requires
            pow2(149) == 2 * pow2(148),
            size(2 * n as int) == 2 * n as nat,
    ;
}

/// The constants that are used.
proof fn lemma_constants()
    ensures
        halves(0).bits == 0,
        halves(1).bits == paint::HALF,
        halves(2).bits == paint::ONE,
        halves(4).bits == paint::TWO,
        halves(8).bits == paint::FOUR,
{
    let f = float::single();
    lemma2_to64();
    lemma_halves(0);
    let (a, b, c, d) = (
        paint::HALF as nat,
        paint::ONE as nat,
        paint::TWO as nat,
        paint::FOUR as nat,
    );
    assert(f.mant(a) == 0x80_0000 && f.expo(a) == 125);
    assert(f.mant(b) == 0x80_0000 && f.expo(b) == 126);
    assert(f.mant(c) == 0x80_0000 && f.expo(c) == 127);
    assert(f.mant(d) == 0x80_0000 && f.expo(d) == 128);
    lemma_pow2_adds(23, 125);
    lemma_pow2_adds(1, 125);
    lemma_pow2_adds(2, 125);
    lemma_pow2_adds(3, 125);
    order::lemma_round_exact(f, a);
    order::lemma_round_exact(f, b);
    order::lemma_round_exact(f, c);
    order::lemma_round_exact(f, d);
    assert(size(1) == 1 && size(2) == 2 && size(4) == 4 && size(8) == 8);
}

proof fn lemma_plus(a: int, b: int)
    requires
        size(a) < 0x40_0000,
        size(b) < 0x40_0000,
    ensures
        halves(a).plus(halves(b)) == halves(a + b),
{
    let f = float::single();
    reveal(Single::spec_plus);
    lemma_halves(a);
    lemma_halves(b);
    lemma_halves(a + b);
    lemma_total(a, b, a + b);
}

/// The sum of two numbers of halves, in units.
proof fn lemma_total(a: int, b: int, c: int)
    requires
        c == a + b,
    ensures
        a * pow2(148) + b * pow2(148) == c * pow2(148),
        (c > 0) == (c * pow2(148) > 0),
        (c < 0) == (c * pow2(148) < 0),
        c < 0 ==> -(c * pow2(148)) == size(c) * pow2(148),
{
    lemma_pow2_pos(148);
    assert(a * pow2(148) + b * pow2(148) == c * pow2(148)) by (nonlinear_arith)
        requires
            c == a + b,
    ;
    assert((c > 0) == (c * pow2(148) > 0) && (c < 0) == (c * pow2(148) < 0)) by (nonlinear_arith)
        requires
            pow2(148) > 0,
    ;
    if c < 0 {
        assert(-(c * pow2(148)) == (-c) * pow2(148)) by (nonlinear_arith);
    }
}

proof fn lemma_minus(a: int, b: int)
    requires
        size(a) < 0x40_0000,
        size(b) < 0x40_0000,
    ensures
        halves(a).minus(halves(b)) == halves(a - b),
{
    let f = float::single();
    reveal(Single::spec_minus);
    lemma_halves(a);
    lemma_halves(b);
    lemma_halves(a - b);
    lemma_total(a, -b, a - b);
    assert((-b) * pow2(148) == -(b * pow2(148))) by (nonlinear_arith);
    let n = f.spec_negated(halves(b).bits as u64);
    assert(f.mag(n) == f.mag(halves(b).bits as u64));
    assert(f.value(n) == -(b * pow2(148)));
}

/// The square of an even number of halves.
proof fn lemma_square(a: int)
    requires
        size(a) <= 0x100,
        a % 2 == 0,
    ensures
        halves(a).times(halves(a)) == halves(a * a / 2),
{
    let f = float::single();
    let one = pow2(149);
    let m = size(a);
    let s = m * m / 2;
    reveal(Single::spec_times);
    lemma_halves(a);
    lemma_pow2_unfold(149);
    lemma_pow2_pos(149);
    let k = a / 2;
    assert(a * a == m * m && 0 <= m * m <= 0x1_0000) by (nonlinear_arith)
        requires
            m == a || m == -a,
            0 <= m <= 0x100,
    ;
    assert(a * a == 2 * (2 * (k * k))) by (nonlinear_arith)
        requires
            a == 2 * k,
    ;
    let u = pow2(148);
    assert((m * u) * (m * u) == (s * u) * one) by (nonlinear_arith)
        requires
            m * m == 2 * s,
            one == 2 * u,
    ;
    ratio::lemma_round_scale(f, s * u, 1, one);
    assert(1 * one == one);
    lemma_halves(a * a / 2);
}

/// The product with one.
proof fn lemma_times_one(n: int)
    requires
        size(n) < 0x100_0000,
    ensures
        halves(n).times(halves(2)) == halves(n),
{
    let f = float::single();
    let one = pow2(149);
    let u = size(n) * pow2(148);
    reveal(Single::spec_times);
    lemma_halves(n);
    lemma_halves(2);
    lemma_pow2_unfold(149);
    lemma_pow2_pos(149);
    assert(size(2) * pow2(148) == one);
    ratio::lemma_round_scale(f, u, 1, one);
    assert(1 * one == one);
}

/// Halves are ordered as their numbers.
proof fn lemma_less(a: int, b: int)
    requires
        size(a) < 0x100_0000,
        size(b) < 0x100_0000,
    ensures
        halves(a).less(halves(b)) == (a < b),
        !halves(a).is_nan(),
{
    reveal(Single::spec_less);
    reveal(Single::spec_is_nan);
    lemma_halves(a);
    lemma_halves(b);
    if size(a) < size(b) {
        lemma_codes(size(a), size(b));
    } else if size(b) < size(a) {
        lemma_codes(size(b), size(a));
    }
}

/// Codes are ordered as what they stand for.
proof fn lemma_codes(a: nat, b: nat)
    requires
        a < 0x100_0000,
        b < 0x100_0000,
        a < b,
    ensures
        float::single().round(a * pow2(148), 1) < float::single().round(b * pow2(148), 1),
{
    let f = float::single();
    let u = pow2(148);
    lemma_pow2_pos(148);
    assert((a * u) * 1 < (b * u) * 1) by (nonlinear_arith)
        requires
            a < b,
            u > 0,
    ;
    order::lemma_round_mono(f, a * u, 1, b * u, 1);
    order::lemma_round_representable(f, a, 148);
    order::lemma_round_representable(f, b, 148);
}

/// Whole numbers are their own floor and ceiling, and come back from the format.
proof fn lemma_whole(k: int)
    requires
        size(k) < 0x40_0000,
    ensures
        halves(2 * k).floor() == halves(2 * k),
        halves(2 * k).ceil() == halves(2 * k),
        k >= 0 ==> halves(2 * k).to_u64() == k,
{
    let f = float::single();
    let one = pow2(149);
    let m = size(k);
    reveal(Single::spec_floor);
    reveal(Single::spec_ceil);
    reveal(Single::spec_to_u64);
    lemma_halves(2 * k);
    lemma_pow2_unfold(149);
    lemma_pow2_pos(149);
    assert(size(2 * k) * pow2(148) == m * one) by (nonlinear_arith)
        requires
            size(2 * k) == 2 * m,
            one == 2 * pow2(148),
    ;
    lemma_div_multiples_vanish(m as int, one as int);
    assert(m * one == one * m) by (nonlinear_arith);
    lemma_fundamental_div_mod_converse(
        (m * one + one - 1) as int,
        one as int,
        m as int,
        one - 1,
    );
}

/// The radius of the dots of a cell of two by four pixels.
proof fn lemma_radius()
    ensures
        ({
            let w = Single::from_u64(2).over((Single { bits: paint::TWO }));
            let h = Single::from_u64(4).over((Single { bits: paint::FOUR }));
            &&& w == halves(2)
            &&& h == halves(2)
            &&& w.min(h).times((Single { bits: paint::DOT_FILL })).max(
                (Single { bits: paint::HALF }),
            ) == halves(1)
        }),
{
    let f = float::single();
    lemma_constants();
    lemma_from(2);
    lemma_from(4);
    lemma_halves(4);
    lemma_halves(8);
    lemma_self_quotient(4);
    lemma_self_quotient(8);
    lemma_less(2, 2);
    brightness::lemma_times_one(paint::DOT_FILL as u64);
    reveal(Single::spec_times);
    reveal(Single::spec_less);
    reveal(Single::spec_is_nan);
}

/// A number over itself is one.
proof fn lemma_self_quotient(n: int)
    requires
        0 < n < 0x100,
    ensures
        halves(n).over(halves(n)) == halves(2),
{
    let f = float::single();
    let one = pow2(149);
    let u = size(n) * pow2(148);
    reveal(Single::spec_over);
    lemma_halves(n);
    lemma_halves(2);
    lemma_pow2_unfold(149);
    lemma_pow2_pos(148);
    assert(u > 0) by (nonlinear_arith)
        requires
            u == size(n) * pow2(148),
            size(n) > 0,
            pow2(148) > 0,
    ;
    assert(size(2) * pow2(148) == one);
    ratio::lemma_round_scale(f, one, 1, u);
    assert(u * one == one * u) by (nonlinear_arith);
    assert(1 * u == u);
}

/// Where the center of dot `at` lies along a side.
proof fn lemma_center(start: u32, at: u32)
    requires
        start < 0x10_0000,
        at < 4,
    ensures
        paint::dot_center(start, at, halves(2)) == halves(2 * start + 2 * at + 1),
{
    lemma_constants();
    lemma_from(start as u64);
    lemma_from(at as u64);
    lemma_plus(2 * at as int, 1);
    lemma_times_one(2 * at as int + 1);
    lemma_plus(2 * start as int, 2 * at as int + 1);
}

/// Discs reach their own pixel along a side.
proof fn lemma_reach(start: u32, at: u32, stop: u32, limit: u32)
    requires
        start < 0x10_0000,
        at < 4,
        start + at < stop <= limit,
    ensures
        ({
            let center = halves(2 * start + 2 * at + 1);
            &&& paint::reach_from(center, halves(1), start) <= start + at
            &&& paint::reach_to(center, halves(1), stop, limit) > start + at
        }),
{
    let c = 2 * start + 2 * at + 1;
    let low = start + at - 1;
    let high = start + at + 2;
    lemma_constants();
    lemma_minus(c, 1);
    lemma_minus(c - 1, 2);
    lemma_whole(low);
    lemma_from(start as u64);
    lemma_less(2 * low, 2 * start as int);
    lemma_whole(start as int);
    lemma_plus(c, 1);
    lemma_plus(c + 1, 2);
    lemma_whole(high);
    assert(c - 1 - 2 == 2 * low);
    assert(c + 1 + 2 == 2 * high);
}

/// How far a pixel is from the center of a dot, squared.
proof fn lemma_off_center(at: u32, start: u32, dot: u32)
    requires
        start < 0x10_0000,
        start <= at < start + 4,
        dot < 4,
    ensures
        ({
            let k = at - start - dot;
            paint::off_center(at, halves(2 * start + 2 * dot + 1)) == halves(2 * (k * k))
        }),
{
    let k = at - start - dot;
    let c = 2 * start + 2 * dot + 1;
    lemma_constants();
    lemma_from(at as u64);
    lemma_plus(2 * at as int, 1);
    lemma_minus(2 * at as int + 1, c);
    assert(2 * at + 1 - c == 2 * k);
    lemma_square(2 * k);
    assert((2 * k) * (2 * k) == 2 * (2 * (k * k))) by (nonlinear_arith);
}

/// The root of one or more is one or more.
proof fn lemma_root(s: nat)
    requires
        1 <= s < 0x100,
    ensures
        halves(2 * s as int).root().bits >= paint::ONE,
        halves(2 * s as int).root().bits <= float::single().inf(),
{
    let f = float::single();
    let one = pow2(149);
    let b = halves(2 * s as int).bits as u64;
    lemma_constants();
    lemma_halves(2 * s as int);
    lemma_halves(2);
    lemma_pow2_unfold(149);
    lemma_pow2_unfold(150);
    lemma_pow2_pos(149);
    reveal(Single::spec_root);
    let n = f.units(f.mag(b)) * one;
    let big = pow2(150);
    assert(big * big <= 4 * n) by (nonlinear_arith)
        requires
            n == ((2 * s) * pow2(148)) * one,
            one == 2 * pow2(148),
            big == 2 * one,
            s >= 1,
    ;
    let r = root::floor_root(4 * n);
    root::lemma_floor_root(4 * n);
    assert(r >= big) by (nonlinear_arith)
        requires
            big * big < (r + 1) * (r + 1),
    ;
    assert(size(2) * pow2(148) == one);
    order::lemma_round_mono(f, one, 1, r, 2);
    order::lemma_round_mono(f, one, 1, 2 * r + 1, 4);
}

/// A dot covers its own pixel fully.
proof fn lemma_covers(disc: Disc, x: u32, y: u32)
    requires
        disc.radius == halves(1),
        paint::off_center(x, disc.x) == halves(0),
        paint::off_center(y, disc.y) == halves(0),
    ensures
        paint::disc_coverage(disc, x, y) == halves(2),
        (Single { bits: 0 }).less(halves(2)),
{
    lemma_constants();
    lemma_plus(0, 0);
    assert(halves(0).root() == halves(0)) by {
        reveal(Single::spec_root);
        lemma_halves(0);
    }
    lemma_plus(1, 1);
    lemma_minus(2, 0);
    lemma_less(2, 0);
    lemma_less(2, 2);
    lemma_less(0, 2);
}

/// A dot leaves the other pixels of its cell alone.
proof fn lemma_misses(disc: Disc, x: u32, y: u32, s: nat, t: nat)
    requires
        disc.radius == halves(1),
        s + t >= 1,
        s <= 16,
        t <= 16,
        paint::off_center(x, disc.x) == halves(2 * s as int),
        paint::off_center(y, disc.y) == halves(2 * t as int),
    ensures
        !(Single { bits: 0 }).less(paint::disc_coverage(disc, x, y)),
{
    let f = float::single();
    lemma_constants();
    lemma_plus(2 * s as int, 2 * t as int);
    lemma_root(s + t);
    lemma_plus(1, 1);
    let r = halves(2 * (s + t) as int).root();
    let one = Single { bits: paint::ONE };
    reveal(Single::spec_minus);
    reveal(Single::spec_less);
    let v = one.minus(r);
    assert(2 * s as int + 2 * t as int == 2 * (s + t));
    assert(paint::disc_coverage(disc, x, y) == paint::spec_clamp(v));
    if (r.bits as nat) < f.inf() {
        order::lemma_units_mono(f, paint::ONE as nat, r.bits as nat);
    }
}

/// Ink at full coverage and opacity replaces a pixel.
proof fn lemma_full_ink(p: [u8; 4], ink: [u8; 3], transparent: bool)
    ensures
        paint::spec_blend(p, ink, halves(2), transparent) == [
            ink[0],
            ink[1],
            ink[2],
            if transparent {
                255u8
            } else {
                p[3]
            },
        ],
{
    let f = float::single();
    lemma_constants();
    if transparent {
        let one = pow2(149);
        brightness::lemma_known();
        brightness::lemma_times_one(paint::FULL as u64);
        reveal(Single::spec_times);
        reveal(Single::spec_nearest_u64);
        lemma_pow2_pos(149);
        lemma_fundamental_div_mod_converse(
            (2 * (255 * one) + one) as int,
            (2 * one) as int,
            255,
            one as int,
        );
    } else {
        lemma_replaced(p[0], ink[0]);
        lemma_replaced(p[1], ink[1]);
        lemma_replaced(p[2], ink[2]);
    }
}

proof fn lemma_replaced(bg: u8, fg: u8)
    ensures
        paint::blend_channel(bg, fg, halves(2)) == fg,
{
    let (b, g) = (2 * bg as int, 2 * fg as int);
    lemma_from(bg as u64);
    lemma_from(fg as u64);
    lemma_minus(g, b);
    lemma_times_one(g - b);
    lemma_plus(b, g - b);
    lemma_whole(fg as int);
}

/// Dot `i` of a cell of two by four pixels.
proof fn lemma_dot(p: [u8; 4], area: Bounds, i: u32, width: u32, height: u32, pen: Pen, x: int, y: int)
    requires
        i < 8,
        area.x0 < 0x10_0000,
        area.y0 < 0x10_0000,
        area.x1 == area.x0 + 2,
        area.y1 == area.y0 + 4,
        area.x1 <= width,
        area.y1 <= height,
        pen.opacity.bits == paint::ONE,
        area.holds(x, y),
    ensures
        paint::disc_pixel(p, paint::spec_disc(area, i, width, height), pen, x, y) == if x == area.x0
            + i % 2 && y == area.y0 + i / 2 {
            [
                pen.ink[0],
                pen.ink[1],
                pen.ink[2],
                if pen.transparent {
                    255u8
                } else {
                    p[3]
                },
            ]
        } else {
            p
        },
{
    let disc = paint::spec_disc(area, i, width, height);
    let (dx, dy) = ((i % 2) as u32, (i / 2) as u32);
    lemma_constants();
    lemma_radius();
    lemma_center(area.x0, dx);
    lemma_center(area.y0, dy);
    lemma_off_center(x as u32, area.x0, dx);
    lemma_off_center(y as u32, area.y0, dy);
    let (j, k) = (x - area.x0 - dx, y - area.y0 - dy);
    assert(0 <= j * j <= 16 && 0 <= k * k <= 16 && (j == 0) == (j * j == 0) && (k == 0) == (k * k
        == 0)) by (nonlinear_arith)
        requires
            -4 <= j <= 4,
            -4 <= k <= 4,
    ;
    if j == 0 && k == 0 {
        lemma_reach(area.x0, dx, area.x1, width);
        lemma_reach(area.y0, dy, area.y1, height);
        lemma_covers(disc, x as u32, y as u32);
        lemma_times_one(2);
        lemma_full_ink(p, pen.ink, pen.transparent);
    } else {
        lemma_misses(disc, x as u32, y as u32, (j * j) as nat, (k * k) as nat);
    }
}

/// The first `n` dots of a cell of two by four pixels.
proof fn lemma_dots(
    p: [u8; 4],
    bits: u8,
    area: Bounds,
    width: u32,
    height: u32,
    pen: Pen,
    n: nat,
    dx: u32,
    dy: u32,
)
    requires
        n <= 8,
        dx < 2,
        dy < 4,
        area.x0 < 0x10_0000,
        area.y0 < 0x10_0000,
        area.x1 == area.x0 + 2,
        area.y1 == area.y0 + 4,
        area.x1 <= width,
        area.y1 <= height,
        pen.opacity.bits == paint::ONE,
    ensures
        paint::braille_pixel(
            p,
            bits,
            area,
            width,
            height,
            pen,
            n,
            area.x0 + dx,
            area.y0 + dy,
        ) == if 2 * dy + dx < n && bits & braille::spec_dot_bit(dx, dy) != 0 {
            [
                pen.ink[0],
                pen.ink[1],
                pen.ink[2],
                if pen.transparent {
                    255u8
                } else {
                    p[3]
                },
            ]
        } else {
            p
        },
    decreases n,
{
    if n > 0 {
        let i = (n - 1) as u32;
        let (x, y) = (area.x0 + dx, area.y0 + dy);
        lemma_dots(p, bits, area, width, height, pen, (n - 1) as nat, dx, dy);
        let before = paint::braille_pixel(
            p,
            bits,
            area,
            width,
            height,
            pen,
            (n - 1) as nat,
            x,
            y,
        );
        lemma_dot(before, area, i, width, height, pen, x, y);
    }
}

/// A cell of two by four pixels shows exactly the dots of its pattern: every dot that is
/// ink fills its pixel with the ink, every other pixel of the cell keeps what it held,
/// and so do all pixels outside. The cell starts within 2^20 pixels of the corner of the
/// canvas.
pub proof fn law_smallest_cells_show_their_pattern(
    p: [u8; 4],
    bits: u8,
    area: Bounds,
    width: u32,
    height: u32,
    pen: Pen,
    x: int,
    y: int,
)
    requires
        area.x0 < 0x10_0000,
        area.y0 < 0x10_0000,
        area.x1 == area.x0 + 2,
        area.y1 == area.y0 + 4,
        area.x1 <= width,
        area.y1 <= height,
        pen.opacity.bits == paint::ONE,
    ensures
        paint::braille_pixel(p, bits, area, width, height, pen, 8, x, y) == if area.holds(x, y)
            && bits & braille::spec_dot_bit((x - area.x0) as u32, (y - area.y0) as u32) != 0 {
            [
                pen.ink[0],
                pen.ink[1],
                pen.ink[2],
                if pen.transparent {
                    255u8
                } else {
                    p[3]
                },
            ]
        } else {
            p
        },
{
    if area.holds(x, y) {
        lemma_dots(
            p,
            bits,
            area,
            width,
            height,
            pen,
            8,
            (x - area.x0) as u32,
            (y - area.y0) as u32,
        );
    } else {
        laws::lemma_braille_inside(p, bits, area, width, height, pen, 8, x, y);
    }
}

} // verus!
