//! Where the dots of braille cells lie, in exact numbers.

use crate::engine::braille;
use crate::engine::exact as pattern;
use crate::float;
use crate::float::code;
use crate::float::near;
use crate::float::order;
use crate::float::ratio;
use crate::float::root;
use crate::float::Single;
use crate::paint;
use crate::paint::exact;
use crate::paint::exact::size;
use crate::paint::{Bounds, Pen};
use vstd::arithmetic::div_mod::*;
use vstd::arithmetic::power2::*;
use vstd::prelude::*;

verus! {

/// An eighth, in units of 2^-149.
spec fn unit() -> nat {
    pow2(146)
}

/// The encoding of `n` eighths.
spec fn eighths(n: int) -> Single {
    let f = float::single();
    Single { bits: f.join(n < 0, f.round(size(n) * unit(), 1)) as u32 }
}

/// Eight eighths are one.
proof fn lemma_unit()
    ensures
        unit() > 0x1000_0000_0000_0000_0000_0000,
        exact::one() == 8 * unit(),
{
    lemma2_to64();
    lemma_pow2_adds(3, 146);
    lemma_pow2_adds(64, 82);
    lemma_pow2_adds(64, 18);
    assert(unit() > 0x1000_0000_0000_0000_0000_0000) by (nonlinear_arith)
        requires
            unit() == 0x1_0000_0000_0000_0000 * pow2(82),
            pow2(82) == 0x1_0000_0000_0000_0000 * pow2(18),
            pow2(18) >= 1,
    {
        lemma_pow2_pos(18);
    }
}

/// Eighths are held exactly.
proof fn lemma_eighths(n: int)
    requires
        size(n) < 0x100_0000,
    ensures
        ({
            let f = float::single();
            let b = eighths(n).bits as u64;
            &&& f.mag(b) == f.round(size(n) * unit(), 1)
            &&& f.mag(b) < f.inf()
            &&& f.neg(b) == (n < 0)
            &&& f.units(f.mag(b)) == size(n) * unit()
            &&& f.value(b) == n * unit()
            &&& n == 0 ==> b == 0
            &&& n != 0 ==> f.mag(b) > 0
            &&& exact::finite(eighths(n))
        }),
{
    let f = float::single();
    let m = size(n);
    lemma_unit();
    order::lemma_round_representable(f, m, 146);
    if n == 0 {
        assert(m * unit() == 0) by (nonlinear_arith)
            requires
                m == 0,
        ;
        code::lemma_round_zero(f);
    } else {
        assert(m * unit() > 0) by (nonlinear_arith)
            requires
                m > 0,
                unit() > 0,
        ;
        code::lemma_round_positive(f, m * unit());
    }
    if n < 0 {
        assert(-(m * unit()) == n * unit()) by (nonlinear_arith)
            requires
                m == -n,
        ;
    }
}

proof fn lemma_from(n: u64)
    requires
        n < 0x20_0000,
    ensures
        Single::from_u64(n) == eighths(8 * n as int),
{
    reveal(Single::spec_from_u64);
    lemma_unit();
    assert(n as nat * exact::one() == size(8 * n as int) * unit()) by (nonlinear_arith)
        requires
            exact::one() == 8 * unit(),
            size(8 * n as int) == 8 * n as nat,
    ;
}

/// The constants that are used.
proof fn lemma_constants()
    ensures
        eighths(0).bits == 0,
        eighths(4).bits == paint::HALF,
        eighths(8).bits == paint::ONE,
        eighths(16).bits == paint::TWO,
        eighths(32).bits == paint::FOUR,
{
    let f = float::single();
    lemma2_to64();
    lemma_eighths(0);
    let (a, b, c, d) = (
        paint::HALF as nat,
        paint::ONE as nat,
        paint::TWO as nat,
        paint::FOUR as nat,
    );
    assert(f.mant(a) == 0x80_0000 && f.expo(a) == 125);
    assert(f.mant(b) == 0x80_0000 && f.expo(b) == 126);
    assert(f.mant(c) == 0x80_0000 && f.expo(c) == 127);
    assert(f.mant(d) == 0x80_0000 && f.expo(d) == 128);
    lemma_pow2_adds(21, 125);
    lemma_pow2_adds(1, 125);
    lemma_pow2_adds(2, 125);
    lemma_pow2_adds(3, 125);
    order::lemma_round_exact(f, a);
    order::lemma_round_exact(f, b);
    order::lemma_round_exact(f, c);
    order::lemma_round_exact(f, d);
    assert(size(4) == 4 && size(8) == 8 && size(16) == 16 && size(32) == 32);
}

/// The sum of two numbers of eighths, in units.
proof fn lemma_total(a: int, b: int, c: int)
    requires
        c == a + b,
    ensures
        a * unit() + b * unit() == c * unit(),
        (c > 0) == (c * unit() > 0),
        (c < 0) == (c * unit() < 0),
        c < 0 ==> -(c * unit()) == size(c) * unit(),
{
    lemma_unit();
    assert(a * unit() + b * unit() == c * unit()) by (nonlinear_arith)
        requires
            c == a + b,
    ;
    assert((c > 0) == (c * unit() > 0) && (c < 0) == (c * unit() < 0)) by (nonlinear_arith)
        requires
            unit() > 0,
    ;
    if c < 0 {
        assert(-(c * unit()) == (-c) * unit()) by (nonlinear_arith);
    }
}

proof fn lemma_plus(a: int, b: int)
    requires
        size(a) < 0x100_0000,
        size(b) < 0x100_0000,
        size(a + b) < 0x100_0000,
    ensures
        eighths(a).plus(eighths(b)) == eighths(a + b),
{
    reveal(Single::spec_plus);
    lemma_eighths(a);
    lemma_eighths(b);
    lemma_eighths(a + b);
    lemma_total(a, b, a + b);
}

proof fn lemma_minus(a: int, b: int)
    requires
        size(a) < 0x100_0000,
        size(b) < 0x100_0000,
        size(a - b) < 0x100_0000,
    ensures
        eighths(a).minus(eighths(b)) == eighths(a - b),
{
    let f = float::single();
    reveal(Single::spec_minus);
    lemma_eighths(a);
    lemma_eighths(b);
    lemma_eighths(a - b);
    lemma_total(a, -b, a - b);
    assert((-b) * unit() == -(b * unit())) by (nonlinear_arith);
    let n = f.spec_negated(eighths(b).bits as u64);
    assert(f.mag(n) == f.mag(eighths(b).bits as u64));
    assert(f.value(n) == -(b * unit()));
}

/// A product of positive numbers that is a whole number of eighths.
proof fn lemma_times(a: int, b: int, c: int)
    requires
        0 < a < 0x100_0000,
        0 < b < 0x100_0000,
        0 < c < 0x100_0000,
        a * b == 8 * c,
    ensures
        eighths(a).times(eighths(b)) == eighths(c),
{
    let f = float::single();
    let (u, z) = (unit(), exact::one());
    reveal(Single::spec_times);
    lemma_unit();
    lemma_eighths(a);
    lemma_eighths(b);
    lemma_eighths(c);
    let m = size(c) * u;
    assert((size(a) * u) * (size(b) * u) == m * z) by (nonlinear_arith)
        requires
            m == size(c) * u,
            size(a) * size(b) == 8 * size(c),
            z == 8 * u,
    ;
    ratio::lemma_round_scale(f, m, 1, z);
    assert(1 * z == z);
}

/// A quotient of positive numbers that is a whole number of eighths.
proof fn lemma_over(a: int, b: int, c: int)
    requires
        0 < a < 0x100_0000,
        0 < b < 0x100_0000,
        0 < c < 0x100_0000,
        8 * a == c * b,
    ensures
        eighths(a).over(eighths(b)) == eighths(c),
{
    let f = float::single();
    let (u, z) = (unit(), exact::one());
    reveal(Single::spec_over);
    lemma_unit();
    lemma_eighths(a);
    lemma_eighths(b);
    lemma_eighths(c);
    let (m, d) = (size(c) * u, size(b) * u);
    assert((size(a) * u) * z == m * d && d > 0) by (nonlinear_arith)
        requires
            m == size(c) * u,
            d == size(b) * u,
            8 * size(a) == size(c) * size(b),
            z == 8 * u,
            size(b) > 0,
            u > 0,
    ;
    ratio::lemma_round_scale(f, m, 1, d);
    assert(1 * d == d);
}

/// Finite numbers compare as what they stand for.
pub proof fn lemma_less(a: Single, b: Single)
    requires
        exact::finite(a),
        exact::finite(b),
    ensures
        a.less(b) == (near::single_value(a) < near::single_value(b)),
        !a.is_nan(),
{
    let f = float::single();
    reveal(Single::spec_less);
    reveal(Single::spec_is_nan);
    let (x, y) = (f.mag(a.bits as u64), f.mag(b.bits as u64));
    near::lemma_codes(f, x, y);
    near::lemma_codes(f, y, x);
    assert(f.units(0) == 0) by {
        assert(0 * pow2(0) == 0);
    }
    near::lemma_codes(f, x, 0);
    near::lemma_codes(f, y, 0);
}

/// Where the center of a dot lies, in eighths of a pixel: in the middle of its part of the
/// cell, of which there are two beside each other and four below each other.
pub open spec fn middle(area: Bounds, dx: int, dy: int) -> (int, int) {
    (
        8 * area.x0 + 2 * ((2 * dx + 1) * (area.x1 - area.x0)),
        8 * area.y0 + (2 * dy + 1) * (area.y1 - area.y0),
    )
}

/// The smaller side of the part of a cell that belongs to a dot, in eighths of a pixel.
pub open spec fn part_side(area: Bounds) -> int {
    let (w, h) = (4 * (area.x1 - area.x0), 2 * (area.y1 - area.y0));
    if h < w {
        h
    } else {
        w
    }
}

/// The radius of a dot, in hundredths of an eighth of a pixel: 0.48 of the smaller side of
/// its part, and at least half a pixel.
pub open spec fn dot_radius(area: Bounds) -> int {
    if 48 * part_side(area) < 400 {
        400
    } else {
        48 * part_side(area)
    }
}

/// Whether a cell has pixels and lies within 2^20 pixels of the corner of its canvas.
pub open spec fn near_corner(area: Bounds) -> bool {
    area.x0 < area.x1 <= 0x10_0000 && area.y0 < area.y1 <= 0x10_0000
}

/// The disc of a dot.
proof fn lemma_disc(area: Bounds, dx: u32, dy: u32, width: u32, height: u32)
    requires
        near_corner(area),
        dx < 2,
        dy < 4,
    ensures
        paint::spec_disc(area, (2 * dy + dx) as u32, width, height).x == eighths(
            middle(area, dx as int, dy as int).0,
        ),
        paint::spec_disc(area, (2 * dy + dx) as u32, width, height).y == eighths(
            middle(area, dx as int, dy as int).1,
        ),
        8 * area.x0 < middle(area, dx as int, dy as int).0 < 8 * area.x1,
        8 * area.y0 < middle(area, dx as int, dy as int).1 < 8 * area.y1,
        400 <= dot_radius(area) <= 0x600_0000,
        exact::finite(paint::spec_disc(area, (2 * dy + dx) as u32, width, height).radius),
        ({
            let d = paint::spec_disc(area, (2 * dy + dx) as u32, width, height);
            let q = dot_radius(area);
            let r = near::single_value(d.radius);
            &&& (100 * r) * 0x80_0000 <= (q * unit()) * 0x80_0001
            &&& (q * unit()) * 0x7f_ffff <= (100 * r) * 0x80_0000
        }),
{
    let f = float::single();
    let (u, z) = (unit() as int, exact::one() as int);
    let (w, h) = (area.x1 - area.x0, area.y1 - area.y0);
    let d = paint::spec_disc(area, (2 * dy + dx) as u32, width, height);
    let (i, j) = (dx as int, dy as int);
    lemma_unit();
    lemma_constants();
    lemma_from(w as u64);
    lemma_from(h as u64);
    lemma_over(8 * w, 16, 4 * w);
    lemma_over(8 * h, 32, 2 * h);
    let i2 = (2 * dy + dx) as u32;
    assert(i2 % 2 == dx && i2 / 2 == dy);
    // The centers.
    lemma_from(dx as u64);
    lemma_from(dy as u64);
    lemma_plus(8 * i, 4);
    lemma_plus(8 * j, 4);
    let (px, py) = ((2 * i + 1) * w, (2 * j + 1) * h);
    assert(w <= px <= 3 * w && h <= py <= 7 * h) by (nonlinear_arith)
        requires
            px == (2 * i + 1) * w,
            py == (2 * j + 1) * h,
            0 <= i < 2,
            0 <= j < 4,
            w > 0,
            h > 0,
    ;
    assert((8 * i + 4) * (4 * w) == 8 * (2 * px) && (8 * j + 4) * (2 * h) == 8 * py)
        by (nonlinear_arith)
        requires
            px == (2 * i + 1) * w,
            py == (2 * j + 1) * h,
    ;
    lemma_times(8 * i + 4, 4 * w, 2 * px);
    lemma_times(8 * j + 4, 2 * h, py);
    lemma_from(area.x0 as u64);
    lemma_from(area.y0 as u64);
    lemma_plus(8 * area.x0, 2 * px);
    lemma_plus(8 * area.y0, py);
    // The radius.
    let s = part_side(area);
    lemma_eighths(4 * w);
    lemma_eighths(2 * h);
    lemma_less(eighths(2 * h), eighths(4 * w));
    assert((2 * h) * u < (4 * w) * u <==> 2 * h < 4 * w) by (nonlinear_arith)
        requires
            u > 0,
    ;
    let side = eighths(4 * w).min(eighths(2 * h));
    lemma_less(eighths(4 * w), eighths(2 * h));
    assert(side == eighths(s));
    lemma_eighths(s);
    let fill = paint::DOT_FILL as nat;
    assert(f.mant(fill) == 0xf5_c28f && f.expo(fill) == 124);
    let k = f.units(fill) as int;
    lemma2_to64();
    lemma_pow2_adds(25, 124);
    assert(0x200_0000 * k == 0xf5_c28f * z) by (nonlinear_arith)
        requires
            k == 0xf5_c28f * pow2(124),
            z == 0x200_0000 * pow2(124),
    ;
    let num = (s * u) * k;
    let v = s * u;
    assert(0x200_0000 * num == 0xf5_c28f * (v * z)) by (nonlinear_arith)
        requires
            num == v * k,
            0x200_0000 * k == 0xf5_c28f * z,
    ;
    assert(2 * u <= v <= 0x40_0000 * u) by (nonlinear_arith)
        requires
            v == s * u,
            2 <= s <= 0x40_0000,
            u > 0,
    ;
    assert(0x80_0000 * z <= num && num <= z * (0x80_0000 * unit())) by (nonlinear_arith)
        requires
            0x200_0000 * num == 0xf5_c28f * (v * z),
            2 * u <= v <= 0x40_0000 * u,
            u > 0x1000_0000_0000_0000_0000_0000,
            u == unit(),
            z == 8 * u,
    ;
    near::lemma_rounded_single(num as nat, z as nat, 146);
    reveal(Single::spec_times);
    let raw = side.times((Single { bits: paint::DOT_FILL }));
    let x = near::single_value(raw);
    assert(raw.bits == f.round(num as nat, z as nat));
    assert(x * z * 0x100_0000 <= num * 0x100_0001 && num * 0xff_ffff <= x * z * 0x100_0000);
    // Without the unit: x is 0.48 of v up to three parts in 2^25.
    assert(x * 0x200_0000 * 0x100_0000 <= (0xf5_c28f * v) * 0x100_0001 && (0xf5_c28f * v) * 0xff_ffff
        <= x * 0x200_0000 * 0x100_0000) by (nonlinear_arith)
        requires
            x * z * 0x100_0000 <= num * 0x100_0001,
            num * 0xff_ffff <= x * z * 0x100_0000,
            0x200_0000 * num == 0xf5_c28f * (v * z),
            z > 0,
    ;
    assert((100 * x) * 0x80_0000 <= (48 * v) * 0x80_0001);
    assert((48 * v) * 0x7f_ffff <= (100 * x) * 0x80_0000);
    lemma_eighths(4);
    let half = Single { bits: paint::HALF };
    assert(half == eighths(4));
    lemma_less(raw, half);
    let q = dot_radius(area);
    assert(q * u == if 48 * s < 400 {
        400 * u
    } else {
        48 * v
    }) by (nonlinear_arith)
        requires
            v == s * u,
            q == (if 48 * s < 400 {
                400
            } else {
                48 * s
            }),
    ;
    assert(48 * s < 400 ==> 48 * v <= 400 * u) by (nonlinear_arith)
        requires
            v == s * u,
            u > 0,
    ;
    assert(48 * s >= 400 ==> 48 * v >= 400 * u) by (nonlinear_arith)
        requires
            v == s * u,
            u > 0,
    ;
    let r = near::single_value(d.radius);
    assert(near::single_value(half) == 4 * u);
    assert(d.radius == raw.max(half));
    assert(r == if x < 4 * u {
        4 * u
    } else {
        x
    });
    assert(q * u == q * unit());
    let qu = q * u;
    assert((100 * r) * 0x80_0000 <= qu * 0x80_0001);
    assert(qu * 0x7f_ffff <= (100 * r) * 0x80_0000);
}

/// Powers of two that are used here.
proof fn lemma_powers()
    ensures
        exact::one() == pow2(149),
        pow2(193) * exact::one() == pow2(342),
        4 * pow2(342) == pow2(172) * pow2(172),
        float::single().hidden() * pow2(170) == pow2(193),
        2 * (float::single().hidden() * pow2(150)) == 4 * pow2(172),
        float::single().hidden() * pow2(147) == 0x100_0000 * unit(),
        0x1_0000_0000_0000_0000 * pow2(84) == pow2(148),
        pow2(148) * 2 == pow2(149),
        pow2(148) == pow2(74) * pow2(74),
        pow2(74) == 0x400 * 0x1_0000_0000_0000_0000,
        0x8000_0000_0000 * unit() == pow2(193),
        0x10_0000 * pow2(172) == pow2(192),
{
    lemma2_to64();
    lemma_pow2_adds(193, 149);
    lemma_pow2_adds(2, 342);
    lemma_pow2_adds(172, 172);
    lemma_pow2_adds(23, 170);
    lemma_pow2_adds(23, 150);
    lemma_pow2_adds(1, 173);
    lemma_pow2_adds(2, 172);
    lemma_pow2_adds(23, 147);
    lemma_pow2_adds(24, 146);
    lemma_pow2_adds(64, 84);
    lemma_pow2_adds(1, 148);
    lemma_pow2_adds(74, 74);
    lemma_pow2_adds(10, 64);
    lemma_pow2_adds(47, 146);
    lemma_pow2_adds(20, 172);
}

/// The squared distance along one side, up to rounding.
proof fn lemma_offset(at: u32, c: int) -> (v: int)
    requires
        at <= 0x10_0000,
        0 <= c <= 0x80_0000,
    ensures
        ({
            let o = paint::off_center(at, eighths(c));
            let a = 8 * at + 4 - c;
            let q = (a * a) * unit();
            &&& v == near::single_value(o)
            &&& o.bits < float::single().inf()
            &&& v >= 0
            &&& 0 <= a * a <= 0x4000_8000_0000
            &&& a == 0 ==> v == 0
            &&& a != 0 ==> v >= 0x80_0000 && a * a >= 1
            &&& v * 8 * 0x100_0000 <= q * 0x100_0001
            &&& q * 0xff_ffff <= v * 8 * 0x100_0000
        }),
{
    let f = float::single();
    let (u, z) = (unit() as int, exact::one() as int);
    let a = 8 * at + 4 - c;
    let o = paint::off_center(at, eighths(c));
    lemma_unit();
    lemma_powers();
    lemma_constants();
    lemma_from(at as u64);
    lemma_plus(8 * at as int, 4);
    lemma_minus(8 * at as int + 4, c);
    lemma_eighths(a);
    reveal(Single::spec_times);
    let s = size(a) as int;
    let v = near::single_value(o);
    assert(s * s == a * a && 0 <= s * s <= 0x4000_8000_0000) by (nonlinear_arith)
        requires
            s == a || s == -a,
            0 <= s <= 0x80_0004,
    ;
    let num = (s * u) * (s * u);
    let q = (a * a) * u;
    assert(num == q * u) by (nonlinear_arith)
        requires
            num == (s * u) * (s * u),
            q == (a * a) * u,
            s * s == a * a,
    ;
    code::lemma_round_zero(f);
    assert(f.units(0) == 0) by {
        assert(0 * pow2(0) == 0);
    }
    if a == 0 {
        assert(num == 0 && q == 0) by (nonlinear_arith)
            requires
                num == q * u,
                q == (a * a) * u,
                a == 0,
        ;
        ratio::lemma_round_scale(f, 0, 1, z as nat);
        assert(1 * z == z && 0 * z == 0);
    } else {
        assert(s * s >= 1) by (nonlinear_arith)
            requires
                s >= 1,
        ;
        assert(u <= q <= 0x4000_8000_0000 * u) by (nonlinear_arith)
            requires
                q == (a * a) * u,
                1 <= a * a <= 0x4000_8000_0000,
                u > 0,
        ;
        let big = f.hidden() * pow2(170);
        assert(0x80_0000 * z <= num && num <= z * big) by (nonlinear_arith)
            requires
                num == q * u,
                z == 8 * u,
                u <= q <= 0x4000_8000_0000 * u,
                big == 0x8000_0000_0000 * u,
                u > 0x1000_0000_0000_0000_0000_0000,
        ;
        near::lemma_rounded_single(num as nat, z as nat, 170);
        assert(v * z * 0x100_0000 <= num * 0x100_0001 && num * 0xff_ffff <= v * z * 0x100_0000);
        assert(v * 8 * 0x100_0000 <= q * 0x100_0001 && q * 0xff_ffff <= v * 8 * 0x100_0000)
            by (nonlinear_arith)
            requires
                v * z * 0x100_0000 <= num * 0x100_0001,
                num * 0xff_ffff <= v * z * 0x100_0000,
                num == q * u,
                z == 8 * u,
                u > 0,
        ;
    }
    v
}

/// A number that is rounded on its own keeps its sign, and its size up to a small part.
pub proof fn lemma_single_off(d: int, v: Single)
    requires
        v.bits == float::single().join(d < 0, float::single().round(size(d), 1)),
        size(d) <= pow2(193),
    ensures
        exact::finite(v),
        d <= 0 ==> near::single_value(v) <= 0,
        d >= 0 ==> near::single_value(v) >= 0 && v.bits < float::single().inf(),
        d >= 0 ==> d * 0xff_ffff <= near::single_value(v) * 0x100_0000 <= d * 0x100_0001,
{
    let f = float::single();
    lemma_powers();
    code::lemma_round_zero(f);
    assert(f.units(0) == 0) by {
        assert(0 * pow2(0) == 0);
    }
    let n = size(d);
    let r = f.units(f.round(n, 1));
    if n < 0x80_0000 {
        order::lemma_round_representable(f, n, 0);
        lemma2_to64();
        assert(n * pow2(0) == n) by (nonlinear_arith)
            requires
                pow2(0) == 1,
        ;
        near::lemma_finite(f, n, 1, 170);
    } else {
        near::lemma_rounded_single(n, 1, 170);
    }
    assert(r * 1 == r);
}

/// The root of a number, up to rounding.
proof fn lemma_root(s: Single, v: int) -> (r: int)
    requires
        s.bits < float::single().inf(),
        v == near::single_value(s),
        1 <= v <= pow2(193),
    ensures
        r == near::single_value(s.root()),
        s.root().bits < float::single().inf(),
        0 <= r <= 2 * pow2(172),
        ({
            let n = v * exact::one();
            &&& (r * r) * 0x1_0000_0000_0000 * 0x400_0000_0000 <= n * 0x1_0000_0200_0001 * 0x400_0000_0001
            &&& n * 0xffff_fe00_0001 * 0x400_0000_0000 <= (r * r) * 0x1_0000_0000_0000 * 0x400_0000_0001
        }),
{
    let f = float::single();
    let b = s.bits as u64;
    let z = exact::one() as int;
    reveal(Single::spec_root);
    lemma_powers();
    assert(f.units(0) == 0) by {
        assert(0 * pow2(0) == 0);
    }
    assert(f.mag(b) > 0);
    let n = v * z;
    lemma_pow2_pos(149);
    assert(f.units(f.mag(b)) * pow2(149) == n);
    let g = root::floor_root((4 * n) as nat) as int;
    assert(n >= 0 && z <= n && n <= pow2(342)) by (nonlinear_arith)
        requires
            n == v * z,
            1 <= v <= pow2(193),
            z > 0,
            pow2(193) * z == pow2(342),
    ;
    root::lemma_floor_root((4 * n) as nat);
    let (low, high) = (pow2(74) as int, pow2(172) as int);
    assert(g >= low) by (nonlinear_arith)
        requires
            4 * n < (g + 1) * (g + 1),
            low * low <= 4 * n,
            low >= 0,
            g >= 0,
    ;
    assert(g <= high) by (nonlinear_arith)
        requires
            g * g <= 4 * n,
            4 * n <= high * high,
            high >= 0,
            g >= 0,
    ;
    let exactly = g * g == 4 * n;
    let r = near::single_value(s.root());
    if exactly {
        near::lemma_rounded_single(g as nat, 2, 150);
    } else {
        near::lemma_rounded_single((2 * g + 1) as nat, 4, 150);
    }
    assert(r * 4 * 0x100_0000 <= (2 * g + 1) * 0x100_0001);
    assert((2 * g) * 0xff_ffff <= r * 4 * 0x100_0000);
    lemma_root_bounds(r, g, n);
    r
}

/// From the rounded-down root to the rounded one.
proof fn lemma_root_bounds(r: int, g: int, n: int)
    requires
        r >= 0,
        g >= 0x1_0000_0000_0000_0000,
        g * g <= 4 * n < (g + 1) * (g + 1),
        r * 4 * 0x100_0000 <= (2 * g + 1) * 0x100_0001,
        (2 * g) * 0xff_ffff <= r * 4 * 0x100_0000,
    ensures
        (r * r) * 0x1_0000_0000_0000 * 0x400_0000_0000 <= n * 0x1_0000_0200_0001 * 0x400_0000_0001,
        n * 0xffff_fe00_0001 * 0x400_0000_0000 <= (r * r) * 0x1_0000_0000_0000 * 0x400_0000_0001,
{
    let (x, gg) = (r * r, g * g);
    assert((2 * g + 1) * (2 * g + 1) == 4 * gg + 4 * g + 1 && (g + 1) * (g + 1) == gg + 2 * g + 1)
        by (nonlinear_arith)
        requires
            gg == g * g,
    ;
    assert(0x1_0000_0000_0000_0000 * g <= gg) by (nonlinear_arith)
        requires
            gg == g * g,
            g >= 0x1_0000_0000_0000_0000,
    ;
    let (l, k) = (r * 4 * 0x100_0000, (2 * g + 1) * 0x100_0001);
    assert(l * l <= k * k) by (nonlinear_arith)
        requires
            0 <= l <= k,
    ;
    assert(l * l == x * 16 * 0x1_0000_0000_0000) by (nonlinear_arith)
        requires
            l == r * 4 * 0x100_0000,
            x == r * r,
    ;
    assert(k * k == (4 * gg + 4 * g + 1) * 0x1_0000_0200_0001) by (nonlinear_arith)
        requires
            k == (2 * g + 1) * 0x100_0001,
            (2 * g + 1) * (2 * g + 1) == 4 * gg + 4 * g + 1,
    ;
    let j = (2 * g) * 0xff_ffff;
    assert(j * j <= l * l) by (nonlinear_arith)
        requires
            0 <= j <= l,
    ;
    assert(j * j == (4 * gg) * 0xffff_fe00_0001) by (nonlinear_arith)
        requires
            j == (2 * g) * 0xff_ffff,
            gg == g * g,
    ;
}

/// What is known of a distance `r`, for a number `m` of hundredths that is not below, or
/// not above it.
proof fn lemma_distance_bounds(r: int, n: int, d2: int, u: int, m: int)
    requires
        r >= 0,
        m >= 0,
        u > 0,
        d2 >= 0,
        n >= 0,
        (r * r) * 0x1_0000_0000_0000 * 0x400_0000_0000 <= n * 0x1_0000_0200_0001 * 0x400_0000_0001,
        n * 0xffff_fe00_0001 * 0x400_0000_0000 <= (r * r) * 0x1_0000_0000_0000 * 0x400_0000_0001,
        n * 0x1_0000_0000_0000 <= (d2 * (u * u)) * 0x1_0000_0200_0001,
        (d2 * (u * u)) * 0xffff_fe00_0001 <= n * 0x1_0000_0000_0000,
    ensures
        m * m >= 10000 * d2 ==> 100 * r * 0x8_0000 <= (m * u) * 0x8_0001,
        m * m <= 10000 * d2 ==> (m * u) * 0x7_ffff <= 100 * r * 0x8_0000,
{
    let (x, w) = (r * r, d2 * (u * u));
    assert(0 <= x && 0 <= w) by (nonlinear_arith)
        requires
            x == r * r,
            w == d2 * (u * u),
            d2 >= 0,
    ;
    assert(x * 0x40_0000_0000 <= w * 0x40_0008_0000);
    assert(w * 0x3f_fff8_0000 <= x * 0x40_0000_0000);
    let mm = (m * u) * (m * u);
    assert(mm == (m * m) * (u * u)) by (nonlinear_arith)
        requires
            mm == (m * u) * (m * u),
    ;
    let (k, l) = ((m * u) * 0x8_0001, 100 * r * 0x8_0000);
    let j = (m * u) * 0x7_ffff;
    assert(k * k == mm * 0x40_0010_0001 && j * j == mm * 0x3f_fff0_0001) by (nonlinear_arith)
        requires
            k == (m * u) * 0x8_0001,
            j == (m * u) * 0x7_ffff,
            mm == (m * u) * (m * u),
    ;
    assert(l * l == (10000 * x) * 0x40_0000_0000) by (nonlinear_arith)
        requires
            l == 100 * r * 0x8_0000,
            x == r * r,
    ;
    assert(0 <= j && 0 <= k && 0 <= l) by (nonlinear_arith)
        requires
            k == (m * u) * 0x8_0001,
            j == (m * u) * 0x7_ffff,
            l == 100 * r * 0x8_0000,
            m >= 0,
            u > 0,
            r >= 0,
    ;
    if m * m >= 10000 * d2 {
        assert(mm >= 10000 * w) by (nonlinear_arith)
            requires
                mm == (m * m) * (u * u),
                w == d2 * (u * u),
                m * m >= 10000 * d2,
        ;
        assert(l * l <= k * k);
        assert(l <= k) by (nonlinear_arith)
            requires
                l * l <= k * k,
                0 <= k,
                0 <= l,
        ;
    }
    if m * m <= 10000 * d2 {
        assert(mm <= 10000 * w) by (nonlinear_arith)
            requires
                mm == (m * m) * (u * u),
                w == d2 * (u * u),
                m * m <= 10000 * d2,
        ;
        assert(j * j <= l * l);
        assert(j <= l) by (nonlinear_arith)
            requires
                j * j <= l * l,
                0 <= j,
                0 <= l,
        ;
    }
}

/// The distance of the middle of a pixel from the center of a dot, up to rounding.
proof fn lemma_distance(x: u32, y: u32, cx: int, cy: int, m: int) -> (r: int)
    requires
        x <= 0x10_0000,
        y <= 0x10_0000,
        0 <= cx <= 0x80_0000,
        0 <= cy <= 0x80_0000,
        m >= 0,
    ensures
        ({
            let d = paint::off_center(x, eighths(cx)).plus(paint::off_center(y, eighths(cy)));
            let (a, b) = (8 * x + 4 - cx, 8 * y + 4 - cy);
            let d2 = a * a + b * b;
            &&& r == near::single_value(d.root())
            &&& d.root().bits < float::single().inf()
            &&& 0 <= r <= pow2(192)
            &&& m * m >= 10000 * d2 ==> 100 * r * 0x8_0000 <= (m * unit()) * 0x8_0001
            &&& m * m <= 10000 * d2 ==> (m * unit()) * 0x7_ffff <= 100 * r * 0x8_0000
        }),
{
    let f = float::single();
    let (u, z) = (unit() as int, exact::one() as int);
    let (a, b) = (8 * x + 4 - cx, 8 * y + 4 - cy);
    let d2 = a * a + b * b;
    lemma_unit();
    lemma_powers();
    lemma_pow2_unfold(193);
    lemma_pow2_pos(192);
    let va = lemma_offset(x, cx);
    let vb = lemma_offset(y, cy);
    let s = paint::off_center(x, eighths(cx)).plus(paint::off_center(y, eighths(cy)));
    reveal(Single::spec_plus);
    code::lemma_round_zero(f);
    assert(f.units(0) == 0) by {
        assert(0 * pow2(0) == 0);
    }
    let (qa, qb) = ((a * a) * u, (b * b) * u);
    assert(qa + qb == d2 * u) by (nonlinear_arith)
        requires
            qa == (a * a) * u,
            qb == (b * b) * u,
            d2 == a * a + b * b,
    ;
    let (v, w) = (near::single_value(s), d2 * u);
    assert(0 <= w <= 0x8001_0000_0000 * u) by (nonlinear_arith)
        requires
            w == d2 * u,
            0 <= d2 <= 0x8001_0000_0000,
            u > 0,
    ;
    lemma_single_off(va + vb, s);
    assert(v * 8 * 0x1_0000_0000_0000 <= w * 0x1_0000_0200_0001);
    assert(w * 0xffff_fe00_0001 <= v * 8 * 0x1_0000_0000_0000);
    let n = v * z;
    assert(n * 0x1_0000_0000_0000 <= (d2 * (u * u)) * 0x1_0000_0200_0001 && (d2 * (u * u))
        * 0xffff_fe00_0001 <= n * 0x1_0000_0000_0000) by (nonlinear_arith)
        requires
            n == v * z,
            z == 8 * u,
            w == d2 * u,
            u > 0,
            v * 8 * 0x1_0000_0000_0000 <= w * 0x1_0000_0200_0001,
            w * 0xffff_fe00_0001 <= v * 8 * 0x1_0000_0000_0000,
    ;
    if va + vb == 0 {
        reveal(Single::spec_root);
        assert(s.bits == 0);
        assert(a == 0 && b == 0);
        assert(d2 == 0);
        assert(m * u >= 0 && (m * m <= 0 ==> m * u == 0)) by (nonlinear_arith)
            requires
                m >= 0,
                u > 0,
        ;
        0
    } else {
        let r = lemma_root(s, v);
        lemma_distance_bounds(r, n, d2, u, m);
        r
    }
}

/// From radius, rim and distance to coverage.
proof fn lemma_coverage_bounds(q: int, u: int, r: int, b: int, d: int, v: int, c: int, m: int)
    requires
        u > 0,
        m >= 0,
        400 <= q,
        (100 * r) * 0x80_0000 <= (q * u) * 0x80_0001,
        (q * u) * 0x7f_ffff <= (100 * r) * 0x80_0000,
        (r + 4 * u) * 0xff_ffff <= b * 0x100_0000 <= (r + 4 * u) * 0x100_0001,
        b - d <= 0 ==> v <= 0,
        b - d >= 0 ==> v >= 0 && (b - d) * 0xff_ffff <= v * 0x100_0000 <= (b - d) * 0x100_0001,
        c == if v < 0 {
            0
        } else if v > 8 * u {
            8 * u
        } else {
            v
        },
    ensures
        100 * d * 0x8_0000 <= (m * u) * 0x8_0001 ==> 0x320_0000 * c >= if 0x1900_0000 <= (q
            + 400) * 0x7_ffff - m * 0x8_0001 {
            0x1900_0000 * u
        } else {
            u * ((q + 400) * 0x7_ffff - m * 0x8_0001)
        },
        (m * u) * 0x7_ffff <= 100 * d * 0x8_0000 ==> 0x320_0000 * c <= if (q + 400) * 0x8_0001
            - m * 0x7_ffff <= 0 {
            0
        } else {
            u * ((q + 400) * 0x8_0001 - m * 0x7_ffff)
        },
{
    let (w, k) = ((q + 400) * u, m * u);
    assert(w == q * u + 400 * u && w >= 800 * u) by (nonlinear_arith)
        requires
            w == (q + 400) * u,
            q >= 400,
            u > 0,
    ;
    let (low, high) = ((q + 400) * 0x7_ffff - m * 0x8_0001, (q + 400) * 0x8_0001 - m * 0x7_ffff);
    assert(u * low == w * 0x7_ffff - k * 0x8_0001 && u * high == w * 0x8_0001 - k * 0x7_ffff)
        by (nonlinear_arith)
        requires
            w == (q + 400) * u,
            k == m * u,
            low == (q + 400) * 0x7_ffff - m * 0x8_0001,
            high == (q + 400) * 0x8_0001 - m * 0x7_ffff,
    ;
    assert(0x1900_0000 <= low ==> 0x1900_0000 * u <= u * low) by (nonlinear_arith)
        requires
            u > 0,
    ;
    assert(high <= 0 ==> u * high <= 0) by (nonlinear_arith)
        requires
            u > 0,
    ;
    assert(high > 0 ==> u * high > 0) by (nonlinear_arith)
        requires
            u > 0,
    ;
    assert(0x1900_0000 > low ==> 0x1900_0000 * u > u * low) by (nonlinear_arith)
        requires
            u > 0,
    ;
    assert((100 * b) * 0x40_0000 >= w * 0x3f_ffff);
    assert((100 * b) * 0x40_0000 <= w * 0x40_0001);
    if 100 * d * 0x8_0000 <= k * 0x8_0001 {
        assert(8 * (0x320_0000 * (b - d)) >= 8 * (u * low) + 7 * w);
        if v < 8 * u && u * low > 0 {
            assert(b - d < 16 * u);
        }
    }
    if k * 0x7_ffff <= 100 * d * 0x8_0000 {
        assert(8 * (0x320_0000 * (b - d)) <= 8 * (u * high) - 7 * w);
        if b - d > 0 {
            if b - d <= 16 * u {
                assert(0x320_0000 * v <= 0x320_0000 * (b - d) + 100 * u);
            } else {
                assert(c <= b - d);
            }
        }
    }
}

/// How much of a pixel the disc of a dot covers: all of it at half a pixel within the rim,
/// nothing at half a pixel outside, and in proportion between. The disc is centered in the
/// part of the cell that belongs to the dot in column `dx` of two and row `dy` of four, from
/// the top. For every `m` that is not below the distance between the middle of the pixel and
/// that center, and every `m` that is not above it, in hundredths of an eighth of a pixel;
/// up to a part in 2^19.
pub proof fn law_dots_cover_a_disc(
    area: Bounds,
    dx: u32,
    dy: u32,
    width: u32,
    height: u32,
    x: u32,
    y: u32,
    m: int,
)
    requires
        near_corner(area),
        dx < 2,
        dy < 4,
        x <= 0x10_0000,
        y <= 0x10_0000,
        m >= 0,
    ensures
        ({
            let cover = paint::disc_coverage(
                paint::spec_disc(area, (2 * dy + dx) as u32, width, height),
                x,
                y,
            );
            let c = near::single_value(cover);
            let (cx, cy) = middle(area, dx as int, dy as int);
            let (a, b) = (8 * x + 4 - cx, 8 * y + 4 - cy);
            &&& exact::finite(cover)
            &&& 0 <= c <= exact::one()
            &&& m * m >= 10000 * (a * a + b * b) ==> covers_at_least(c, dot_radius(area), m)
            &&& m * m <= 10000 * (a * a + b * b) ==> covers_at_most(c, dot_radius(area), m)
        }),
{
    let f = float::single();
    let (u, z) = (unit() as int, exact::one() as int);
    let disc = paint::spec_disc(area, (2 * dy + dx) as u32, width, height);
    let (cx, cy) = middle(area, dx as int, dy as int);
    let q = dot_radius(area);
    lemma_unit();
    lemma_powers();
    lemma_pow2_unfold(193);
    lemma_constants();
    lemma_disc(area, dx, dy, width, height);
    let d = lemma_distance(x, y, cx, cy, m);
    let far = paint::off_center(x, disc.x).plus(paint::off_center(y, disc.y)).root();
    let half = Single { bits: paint::HALF };
    lemma_eighths(4);
    assert(half == eighths(4));
    let r = near::single_value(disc.radius);
    assert(400 * u <= q * u <= 0x1000_0000 * u) by (nonlinear_arith)
        requires
            400 <= q <= 0x1000_0000,
            u > 0,
    ;
    let rim = disc.radius.plus(half);
    assert(rim.bits == f.join(false, f.round((r + 4 * u) as nat, 1))) by {
        reveal(Single::spec_plus);
    }
    lemma_single_off(r + 4 * u, rim);
    let b = near::single_value(rim);
    let raw = rim.minus(far);
    assert(raw.bits == f.join(b - d < 0, f.round(size(b - d), 1))) by {
        reveal(Single::spec_minus);
        code::lemma_round_zero(f);
        let n = f.spec_negated(far.bits as u64);
        assert(f.mag(n) == f.mag(far.bits as u64));
        assert(f.value(n) == -d);
    }
    lemma_single_off(b - d, raw);
    let v = near::single_value(raw);
    let zero = Single { bits: 0 };
    let one = Single { bits: paint::ONE };
    lemma_eighths(0);
    lemma_eighths(8);
    assert(zero == eighths(0) && one == eighths(8));
    lemma_less(raw, zero);
    lemma_less(one, raw);
    let c = near::single_value(paint::spec_clamp(raw));
    assert(near::single_value(one) == 8 * u);
    assert(near::single_value(zero) == 0) by {
        assert(0 * unit() == 0);
    }
    assert(raw.less(zero) == (v < 0));
    assert(one.less(raw) == (8 * u < v));
    lemma_coverage_bounds(q, u, r, b, d, v, c, m);
    let (low, high) = ((q + 400) * 0x7_ffff - m * 0x8_0001, (q + 400) * 0x8_0001 - m * 0x7_ffff);
    assert(z * low == 8 * (u * low) && z * high == 8 * (u * high)) by (nonlinear_arith)
        requires
            z == 8 * u,
    ;
}

/// Whether a disc of radius `q` covers at least what it does at distance `m`.
pub open spec fn covers_at_least(c: int, q: int, m: int) -> bool {
    let rest = (q + 400) * 0x7_ffff - m * 0x8_0001;
    if 0x1900_0000 <= rest {
        c == exact::one()
    } else {
        0x1900_0000 * c >= exact::one() * rest
    }
}

/// Whether a disc of radius `q` covers at most what it does at distance `m`.
pub open spec fn covers_at_most(c: int, q: int, m: int) -> bool {
    let rest = (q + 400) * 0x8_0001 - m * 0x7_ffff;
    if rest <= 0 {
        c == 0
    } else {
        0x1900_0000 * c <= exact::one() * rest
    }
}

/// Rounding does not go past a number of eighths.
proof fn lemma_past(d: int, v: Single, n: int)
    requires
        v.bits == float::single().join(d < 0, float::single().round(size(d), 1)),
        size(d) <= pow2(193),
        0 <= n < 0x100_0000,
    ensures
        d <= n * unit() ==> near::single_value(v) <= n * unit(),
        d >= n * unit() ==> near::single_value(v) >= n * unit(),
        size(d) <= n * unit() ==> size(near::single_value(v)) <= n * unit(),
{
    let f = float::single();
    lemma_unit();
    lemma_eighths(n);
    lemma_single_off(d, v);
    let (s, k) = (size(d), n * unit());
    assert(k >= 0) by (nonlinear_arith)
        requires
            k == n * unit(),
            n >= 0,
            unit() > 0,
    ;
    assert(f.mag(v.bits as u64) == f.round(s, 1));
    if s <= k {
        order::lemma_round_mono(f, s, 1, k as nat, 1);
        order::lemma_units_mono(f, f.round(s, 1), f.round(k as nat, 1));
    }
    if k <= s {
        order::lemma_round_mono(f, k as nat, 1, s, 1);
        order::lemma_units_mono(f, f.round(k as nat, 1), f.round(s, 1));
    }
}

/// Whole numbers come back from the format.
proof fn lemma_whole(k: int)
    requires
        0 <= k < 0x20_0000,
    ensures
        eighths(8 * k).to_u32() == k,
        near::single_value(eighths(8 * k)) == k * exact::one(),
        float::single().join(false, float::single().round((k * exact::one()) as nat, 1)) == eighths(
            8 * k,
        ).bits,
{
    let (u, z) = (unit() as int, exact::one() as int);
    reveal(Single::spec_to_u64);
    lemma_unit();
    lemma_eighths(8 * k);
    assert((8 * k) * u == k * z) by (nonlinear_arith)
        requires
            z == 8 * u,
    ;
    lemma_div_multiples_vanish(k, z);
    assert(k * z == z * k) by (nonlinear_arith);
}

/// The first pixel reached, where a number is below the end of pixel `x`.
proof fn lemma_floor(v: Single, start: u32, x: u32)
    requires
        exact::finite(v),
        start <= x < 0x10_0000,
        near::single_value(v) <= (8 * x + 7) * unit(),
    ensures
        v.floor().max(Single::from_u64(start as u64)).to_u32() <= x,
{
    let f = float::single();
    let (u, z) = (unit() as int, exact::one() as int);
    let b = v.bits as u64;
    let at = Single::from_u64(start as u64);
    let low = v.floor();
    lemma_unit();
    lemma_from(start as u64);
    lemma_whole(start as int);
    if f.neg(b) {
        reveal(Single::spec_floor);
        reveal(Single::spec_to_u64);
        assert(f.neg(low.bits as u64));
    } else {
        let n = f.units(f.mag(b)) as int;
        let k = n / z;
        lemma_fundamental_div_mod(n, z);
        assert(0 <= k <= x) by (nonlinear_arith)
            requires
                n == z * k + n % z,
                0 <= n % z,
                0 <= n <= (8 * x + 7) * u,
                n % z < z,
                z == 8 * u,
                u > 0,
        ;
        lemma_whole(k);
        reveal(Single::spec_floor);
        assert(k as nat * pow2(149) == k * z);
        assert(low == eighths(8 * k));
    }
}

/// The pixel after the last one reached, where a number is above the start of pixel `x`.
proof fn lemma_ceil(v: Single, x: u32)
    requires
        v.bits < float::single().inf(),
        x < 0x10_0000,
        (8 * x + 2) * unit() <= near::single_value(v) <= 0xff_fff0 * unit(),
    ensures
        v.ceil().to_u32() > x,
{
    let f = float::single();
    let (u, z) = (unit() as int, exact::one() as int);
    let b = v.bits as u64;
    lemma_unit();
    let n = f.units(f.mag(b)) as int;
    let k = (n + z - 1) / z;
    lemma_fundamental_div_mod(n + z - 1, z);
    let rest = (n + z - 1) % z;
    assert(x < k < 0x20_0000) by (nonlinear_arith)
        requires
            n + z - 1 == z * k + rest,
            0 <= rest < z,
            (8 * x + 2) * u <= n <= 0xff_fff0 * u,
            z == 8 * u,
            u > 0,
            x >= 0,
    ;
    lemma_whole(k);
    reveal(Single::spec_ceil);
    assert(k as nat * pow2(149) == k * z);
    assert(v.ceil() == eighths(8 * k));
}

/// A disc reaches the pixels of its cell that lie next to its rim or within.
proof fn lemma_reach(c: int, radius: Single, q: int, start: u32, stop: u32, limit: u32, x: u32)
    requires
        0 <= c <= 0x80_0000,
        exact::finite(radius),
        400 <= q <= 0x600_0000,
        (100 * near::single_value(radius)) * 0x80_0000 <= (q * unit()) * 0x80_0001,
        (q * unit()) * 0x7f_ffff <= (100 * near::single_value(radius)) * 0x80_0000,
        start <= x < stop <= limit,
        stop <= 0x10_0000,
        100 * size(8 * x + 4 - c) <= q + 900,
    ensures
        paint::reach_from(eighths(c), radius, start) <= x,
        paint::reach_to(eighths(c), radius, stop, limit) > x,
{
    let f = float::single();
    let u = unit() as int;
    let r = near::single_value(radius);
    let one = Single { bits: paint::ONE };
    lemma_unit();
    lemma_powers();
    lemma_constants();
    lemma_eighths(c);
    lemma_eighths(8);
    assert(one == eighths(8));
    code::lemma_round_zero(f);
    let qu = q * u;
    assert(400 * u <= qu <= 0x600_0000 * u) by (nonlinear_arith)
        requires
            qu == q * u,
            400 <= q <= 0x600_0000,
            u > 0,
    ;
    let (cu, xu) = (c * u, x * u);
    assert(0 <= cu <= 0x80_0000 * u && 0 <= xu <= 0x10_0000 * u) by (nonlinear_arith)
        requires
            cu == c * u,
            xu == x * u,
            0 <= c <= 0x80_0000,
            0 <= x <= 0x10_0000,
            u > 0,
    ;
    assert(100 * (cu - 8 * xu - 4 * u) <= qu + 900 * u && 100 * (8 * xu + 4 * u - cu) <= qu + 900
        * u) by (nonlinear_arith)
        requires
            cu == c * u,
            xu == x * u,
            qu == q * u,
            100 * (8 * x + 4 - c) <= q + 900,
            100 * (c - 8 * x - 4) <= q + 900,
            u > 0,
    ;
    assert((8 * x + 15) * u == 8 * xu + 15 * u && (8 * x + 7) * u == 8 * xu + 7 * u && (8 * x + 2)
        * u == 8 * xu + 2 * u && (8 * x - 6) * u == 8 * xu - 6 * u) by (nonlinear_arith)
        requires
            xu == x * u,
    ;
    // Downward.
    let near_side = eighths(c).minus(radius);
    assert(near_side.bits == f.join(cu - r < 0, f.round(size(cu - r), 1))) by {
        reveal(Single::spec_minus);
        let n = f.spec_negated(radius.bits as u64);
        assert(f.mag(n) == f.mag(radius.bits as u64));
        assert(f.value(n) == -r);
    }
    lemma_single_off(cu - r, near_side);
    lemma_past(cu - r, near_side, 8 * x + 15);
    lemma_past(cu - r, near_side, 0xa0_0000);
    let v1 = near::single_value(near_side);
    let low = near_side.minus(one);
    assert(low.bits == f.join(v1 - 8 * u < 0, f.round(size(v1 - 8 * u), 1))) by {
        reveal(Single::spec_minus);
        let n = f.spec_negated(one.bits as u64);
        assert(f.mag(n) == f.mag(one.bits as u64));
        assert(f.value(n) == -(8 * u));
    }
    lemma_single_off(v1 - 8 * u, low);
    lemma_past(v1 - 8 * u, low, 8 * x + 7);
    lemma_floor(low, start, x);
    // Upward.
    let far_side = eighths(c).plus(radius);
    assert(far_side.bits == f.join(false, f.round((cu + r) as nat, 1))) by {
        reveal(Single::spec_plus);
    }
    lemma_single_off(cu + r, far_side);
    lemma_past(cu + r, far_side, 0xa0_0000);
    let v2 = near::single_value(far_side);
    if x > 0 {
        lemma_past(cu + r, far_side, 8 * x - 6);
    }
    let high = far_side.plus(one);
    assert(high.bits == f.join(false, f.round((v2 + 8 * u) as nat, 1))) by {
        reveal(Single::spec_plus);
    }
    lemma_single_off(v2 + 8 * u, high);
    lemma_past(v2 + 8 * u, high, 8 * x + 2);
    lemma_past(v2 + 8 * u, high, 0xb0_0000);
    lemma_ceil(high, x);
}

/// Whether the middle of a pixel lies a pixel or more outside the part of the cell that belongs
/// to a dot.
pub open spec fn clear_of(area: Bounds, dx: int, dy: int, x: int, y: int) -> bool {
    let (cx, cy) = middle(area, dx, dy);
    ||| size(8 * x + 4 - cx) >= 2 * (area.x1 - area.x0) + 8
    ||| size(8 * y + 4 - cy) >= (area.y1 - area.y0) + 8
}

/// Dots have one bit each.
proof fn lemma_dot_bits(i: u32, j: u32)
    requires
        i < 8,
        j < 8,
    ensures
        braille::spec_dot_bit(i % 2, i / 2) == pattern::dot_value(i % 2, i / 2),
        i != j ==> pattern::dot_value(i % 2, i / 2) & pattern::dot_value(j % 2, j / 2) == 0,
        pattern::dot_value(i % 2, i / 2) & pattern::dot_value(i % 2, i / 2) != 0,
{
    let (a, b) = (pattern::dot_value(i % 2, i / 2), pattern::dot_value(j % 2, j / 2));
    assert(i != j ==> a != b);
    assert(a & a != 0 && (a != b ==> a & b == 0)) by (bit_vector)
        requires
            a == 1 || a == 2 || a == 4 || a == 8 || a == 16 || a == 32 || a == 64 || a == 128,
            b == 1 || b == 2 || b == 4 || b == 8 || b == 16 || b == 32 || b == 64 || b == 128,
    ;
}

/// The dot in column `dx` and row `dy` puts no ink into what is clear of it.
proof fn lemma_clear(
    p: [u8; 4],
    area: Bounds,
    dx: u32,
    dy: u32,
    width: u32,
    height: u32,
    pen: Pen,
    x: int,
    y: int,
)
    requires
        near_corner(area),
        dx < 2,
        dy < 4,
        area.holds(x, y),
        clear_of(area, dx as int, dy as int, x, y),
    ensures
        paint::disc_pixel(
            p,
            paint::spec_disc(area, (2 * dy + dx) as u32, width, height),
            pen,
            x,
            y,
        ) == p,
{
    let (cx, cy) = middle(area, dx as int, dy as int);
    let (a, b) = (8 * x + 4 - cx, 8 * y + 4 - cy);
    let (w, h) = (area.x1 - area.x0, area.y1 - area.y0);
    let side = if size(a) >= 2 * w + 8 {
        a
    } else {
        b
    };
    let m = 100 * size(side) as int;
    assert(m * m <= 10000 * (a * a + b * b)) by (nonlinear_arith)
        requires
            m == 100 * side || m == -100 * side,
            side == a || side == b,
    ;
    law_dots_cover_a_disc(area, dx, dy, width, height, x as u32, y as u32, m);
    let q = dot_radius(area);
    assert((q + 400) * 0x8_0001 - m * 0x7_ffff <= 0);
    let disc = paint::spec_disc(area, (2 * dy + dx) as u32, width, height);
    let cover = paint::disc_coverage(disc, x as u32, y as u32);
    let zero = Single { bits: 0 };
    lemma_constants();
    lemma_eighths(0);
    assert(near::single_value(zero) == 0) by {
        assert(0 * unit() == 0);
    }
    lemma_less(zero, cover);
}

/// The first `n` dots of a cell, at a pixel that is clear of all of them but the dot `i`.
proof fn lemma_dots(
    p: [u8; 4],
    bits: u8,
    area: Bounds,
    i: u32,
    width: u32,
    height: u32,
    pen: Pen,
    n: nat,
    x: int,
    y: int,
)
    requires
        near_corner(area),
        n <= 8,
        i < 8,
        area.holds(x, y),
        forall|j: u32|
            j < 8 && j != i ==> (#[trigger] pattern::dot_value(j % 2, j / 2)) & bits == 0 || clear_of(
                area,
                (j % 2) as int,
                (j / 2) as int,
                x,
                y,
            ),
    ensures
        paint::braille_pixel(p, bits, area, width, height, pen, n, x, y) == if i < n
            && pattern::dot_value(i % 2, i / 2) & bits != 0 {
            paint::disc_pixel(p, paint::spec_disc(area, i, width, height), pen, x, y)
        } else {
            p
        },
    decreases n,
{
    if n > 0 {
        let j = (n - 1) as u32;
        lemma_dots(p, bits, area, i, width, height, pen, (n - 1) as nat, x, y);
        lemma_dot_bits(j, i);
        let v = pattern::dot_value(j % 2, j / 2);
        assert(v & bits == bits & v) by (bit_vector);
        if j != i && bits & v != 0 {
            let before = paint::braille_pixel(
                p,
                bits,
                area,
                width,
                height,
                pen,
                (n - 1) as nat,
                x,
                y,
            );
            assert(2 * (j / 2) + j % 2 == j);
            lemma_clear(before, area, j % 2, j / 2, width, height, pen, x, y);
        }
    }
}

/// Every dot of a braille cell is a disc of ink in its own part of the cell. Parts lie in two
/// columns and four rows from the top. At a pixel of the cell that lies a pixel or more
/// outside the parts of the other dots that are set, ink is laid in the proportion in which
/// the disc covers the pixel, times the opacity of the pen, and none where the dot is not
/// set. Holds for every `m` that is not below, or not above the distance from the center of
/// the part, in hundredths of an eighth of a pixel.
pub proof fn law_dots_are_discs_of_ink(
    p: [u8; 4],
    bits: u8,
    area: Bounds,
    dx: u32,
    dy: u32,
    width: u32,
    height: u32,
    pen: Pen,
    x: int,
    y: int,
    m: int,
) -> (r: (int, int))
    requires
        near_corner(area),
        area.x1 <= width,
        area.y1 <= height,
        dx < 2,
        dy < 4,
        area.holds(x, y),
        exact::finite(pen.opacity),
        0 <= near::single_value(pen.opacity) <= exact::one(),
        m >= 0,
        forall|j: u32|
            j < 8 && j != 2 * dy + dx ==> (#[trigger] pattern::dot_value(j % 2, j / 2)) & bits == 0
                || clear_of(area, (j % 2) as int, (j / 2) as int, x, y),
    ensures
        ({
            let after = paint::braille_pixel(p, bits, area, width, height, pen, 8, x, y);
            let (cx, cy) = middle(area, dx as int, dy as int);
            let (a, b) = (8 * x + 4 - cx, 8 * y + 4 - cy);
            let (c, alpha) = r;
            let exact = c * near::single_value(pen.opacity);
            &&& 0 <= c <= exact::one()
            &&& m * m >= 10000 * (a * a + b * b) ==> covers_at_least(c, dot_radius(area), m)
            &&& m * m <= 10000 * (a * a + b * b) ==> covers_at_most(c, dot_radius(area), m)
            &&& 0 <= alpha <= exact::one()
            &&& 0x2_0000 * (alpha * exact::one() - exact) <= exact::one() * exact::one()
            &&& 0x2_0000 * (exact - alpha * exact::one()) <= exact::one() * exact::one()
            &&& pen.opacity.bits == paint::ONE ==> alpha == c
            &&& after == p || pattern::dot_value(dx, dy) & bits != 0 && c > 0
            &&& pattern::dot_value(dx, dy) & bits != 0 && c > 0 ==> exact::inked(
                p,
                pen.ink,
                alpha,
                pen.transparent,
                after,
            )
        }),
{
    let i = (2 * dy + dx) as u32;
    let (cx, cy) = middle(area, dx as int, dy as int);
    let (a, b) = (8 * x + 4 - cx, 8 * y + 4 - cy);
    let disc = paint::spec_disc(area, i, width, height);
    let cover = paint::disc_coverage(disc, x as u32, y as u32);
    let c = near::single_value(cover);
    let q = dot_radius(area);
    assert(i % 2 == dx && i / 2 == dy);
    law_dots_cover_a_disc(area, dx, dy, width, height, x as u32, y as u32, m);
    exact::lemma_share(cover, pen.opacity);
    let alpha = near::single_value(cover.times(pen.opacity));
    lemma_dots(p, bits, area, i, width, height, pen, 8, x, y);
    let zero = Single { bits: 0 };
    lemma_constants();
    lemma_eighths(0);
    assert(near::single_value(zero) == 0) by {
        assert(0 * unit() == 0);
    }
    lemma_less(zero, cover);
    if c > 0 {
        lemma_disc(area, dx, dy, width, height);
        let (ma, mb) = (100 * size(a) as int, 100 * size(b) as int);
        assert(ma * ma <= 10000 * (a * a + b * b) && mb * mb <= 10000 * (a * a + b * b))
            by (nonlinear_arith)
            requires
                ma == 100 * a || ma == -100 * a,
                mb == 100 * b || mb == -100 * b,
        ;
        law_dots_cover_a_disc(area, dx, dy, width, height, x as u32, y as u32, ma);
        law_dots_cover_a_disc(area, dx, dy, width, height, x as u32, y as u32, mb);
        lemma_reach(cx, disc.radius, q, area.x0, area.x1, width, x as u32);
        lemma_reach(cy, disc.radius, q, area.y0, area.y1, height, y as u32);
        exact::law_blending_lays_ink(p, pen.ink, cover.times(pen.opacity), pen.transparent);
    }
    (c, alpha)
}

/// Where one dot alone is set, ink lies only within the part of the cell in its column of two
/// and its row of four, counted from the top, and one pixel of feathering; and the pixel at
/// the middle of that part is inked, by a quarter at least.
pub proof fn law_lone_dots_lie_in_their_part(
    p: [u8; 4],
    area: Bounds,
    dx: u32,
    dy: u32,
    width: u32,
    height: u32,
    pen: Pen,
    x: int,
    y: int,
) -> (alpha: int)
    requires
        near_corner(area),
        area.x1 <= width,
        area.y1 <= height,
        dx < 2,
        dy < 4,
        area.holds(x, y),
        pen.opacity.bits == paint::ONE,
    ensures
        ({
            let after = paint::braille_pixel(
                p,
                pattern::dot_value(dx, dy),
                area,
                width,
                height,
                pen,
                8,
                x,
                y,
            );
            let (cx, cy) = middle(area, dx as int, dy as int);
            &&& clear_of(area, dx as int, dy as int, x, y) ==> after == p
            &&& 8 * x <= cx <= 8 * x + 8 && 8 * y <= cy <= 8 * y + 8 ==> exact::one() <= 4 * alpha
                && alpha <= exact::one() && exact::inked(p, pen.ink, alpha, pen.transparent, after)
        }),
{
    let i = (2 * dy + dx) as u32;
    let v = pattern::dot_value(dx, dy);
    let (cx, cy) = middle(area, dx as int, dy as int);
    let (a, b) = (8 * x + 4 - cx, 8 * y + 4 - cy);
    assert(i % 2 == dx && i / 2 == dy);
    lemma_dot_bits(i, i);
    assert forall|j: u32| j < 8 && j != i implies (#[trigger] pattern::dot_value(j % 2, j / 2)) & v
        == 0 by {
        lemma_dot_bits(j, i);
    }
    lemma_unit();
    lemma_constants();
    lemma_eighths(8);
    let (c, alpha) = law_dots_are_discs_of_ink(p, v, area, dx, dy, width, height, pen, x, y, 566);
    if clear_of(area, dx as int, dy as int, x, y) {
        lemma_dots(p, v, area, i, width, height, pen, 8, x, y);
        lemma_clear(p, area, dx, dy, width, height, pen, x, y);
    }
    if 8 * x <= cx <= 8 * x + 8 && 8 * y <= cy <= 8 * y + 8 {
        assert(a * a <= 16 && b * b <= 16) by (nonlinear_arith)
            requires
                -4 <= a <= 4,
                -4 <= b <= 4,
        ;
        assert(566int * 566int >= 10000 * (a * a + b * b));
        lemma_disc(area, dx, dy, width, height);
        let q = dot_radius(area);
        let rest = (q + 400) * 0x7_ffff - 566int * 0x8_0001;
        assert(rest >= 0x640_0000);
        let z = exact::one() as int;
        assert(z * rest >= z * 0x640_0000) by (nonlinear_arith)
            requires
                rest >= 0x640_0000,
                z > 0,
        ;
        assert(0x1900_0000 * c >= z * 0x640_0000);
    }
    alpha
}

} // verus!
