//! How cells cover the image, in exact numbers.

use crate::engine;
use crate::engine::geometry;
use crate::engine::geometry::{Geometry, ONE};
use crate::engine::tiling;
use crate::float;
use crate::float::near;
use crate::float::order;
use crate::float::ratio;
use crate::float::{Double, Single};
use vstd::arithmetic::div_mod::*;
use vstd::arithmetic::power2::*;
use vstd::prelude::*;

verus! {

/// How tall a cell is in pixels, as numerator and denominator: the width of the image times
/// the aspect, by the number of columns, but at least one.
pub open spec fn cell_height(img_w: u32, cols: u32, aspect: Single) -> (int, int) {
    let den = cols * pow2(149);
    let num = img_w * near::single_value(aspect);
    (if num < den {
        den
    } else {
        num
    }, den)
}

/// What the numbers of this module are exact up to: one part in 2^50.
pub open spec fn fine() -> int {
    0x4_0000_0000_0000
}

/// Rounding a number of a few places in which it is large.
proof fn lemma_rounded(num: nat, den: nat, k: nat)
    requires
        den > 0,
        0x10_0000_0000_0000 * den <= num <= den * (0x10_0000_0000_0000 * pow2(k)),
        k < 2000,
    ensures
        ({
            let f = float::double();
            let u = f.units(f.round(num, den));
            &&& f.round(num, den) < f.inf()
            &&& u * den * 0x20_0000_0000_0000 <= num * 0x20_0000_0000_0001
            &&& num * 0x1f_ffff_ffff_ffff <= u * den * 0x20_0000_0000_0000
        }),
{
    let f = float::double();
    assert((k + 1) * f.hidden() < f.inf()) by (nonlinear_arith)
        requires
            k < 2000,
            f.hidden() == 0x10_0000_0000_0000,
            f.inf() == 0x7ff0_0000_0000_0000,
    ;
    near::lemma_finite(f, num, den, k);
    near::lemma_near(f, num, den);
}

/// Powers of two that are used here.
proof fn lemma_powers()
    ensures
        pow2(1074) == pow2(149) * pow2(925),
        pow2(149) > 0,
        pow2(925) >= 0x20_0000_0000_0000,
        pow2(1074) >= 0x20_0000_0000_0000,
        pow2(1074) > 0,
        pow2(1150) > 0,
{
    lemma2_to64();
    lemma2_to64_rest();
    lemma_pow2_adds(149, 925);
    lemma_pow2_pos(149);
    lemma_pow2_pos(1074);
    lemma_pow2_pos(1150);
    ratio::lemma_pow2_mono(53, 925);
    ratio::lemma_pow2_mono(53, 1074);
}

/// The width of a cell.
proof fn lemma_width(img_w: u32, cols: u32)
    requires
        1 <= cols <= img_w,
    ensures
        ({
            let f = float::double();
            let cell = Double::from_u64(img_w as u64).over(Double::from_u64(cols as u64)).bits;
            let c = f.units(cell as nat);
            &&& 0 < cell < f.inf()
            &&& c * cols * 0x20_0000_0000_0000 <= (img_w * pow2(1074)) * 0x20_0000_0000_0001
            &&& (img_w * pow2(1074)) * 0x1f_ffff_ffff_ffff <= c * cols * 0x20_0000_0000_0000
            &&& pow2(1074) <= c <= 0x1_0000_0000 * pow2(1074)
        }),
{
    let f = float::double();
    let z = pow2(1074);
    let cell = Double::from_u64(img_w as u64).over(Double::from_u64(cols as u64));
    lemma_powers();
    geometry::lemma_double();
    geometry::lemma_small(img_w);
    geometry::lemma_small(cols);
    reveal(Double::spec_over);
    let (num, den) = (img_w as nat * z, cols as nat);
    ratio::lemma_round_scale(f, num, den, z);
    let h: nat = 0x10_0000_0000_0000;
    assert(h * den <= num && num <= den * (h * z)) by (nonlinear_arith)
        requires
            num == img_w as nat * z,
            den == cols as nat,
            1 <= cols <= img_w,
            img_w <= 0xffff_ffff,
            h == 0x10_0000_0000_0000,
            z >= h,
    ;
    lemma_rounded(num, den, 1074);
    let c = f.units(cell.bits as nat);
    assert(cell.bits == f.round(num, den));
    // At least one pixel and at most the image.
    assert(z * den <= num * 1 && num * 1 <= (0x1_0000_0000 * z) * den) by (nonlinear_arith)
        requires
            num == img_w as nat * z,
            den == cols as nat,
            1 <= cols <= img_w,
            img_w <= 0xffff_ffff,
    ;
    order::lemma_round_mono(f, z, 1, num, den);
    order::lemma_round_representable(f, 1, 1074);
    assert(1 * z == z);
    order::lemma_units_mono(f, f.round(z, 1), cell.bits as nat);
    order::lemma_round_mono(f, num, den, 0x1_0000_0000 * z, 1);
    order::lemma_round_representable(f, 0x1_0000_0000, 1074);
    order::lemma_units_mono(f, cell.bits as nat, f.round(0x1_0000_0000 * z, 1));
    assert(cell.bits > 0) by {
        if cell.bits == 0 {
            assert(0 * pow2(0) == 0);
        }
    }
}

/// A positive aspect in the wider format.
proof fn lemma_aspect(aspect: Single)
    requires
        0 < aspect.bits < float::single().inf(),
    ensures
        ({
            let f = float::double();
            let a = float::single().units(aspect.bits as nat);
            let d = f.units(aspect.to_double().bits as nat);
            &&& 0 < aspect.to_double().bits < f.inf()
            &&& near::single_value(aspect) == a
            &&& a > 0
            &&& d * 0x20_0000_0000_0000 <= (a * pow2(925)) * 0x20_0000_0000_0001
            &&& (a * pow2(925)) * 0x1f_ffff_ffff_ffff <= d * 0x20_0000_0000_0000
            &&& a * pow2(925) <= 0x10_0000_0000_0000 * pow2(1150)
        }),
{
    let (f, s) = (float::double(), float::single());
    let a = s.units(aspect.bits as nat);
    let p = pow2(149);
    let q = pow2(925);
    lemma_powers();
    order::lemma_units_positive(s, aspect.bits as nat);
    order::lemma_code_parts(s, aspect.bits as nat);
    let m = s.mant(aspect.bits as nat);
    let e = s.expo(aspect.bits as nat);
    assert(e <= 253);
    ratio::lemma_pow2_mono(e, 253);
    lemma_pow2_adds(253, 925);
    lemma_pow2_pos(253);
    lemma2_to64();
    lemma_pow2_adds(28, 1150);
    let h: nat = 0x10_0000_0000_0000;
    assert(a * q <= 0x100_0000 * pow2(1178)) by (nonlinear_arith)
        requires
            a == m * pow2(e),
            m < 0x100_0000,
            pow2(e) <= pow2(253),
            pow2(1178) == pow2(253) * q,
            q > 0,
    ;
    assert(a * q <= h * pow2(1150)) by (nonlinear_arith)
        requires
            a * q <= 0x100_0000 * pow2(1178),
            pow2(1178) == 0x1000_0000 * pow2(1150),
            h == 0x10_0000_0000_0000,
    ;
    assert(a * q >= q) by (nonlinear_arith)
        requires
            a >= 1,
            q > 0,
    ;
    assert(1 * (h * pow2(1150)) == h * pow2(1150));
    lemma_rounded(a * q, 1, 1150);
    assert(a * pow2(1074) == (a * q) * p) by (nonlinear_arith)
        requires
            pow2(1074) == p * q,
    ;
    ratio::lemma_round_scale(f, a * q, 1, p);
    assert(1 * p == p);
    reveal(Single::spec_to_double);
    let d = f.units(aspect.to_double().bits as nat);
    assert(aspect.to_double().bits == f.round(a * q, 1));
    assert(d * 1 == d);
    assert(aspect.to_double().bits > 0) by {
        if aspect.to_double().bits == 0 {
            assert(0 * pow2(0) == 0);
        }
    }
}

/// The height of a cell.
proof fn lemma_height(img_w: u32, cols: u32, aspect: Single)
    requires
        1 <= cols <= img_w,
        0 < aspect.bits < float::single().inf(),
    ensures
        ({
            let f = float::double();
            let width = Double::from_u64(img_w as u64).over(Double::from_u64(cols as u64));
            let cell = width.times(aspect.to_double()).max(Double { bits: ONE }).bits;
            let c = f.units(cell as nat);
            let (m, d) = cell_height(img_w, cols, aspect);
            let t = 0x20_0000_0000_0000int;
            &&& 0 < cell < f.inf()
            &&& pow2(1074) <= c <= 0x10_0000_0000_0000 * pow2(1200)
            &&& 0 < d <= m
            &&& (c * d) * (t * t * t) <= (m * pow2(1074)) * ((t + 1) * (t + 1) * (t + 1))
            &&& (m * pow2(1074)) * ((t - 1) * (t - 1) * (t - 1)) <= (c * d) * (t * t * t)
        }),
{
    let f = float::double();
    let z = pow2(1074);
    let (p, q) = (pow2(149), pow2(925));
    let t = 0x20_0000_0000_0000int;
    let h: nat = 0x10_0000_0000_0000;
    let width = Double::from_u64(img_w as u64).over(Double::from_u64(cols as u64));
    let wide = aspect.to_double();
    let (w, a, n) = (img_w as nat, float::single().units(aspect.bits as nat), cols as nat);
    lemma_powers();
    lemma_width(img_w, cols);
    lemma_aspect(aspect);
    let (u, v) = (f.units(width.bits as nat), f.units(wide.bits as nat));
    // The product.
    let num = u * v;
    lemma2_to64();
    lemma_pow2_adds(50, 1150);
    lemma2_to64_rest();
    let big = pow2(1200);
    assert(h * z <= num) by (nonlinear_arith)
        requires
            num == u * v,
            u >= z,
            (a * q) * 0x1f_ffff_ffff_ffff <= v * 0x20_0000_0000_0000,
            a >= 1,
            q >= 0x20_0000_0000_0000,
            h == 0x10_0000_0000_0000,
            z > 0,
    ;
    assert(num <= z * (h * big)) by (nonlinear_arith)
        requires
            num == u * v,
            u <= 0x1_0000_0000 * z,
            v * 0x20_0000_0000_0000 <= (a * q) * 0x20_0000_0000_0001,
            a * q <= h * pow2(1150),
            big == 0x4_0000_0000_0000 * pow2(1150),
            h == 0x10_0000_0000_0000,
            z > 0,
            pow2(1150) > 0,
    ;
    lemma_rounded(num, z, 1200);
    reveal(Double::spec_times);
    let raw = width.times(wide);
    let x = f.units(raw.bits as nat);
    assert(raw.bits == f.round(num, z));
    // The larger one of it and one.
    geometry::lemma_one();
    near::lemma_codes(f, raw.bits as nat, ONE as nat);
    reveal(Double::spec_less);
    reveal(Double::spec_is_nan);
    let cell = raw.max(Double { bits: ONE });
    let c = f.units(cell.bits as nat);
    assert(c == if x < z {
        z
    } else {
        x
    });
    assert(x * z <= z * (h * big) * 2) by (nonlinear_arith)
        requires
            x * z * 0x20_0000_0000_0000 <= num * 0x20_0000_0000_0001,
            num <= z * (h * big),
    ;
    assert(c <= h * big) by {
        order::lemma_round_mono(f, num, z, h * big, 1);
        let code: nat = (1201 * f.hidden()) as nat;
        lemma_fundamental_div_mod_converse(code as int, h as int, 1201, 0);
        assert(f.mant(code) == h && f.expo(code) == 1200);
        order::lemma_round_exact(f, code);
        order::lemma_units_mono(f, raw.bits as nat, code);
        ratio::lemma_pow2_mono(1074, 1200);
        assert(z <= h * big) by (nonlinear_arith)
            requires
                z <= big,
                h == 0x10_0000_0000_0000,
                big >= 0,
        ;
    }
    // In exact numbers.
    let (m, d) = cell_height(img_w, cols, aspect);
    let ideal = (w * a) as int;
    let dn = d as int;
    assert(dn > 0) by (nonlinear_arith)
        requires
            dn == n * p,
            n >= 1,
            p > 0,
    ;
    let (t3, up, down) = (t * t * t, (t + 1) * (t + 1) * (t + 1), (t - 1) * (t - 1) * (t - 1));
    let xi = x as int;
    let zi = z as int;
    let un = (u * n) as int;
    let wz = (w * z) as int;
    let aq = (a * q) as int;
    let vi = v as int;
    let xn = xi * (n as int);
    assert((xn * zi) * t <= (un * vi) * (t + 1) && (un * vi) * (t - 1) <= (xn * zi) * t)
        by (nonlinear_arith)
        requires
            xi * zi * 0x20_0000_0000_0000 <= num * 0x20_0000_0000_0001,
            num * 0x1f_ffff_ffff_ffff <= xi * zi * 0x20_0000_0000_0000,
            num == u * v,
            xn == xi * (n as int),
            un == u * n,
            vi == v,
            t == 0x20_0000_0000_0000,
            n >= 1,
    ;
    assert((un * vi) * t <= (wz * vi) * (t + 1) && (wz * vi) * (t - 1) <= (un * vi) * t)
        by (nonlinear_arith)
        requires
            un * t <= wz * (t + 1),
            wz * (t - 1) <= un * t,
            vi >= 0,
    ;
    assert((wz * vi) * t <= (wz * aq) * (t + 1) && (wz * aq) * (t - 1) <= (wz * vi) * t)
        by (nonlinear_arith)
        requires
            vi * t <= aq * (t + 1),
            aq * (t - 1) <= vi * t,
            wz >= 0,
    ;
    let (s0, s1, s2, s3) = (xn * zi, un * vi, wz * vi, wz * aq);
    lemma_three(s0, s1, s2, s3);
    assert(s3 == (ideal * q) * zi) by (nonlinear_arith)
        requires
            s3 == wz * aq,
            wz == w * z,
            aq == a * q,
            ideal == w * a,
            zi == z,
    ;
    let iq = ideal * (q as int);
    assert(xn * t3 <= iq * up && iq * down <= xn * t3) by (nonlinear_arith)
        requires
            (xn * zi) * t3 <= (iq * zi) * up,
            (iq * zi) * down <= (xn * zi) * t3,
            zi > 0,
    ;
    assert(xi * dn == xn * (p as int) && iq * (p as int) == ideal * zi) by (nonlinear_arith)
        requires
            dn == n * p,
            xn == xi * (n as int),
            iq == ideal * (q as int),
            zi == p * q,
    ;
    assert((xi * dn) * t3 <= (ideal * zi) * up && (ideal * zi) * down <= (xi * dn) * t3)
        by (nonlinear_arith)
        requires
            xn * t3 <= iq * up,
            iq * down <= xn * t3,
            xi * dn == xn * (p as int),
            iq * (p as int) == ideal * zi,
            p > 0,
    ;
    assert(zi * dn == dn * zi) by (nonlinear_arith);
    assert(dn * zi >= 0) by (nonlinear_arith)
        requires
            dn > 0,
            zi > 0,
    ;
    assert(x < z ==> xi * dn <= zi * dn) by (nonlinear_arith)
        requires
            xi == x,
            zi == z,
            dn > 0,
    ;
    assert(x >= z ==> xi * dn >= zi * dn) by (nonlinear_arith)
        requires
            xi == x,
            zi == z,
            dn > 0,
    ;
    assert(ideal < dn ==> ideal * zi <= dn * zi) by (nonlinear_arith)
        requires
            zi > 0,
    ;
    assert(ideal >= dn ==> ideal * zi >= dn * zi) by (nonlinear_arith)
        requires
            zi > 0,
    ;
    let (cd, mz) = (c * d, m * pow2(1074));
    let (xd, zd, iz) = (xi * dn, zi * dn, ideal * zi);
    assert(cd * t3 <= mz * up && mz * down <= cd * t3) by (nonlinear_arith)
        requires
            xd * t3 <= iz * up,
            iz * down <= xd * t3,
            cd == (if xd < zd {
                zd
            } else {
                xd
            }),
            mz == (if iz < zd {
                zd
            } else {
                iz
            }),
            zd >= 0,
            down <= t3 <= up,
            0 < down,
    ;
}

/// Three roundings after each other.
proof fn lemma_three(a: int, b: int, c: int, d: int)
    requires
        a * 0x20_0000_0000_0000 <= b * 0x20_0000_0000_0001,
        b * 0x1f_ffff_ffff_ffff <= a * 0x20_0000_0000_0000,
        b * 0x20_0000_0000_0000 <= c * 0x20_0000_0000_0001,
        c * 0x1f_ffff_ffff_ffff <= b * 0x20_0000_0000_0000,
        c * 0x20_0000_0000_0000 <= d * 0x20_0000_0000_0001,
        d * 0x1f_ffff_ffff_ffff <= c * 0x20_0000_0000_0000,
    ensures
        ({
            let t = 0x20_0000_0000_0000int;
            &&& a * (t * t * t) <= d * ((t + 1) * (t + 1) * (t + 1))
            &&& d * ((t - 1) * (t - 1) * (t - 1)) <= a * (t * t * t)
        }),
{
    let t = 0x20_0000_0000_0000int;
    assert(a * (t * t * t) <= d * ((t + 1) * (t + 1) * (t + 1)) && d * ((t - 1) * (t - 1) * (t - 1))
        <= a * (t * t * t)) by (nonlinear_arith)
        requires
            a * t <= b * (t + 1),
            b * (t - 1) <= a * t,
            b * t <= c * (t + 1),
            c * (t - 1) <= b * t,
            c * t <= d * (t + 1),
            d * (t - 1) <= c * t,
            t == 0x20_0000_0000_0000,
    ;
}

/// The number of rows, before it is held to at least one.
proof fn lemma_row_count(img_h: u32, cell: Double)
    requires
        img_h > 0,
        0 < cell.bits < float::double().inf(),
        pow2(1074) <= float::double().units(cell.bits as nat) <= 0x10_0000_0000_0000 * pow2(1200),
    ensures
        ({
            let c = float::double().units(cell.bits as nat);
            let rows = Double::from_u64(img_h as u64).over(cell).to_u32();
            let t = 0x20_0000_0000_0000int;
            &&& rows <= img_h
            &&& (rows * c) * t <= (img_h * pow2(1074)) * (t + 1)
            &&& (img_h * pow2(1074)) * (t - 1) < ((rows + 1) * c) * t
        }),
{
    let f = float::double();
    let z = pow2(1074);
    let t = 0x20_0000_0000_0000int;
    let c = f.units(cell.bits as nat);
    lemma_powers();
    geometry::lemma_small(img_h);
    reveal(Double::spec_over);
    reveal(Double::spec_to_u64);
    let hz = img_h as nat * z;
    let num = hz * z;
    let h: nat = 0x10_0000_0000_0000;
    lemma2_to64();
    lemma2_to64_rest();
    lemma_pow2_adds(1074, 1074);
    lemma_pow2_adds(948, 1200);
    lemma_pow2_pos(1200);
    ratio::lemma_pow2_mono(128, 948);
    lemma_pow2_adds(64, 64);
    assert(h * c <= num) by (nonlinear_arith)
        requires
            c <= h * pow2(1200),
            num == (img_h as nat * z) * z,
            z * z == pow2(948) * pow2(1200),
            pow2(948) >= 0x1_0000_0000_0000_0000 * 0x1_0000_0000_0000_0000,
            pow2(1200) > 0,
            img_h >= 1,
            h == 0x10_0000_0000_0000,
    ;
    assert(num <= c * (h * z)) by (nonlinear_arith)
        requires
            num == (img_h as nat * z) * z,
            c >= z,
            img_h <= 0xffff_ffff,
            h == 0x10_0000_0000_0000,
            z > 0,
    ;
    lemma_rounded(num, c, 1074);
    let code = f.round(num, c);
    let u = f.units(code);
    // No more rows than pixels.
    assert(num * 1 <= hz * c) by (nonlinear_arith)
        requires
            num == hz * z,
            z <= c,
    ;
    order::lemma_round_mono(f, num, c, hz, 1);
    order::lemma_round_representable(f, img_h as nat, 1074);
    order::lemma_units_mono(f, code, f.round(hz, 1));
    lemma_div_is_ordered(u as int, hz as int, z as int);
    assert(z * img_h as nat == hz) by (nonlinear_arith)
        requires
            hz == img_h as nat * z,
    ;
    lemma_div_multiples_vanish(img_h as int, z as int);
    let rows = u / z;
    assert(Double::from_u64(img_h as u64).over(cell).to_u32() == rows);
    lemma_fundamental_div_mod(u as int, z as int);
    assert((rows * c) * t <= hz * (t + 1) && hz * (t - 1) < ((rows + 1) * c) * t) by (nonlinear_arith)
        requires
            u * c * t <= num * (t + 1),
            num * (t - 1) <= u * c * t,
            num == hz * z,
            u == z * rows + u % z,
            0 <= u % z < z,
            c > 0,
            z > 0,
            t == 0x20_0000_0000_0000,
    ;
}

/// Where cell `at` along a side starts.
proof fn lemma_start(cell: Double, at: u32)
    requires
        0 < cell.bits < float::double().inf(),
        pow2(1074) <= float::double().units(cell.bits as nat) <= 0x10_0000_0000_0000 * pow2(1200),
    ensures
        ({
            let z = pow2(1074);
            let c = float::double().units(cell.bits as nat);
            let s = geometry::spec_start(cell, at);
            let t = 0x20_0000_0000_0000int;
            &&& (s * z) * t <= (at * c) * (t + 1)
            &&& s == u32::MAX || (at * c) * (t - 1) < ((s + 1) * z) * t
            &&& at == 0 ==> s == 0
        }),
{
    let f = float::double();
    let z = pow2(1074);
    let t = 0x20_0000_0000_0000int;
    let c = f.units(cell.bits as nat);
    let num = at as nat * c;
    let h: nat = 0x10_0000_0000_0000;
    lemma_powers();
    if at == 0 {
        tiling::lemma_first(cell);
        assert(0 * c == 0 && 0 * z == 0);
    } else {
        tiling::lemma_start_value(cell, at);
        lemma2_to64();
        lemma_pow2_adds(32, 1200);
        let big = pow2(1232);
        assert(h * 1 <= num && num <= 1 * (h * big)) by (nonlinear_arith)
            requires
                num == at as nat * c,
                1 <= at <= 0xffff_ffff,
                z <= c <= h * pow2(1200),
                big == 0x1_0000_0000 * pow2(1200),
                z >= 0x20_0000_0000_0000,
                h == 0x10_0000_0000_0000,
        ;
        lemma_rounded(num, 1, 1232);
        let u = f.units(f.round(num, 1));
        assert(u * 1 == u);
        reveal(Double::spec_to_u64);
        let n = u / z;
        lemma_fundamental_div_mod(u as int, z as int);
        let s = geometry::spec_start(cell, at);
        assert(s <= n);
        assert(s < u32::MAX ==> s == n);
        assert((s * z) * t <= num * (t + 1)) by (nonlinear_arith)
            requires
                u * t <= num * (t + 1),
                u == z * n + u % z,
                u % z >= 0,
                s <= n,
                z > 0,
                t > 0,
        ;
        if s < u32::MAX {
            assert(num * (t - 1) < ((s + 1) * z) * t) by (nonlinear_arith)
                requires
                    num * (t - 1) <= u * t,
                    u == z * n + u % z,
                    u % z < z,
                    s == n,
                    z > 0,
                    t > 0,
            ;
        }
    }
}

/// What holds up to a few roundings holds up to one part in 2^50.
proof fn lemma_fine(x: int, y: int, p: int, q: int)
    requires
        y >= 0,
        p > 0,
        q * (fine() - 1) <= p * fine(),
    ensures
        x * p <= y * q ==> x * (fine() - 1) <= y * fine(),
        x * p < y * q ==> x * (fine() - 1) < y * fine(),
{
    let e = fine();
    if x * p <= y * q {
        assert(x * (e - 1) <= y * e) by (nonlinear_arith)
            requires
                x * p <= y * q,
                q * (e - 1) <= p * e,
                y >= 0,
                p > 0,
                e == 0x4_0000_0000_0000,
        ;
    }
    if x * p < y * q {
        assert(x * (e - 1) < y * e) by (nonlinear_arith)
            requires
                x * p < y * q,
                q * (e - 1) <= p * e,
                y >= 0,
                p > 0,
                e == 0x4_0000_0000_0000,
        ;
    }
}

/// Four roundings up, and four down, are less than one part in 2^50.
proof fn lemma_four()
    ensures
        ({
            let t = 0x20_0000_0000_0000int;
            &&& ((t + 1) * (t + 1) * (t + 1) * (t + 1)) * (fine() - 1) <= (t * t * t * t) * fine()
            &&& (t * t * t * (t + 1)) * (fine() - 1) <= ((t - 1) * (t - 1) * (t - 1) * t) * fine()
            &&& ((t + 1) * (t + 1) * (t + 1) * t) * (fine() - 1) <= (t * t * t * (t - 1)) * fine()
            &&& (t * t * t * t) * (fine() - 1) <= ((t - 1) * (t - 1) * (t - 1) * (t - 1)) * fine()
        }),
{
    let t = 0x20_0000_0000_0000int;
    let e = fine();
    assert(((t + 1) * (t + 1) * (t + 1) * (t + 1)) * (e - 1) <= (t * t * t * t) * e && (t * t * t * (t
        + 1)) * (e - 1) <= ((t - 1) * (t - 1) * (t - 1) * t) * e && ((t + 1) * (t + 1) * (t + 1)
        * t) * (e - 1) <= (t * t * t * (t - 1)) * e && (t * t * t * t) * (e - 1) <= ((t - 1) * (t
        - 1) * (t - 1) * (t - 1)) * e) by (nonlinear_arith)
        requires
            t == 0x20_0000_0000_0000,
            e == 0x4_0000_0000_0000,
    ;
}

/// A usable aspect is a positive number.
proof fn lemma_usable(aspect: Single)
    requires
        !engine::bad_aspect(aspect),
    ensures
        0 < aspect.bits < float::single().inf(),
{
    reveal(Single::spec_is_finite);
    reveal(Single::spec_is_nan);
    reveal(Single::spec_less);
}

/// The grid fills the image: it has as many columns as were asked for, at least one and at
/// most one per pixel, which leave out at most one pixel on the right; and as many rows
/// as fit into the image, at least one, so that what is left out below the last row is
/// less than one more row (and two pixels, since rows start and end on whole pixels).
pub proof fn law_rows_fill_the_image(img_w: u32, img_h: u32, width: u32, aspect: Single)
    requires
        img_w > 0,
        img_h > 0,
        !engine::bad_aspect(aspect),
    ensures
        ({
            let g = Geometry::of(img_w, img_h, width, aspect);
            let (m, d) = cell_height(img_w, g.cols, aspect);
            let e = fine();
            &&& g.cols == if width == 0 {
                1
            } else if width < img_w {
                width
            } else {
                img_w
            }
            &&& g.rows >= 1
            &&& g.rows >= 2 ==> (g.rows * m) * (e - 1) <= (img_h * d) * e
            &&& (img_h * d) * (e - 1) < ((g.rows + 1) * m) * e
            &&& ((img_h - g.span((g.rows - 1) as u32, 0).y1 - 2) * d) * (e - 1) < m * e
            &&& img_w - 1 <= g.span(0, (g.cols - 1) as u32).x1 <= img_w
        }),
{
    let f = float::double();
    let g = Geometry::of(img_w, img_h, width, aspect);
    let (m, d) = cell_height(img_w, g.cols, aspect);
    let (e, t) = (fine(), 0x20_0000_0000_0000int);
    let z = pow2(1074) as int;
    let (rows, hh) = (g.rows as int, img_h as int);
    lemma_usable(aspect);
    lemma_powers();
    lemma_four();
    geometry::lemma_fits(img_w, img_h, width, aspect);
    lemma_height(img_w, g.cols, aspect);
    lemma_row_count(img_h, g.cell_h);
    let c = f.units(g.cell_h.bits as nat) as int;
    let raw = Double::from_u64(img_h as u64).over(g.cell_h).to_u32() as int;
    let (t3, up, down) = (t * t * t, (t + 1) * (t + 1) * (t + 1), (t - 1) * (t - 1) * (t - 1));
    assert(raw <= rows && (rows >= 2 ==> raw == rows));
    // Not too many rows.
    let (rm, hd) = (raw * m, hh * d);
    assert(hd > 0) by (nonlinear_arith)
        requires
            hd == hh * d,
            hh > 0,
            d > 0,
    ;
    lemma_many(raw, c, m, d, hh, z, t, t3, down);
    lemma_fine(rm, hd, down * t, t3 * (t + 1));
    // Not too few rows.
    let rm1 = (rows + 1) * m;
    assert(((raw + 1) * c) * t <= ((rows + 1) * c) * t) by (nonlinear_arith)
        requires
            raw <= rows,
            c > 0,
            t > 0,
    ;
    assert(rm1 > 0) by (nonlinear_arith)
        requires
            rm1 == (rows + 1) * m,
            rows >= 1,
            m > 0,
    ;
    lemma_few(rows + 1, c, m, d, hh, z, t, t3, up);
    lemma_fine(hd, rm1, t3 * (t - 1), up * t);
    // What is left out below.
    let s = geometry::spec_start(g.cell_h, g.rows) as int;
    let y1 = g.span((g.rows - 1) as u32, 0).y1 as int;
    lemma_start(g.cell_h, g.rows);
    assert(y1 >= s || y1 >= hh);
    let left = hh - y1 - 2;
    if y1 < hh {
        assert(s < u32::MAX);
        assert(left * z < c) by {
            if raw == 0 {
                assert(rows == 1);
                assert(left * z < c) by (nonlinear_arith)
                    requires
                        (hh * z) * (t - 1) < c * t,
                        left <= hh - 2,
                        hh <= 0xffff_ffff,
                        t == 0x20_0000_0000_0000,
                        z > 0,
                        c > 0,
                ;
            } else {
                let rc = rows * c;
                assert(rc * t <= (hh * z) * (t + 1));
                assert((rows + 1) * c == rc + c) by (nonlinear_arith)
                    requires
                        rc == rows * c,
                ;
                assert(c <= rc) by (nonlinear_arith)
                    requires
                        rc == rows * c,
                        rows >= 1,
                        c > 0,
                ;
                let (hz, sz, lz) = (hh * z, s * z, left * z);
                assert((s + 1) * z == sz + z) by (nonlinear_arith)
                    requires
                        sz == s * z,
                ;
                assert(hz <= 0xffff_ffff * z) by (nonlinear_arith)
                    requires
                        hz == hh * z,
                        hh <= 0xffff_ffff,
                        z > 0,
                ;
                assert(lz <= hz - sz - 2 * z) by (nonlinear_arith)
                    requires
                        lz == left * z,
                        hz == hh * z,
                        sz == s * z,
                        left <= hh - s - 2,
                        z > 0,
                ;
                lemma_left(hz, sz, rc, c, z);
            }
        }
        assert((left * d) * t3 < m * up) by (nonlinear_arith)
            requires
                left * z < c,
                (c * d) * t3 <= (m * z) * up,
                d > 0,
                z > 0,
                t3 > 0,
        ;
        assert((left * d) * (t3 * t) < m * (up * t) && m * (up * t) <= m * (up * (t + 1)))
            by (nonlinear_arith)
            requires
                (left * d) * t3 < m * up,
                t > 0,
                up > 0,
                m > 0,
        ;
        lemma_fine(left * d, m, t3 * t, up * (t + 1));
    } else {
        assert((left * d) * (e - 1) < m * e) by (nonlinear_arith)
            requires
                left < 0,
                d > 0,
                m > 0,
                e == 0x4_0000_0000_0000,
        ;
    }
    // The last column.
    lemma_width(img_w, g.cols);
    ratio::lemma_pow2_mono(1074, 1200);
    let cw = f.units(g.cell_w.bits as nat) as int;
    let h = 0x10_0000_0000_0000int;
    assert(cw <= h * pow2(1200)) by (nonlinear_arith)
        requires
            cw <= 0x1_0000_0000 * z,
            z <= pow2(1200),
            h == 0x10_0000_0000_0000,
            z > 0,
    ;
    lemma_start(g.cell_w, g.cols);
    geometry::lemma_span(g, 0, (g.cols - 1) as u32);
    let sx = geometry::spec_start(g.cell_w, g.cols) as int;
    let (ww, nc) = (img_w as int, g.cols as int);
    if sx < ww - 1 {
        assert(false) by (nonlinear_arith)
            requires
                (ww * z) * (t - 1) <= cw * nc * t,
                (nc * cw) * (t - 1) < ((sx + 1) * z) * t,
                sx + 1 <= ww - 1,
                ww <= 0xffff_ffff,
                t == 0x20_0000_0000_0000,
                z > 0,
        ;
    }
}

/// Rows of rounded height are not too many for exact ones.
proof fn lemma_many(r: int, c: int, m: int, d: int, hh: int, z: int, t: int, t3: int, down: int)
    requires
        (r * c) * t <= (hh * z) * (t + 1),
        (m * z) * down <= (c * d) * t3,
        r >= 0,
        d > 0,
        z > 0,
        t > 0,
        t3 > 0,
    ensures
        (r * m) * (down * t) <= (hh * d) * (t3 * (t + 1)),
{
    let k = d * t3;
    assert(k > 0) by (nonlinear_arith)
        requires
            k == d * t3,
            d > 0,
            t3 > 0,
    ;
    let (a, b) = ((r * c) * t, (hh * z) * (t + 1));
    assert(a * k <= b * k) by (nonlinear_arith)
        requires
            a <= b,
            k > 0,
    ;
    let (x, y) = ((m * z) * down, (c * d) * t3);
    let rt = r * t;
    assert(rt >= 0) by (nonlinear_arith)
        requires
            rt == r * t,
            r >= 0,
            t > 0,
    ;
    assert(x * rt <= y * rt) by (nonlinear_arith)
        requires
            x <= y,
            rt >= 0,
    ;
    assert(y * rt == a * k) by (nonlinear_arith)
        requires
            y == (c * d) * t3,
            rt == r * t,
            a == (r * c) * t,
            k == d * t3,
    ;
    let (p, q) = ((r * m) * (down * t), (hh * d) * (t3 * (t + 1)));
    assert(x * rt == p * z) by (nonlinear_arith)
        requires
            x == (m * z) * down,
            rt == r * t,
            p == (r * m) * (down * t),
    ;
    assert(b * k == q * z) by (nonlinear_arith)
        requires
            b == (hh * z) * (t + 1),
            k == d * t3,
            q == (hh * d) * (t3 * (t + 1)),
    ;
    assert(p <= q) by (nonlinear_arith)
        requires
            p * z <= q * z,
            z > 0,
    ;
}

/// Rows of rounded height are not too few for exact ones.
proof fn lemma_few(r: int, c: int, m: int, d: int, hh: int, z: int, t: int, t3: int, up: int)
    requires
        (hh * z) * (t - 1) < (r * c) * t,
        (c * d) * t3 <= (m * z) * up,
        r > 0,
        d > 0,
        z > 0,
        t > 0,
        t3 > 0,
    ensures
        (hh * d) * (t3 * (t - 1)) < (r * m) * (up * t),
{
    let k = d * t3;
    assert(k > 0) by (nonlinear_arith)
        requires
            k == d * t3,
            d > 0,
            t3 > 0,
    ;
    let (a, b) = ((hh * z) * (t - 1), (r * c) * t);
    assert(a * k < b * k) by (nonlinear_arith)
        requires
            a < b,
            k > 0,
    ;
    let (x, y) = ((c * d) * t3, (m * z) * up);
    let rt = r * t;
    assert(rt >= 0) by (nonlinear_arith)
        requires
            rt == r * t,
            r > 0,
            t > 0,
    ;
    assert(x * rt <= y * rt) by (nonlinear_arith)
        requires
            x <= y,
            rt >= 0,
    ;
    assert(x * rt == b * k) by (nonlinear_arith)
        requires
            x == (c * d) * t3,
            rt == r * t,
            b == (r * c) * t,
            k == d * t3,
    ;
    let (p, q) = ((hh * d) * (t3 * (t - 1)), (r * m) * (up * t));
    assert(y * rt == q * z) by (nonlinear_arith)
        requires
            y == (m * z) * up,
            rt == r * t,
            q == (r * m) * (up * t),
    ;
    assert(a * k == p * z) by (nonlinear_arith)
        requires
            a == (hh * z) * (t - 1),
            k == d * t3,
            p == (hh * d) * (t3 * (t - 1)),
    ;
    assert(p < q) by (nonlinear_arith)
        requires
            p * z < q * z,
            z > 0,
    ;
}

/// What is left of a side after the last cell.
proof fn lemma_left(hz: int, sz: int, rc: int, c: int, z: int)
    requires
        0 < z,
        0 < c <= rc,
        hz <= 0xffff_ffff * z,
        rc * 0x20_0000_0000_0000 <= hz * 0x20_0000_0000_0001,
        hz * 0x1f_ffff_ffff_ffff < (rc + c) * 0x20_0000_0000_0000,
        rc * 0x1f_ffff_ffff_ffff < (sz + z) * 0x20_0000_0000_0000,
    ensures
        hz - sz - 2 * z < c,
{
}

/// Cells have even sizes: each starts at the pixel that holds its share of the side, for
/// columns their number of the width of the image, for rows the height of a cell.
pub proof fn law_cells_start_at_their_share(
    img_w: u32,
    img_h: u32,
    width: u32,
    aspect: Single,
    row: u32,
    col: u32,
)
    requires
        img_w > 0,
        img_h > 0,
        !engine::bad_aspect(aspect),
        row < Geometry::of(img_w, img_h, width, aspect).rows,
        col < Geometry::of(img_w, img_h, width, aspect).cols,
    ensures
        ({
            let g = Geometry::of(img_w, img_h, width, aspect);
            let span = g.span(row, col);
            let (m, d) = cell_height(img_w, g.cols, aspect);
            let e = fine();
            &&& (span.x0 * g.cols) * (e - 1) <= (col * img_w) * e
            &&& (col * img_w) * (e - 1) < ((span.x0 + 1) * g.cols) * e
            &&& (span.y0 * d) * (e - 1) <= (row * m) * e
            &&& (row * m) * (e - 1) < ((span.y0 + 1) * d) * e
        }),
{
    let f = float::double();
    let g = Geometry::of(img_w, img_h, width, aspect);
    let (m, d) = cell_height(img_w, g.cols, aspect);
    let t = 0x20_0000_0000_0000int;
    let z = pow2(1074) as int;
    lemma_usable(aspect);
    lemma_powers();
    lemma_four();
    geometry::lemma_fits(img_w, img_h, width, aspect);
    lemma_height(img_w, g.cols, aspect);
    lemma_width(img_w, g.cols);
    ratio::lemma_pow2_mono(1074, 1200);
    let cw = f.units(g.cell_w.bits as nat) as int;
    let h = 0x10_0000_0000_0000int;
    assert(cw <= h * pow2(1200)) by (nonlinear_arith)
        requires
            cw <= 0x1_0000_0000 * z,
            z <= pow2(1200),
            h == 0x10_0000_0000_0000,
            z > 0,
    ;
    lemma_start(g.cell_w, col);
    lemma_start(g.cell_h, row);
    assert(geometry::spec_start(g.cell_w, col) < img_w);
    assert(geometry::spec_start(g.cell_h, row) < img_h);
    let (x0, y0) = (g.span(row, col).x0 as int, g.span(row, col).y0 as int);
    let (t3, up, down) = (t * t * t, (t + 1) * (t + 1) * (t + 1), (t - 1) * (t - 1) * (t - 1));
    // The width of a cell has one rounding instead of three.
    let (n, w) = (g.cols as int, img_w as int);
    assert((cw * n) * t <= (w * z) * (t + 1) && (w * z) * (t - 1) <= (cw * n) * t);
    assert((cw * n) * t3 <= (w * z) * up && (w * z) * down <= (cw * n) * t3) by (nonlinear_arith)
        requires
            (cw * n) * t <= (w * z) * (t + 1),
            (w * z) * (t - 1) <= (cw * n) * t,
            t == 0x20_0000_0000_0000,
            t3 == t * t * t,
            up == (t + 1) * (t + 1) * (t + 1),
            down == (t - 1) * (t - 1) * (t - 1),
            w * z >= 0,
    ;
    lemma_share(x0, col as int, cw, w, n, z);
    lemma_share(y0, row as int, f.units(g.cell_h.bits as nat) as int, m, d, z);
}

/// Where a cell of rounded size starts, in exact numbers.
proof fn lemma_share(s: int, at: int, c: int, m: int, d: int, z: int)
    requires
        ({
            let t = 0x20_0000_0000_0000int;
            &&& (s * z) * t <= (at * c) * (t + 1)
            &&& (at * c) * (t - 1) < ((s + 1) * z) * t
            &&& (c * d) * (t * t * t) <= (m * z) * ((t + 1) * (t + 1) * (t + 1))
            &&& (m * z) * ((t - 1) * (t - 1) * (t - 1)) <= (c * d) * (t * t * t)
        }),
        s >= 0,
        at >= 0,
        c > 0,
        m > 0,
        d > 0,
        z > 0,
    ensures
        (s * d) * (fine() - 1) <= (at * m) * fine(),
        (at * m) * (fine() - 1) < ((s + 1) * d) * fine(),
{
    let t = 0x20_0000_0000_0000int;
    let (t3, up, down) = (t * t * t, (t + 1) * (t + 1) * (t + 1), (t - 1) * (t - 1) * (t - 1));
    lemma_four();
    let (sd, am, sd1) = (s * d, at * m, (s + 1) * d);
    assert(am >= 0 && sd1 >= 0) by (nonlinear_arith)
        requires
            am == at * m,
            sd1 == (s + 1) * d,
            at >= 0,
            m > 0,
            s >= 0,
            d > 0,
    ;
    // Up: s z d t^4 <= at c d (t + 1) t^3 <= at m z up (t + 1).
    let (acd, amz) = (at * (c * d), am * z);
    assert((sd * z) * t <= acd * (t + 1)) by (nonlinear_arith)
        requires
            (s * z) * t <= (at * c) * (t + 1),
            sd == s * d,
            acd == at * (c * d),
            d > 0,
    ;
    assert(acd * t3 <= amz * up && amz * down <= acd * t3) by (nonlinear_arith)
        requires
            (c * d) * t3 <= (m * z) * up,
            (m * z) * down <= (c * d) * t3,
            acd == at * (c * d),
            amz == am * z,
            am == at * m,
            at >= 0,
    ;
    assert(acd * (t - 1) < (sd1 * z) * t) by (nonlinear_arith)
        requires
            (at * c) * (t - 1) < ((s + 1) * z) * t,
            sd1 == (s + 1) * d,
            acd == at * (c * d),
            d > 0,
    ;
    let (sz, sz1) = (sd * z, sd1 * z);
    assert(sz * (t3 * t) <= amz * (up * (t + 1)) && amz * (down * (t - 1)) < sz1 * (t3 * t))
        by (nonlinear_arith)
        requires
            sz * t <= acd * (t + 1),
            acd * t3 <= amz * up,
            amz * down <= acd * t3,
            acd * (t - 1) < sz1 * t,
            t == 0x20_0000_0000_0000,
            t3 == t * t * t,
            up == (t + 1) * (t + 1) * (t + 1),
            down == (t - 1) * (t - 1) * (t - 1),
    ;
    assert(sd * (t3 * t) <= am * (up * (t + 1))) by (nonlinear_arith)
        requires
            (sd * z) * (t3 * t) <= (am * z) * (up * (t + 1)),
            z > 0,
    ;
    assert(am * (down * (t - 1)) < sd1 * (t3 * t)) by (nonlinear_arith)
        requires
            (am * z) * (down * (t - 1)) < (sd1 * z) * (t3 * t),
            z > 0,
    ;
    lemma_fine(sd, am, t3 * t, up * (t + 1));
    lemma_fine(am, sd1, down * (t - 1), t3 * t);
}

} // verus!
