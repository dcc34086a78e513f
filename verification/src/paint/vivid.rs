//! How bright colors become, in exact numbers.

use crate::float;
use crate::float::near;
use crate::float::Single;
use crate::paint;
use crate::paint::brightness;
use crate::paint::exact;
use vstd::arithmetic::div_mod::*;
use vstd::arithmetic::power2::*;
use vstd::prelude::*;

verus! {

/// 255 over a byte, up to rounding.
proof fn lemma_ratio(m: u8) -> (v: int)
    requires
        m > 0,
    ensures
        ({
            let r = (Single { bits: paint::FULL }).over(Single::from_u64(m as u64));
            &&& v == near::single_value(r)
            &&& exact::finite(r)
            &&& 0 <= v <= 255 * exact::one() + pow2(132)
            &&& -(pow2(132) * m) <= v * m - 255 * exact::one() <= pow2(132) * m
        }),
{
    let f = float::single();
    let (z, p) = (exact::one() as int, pow2(132) as int);
    let k = m as int;
    exact::lemma_powers();
    exact::lemma_byte(m);
    brightness::lemma_known();
    lemma_pow2_pos(149);
    let r = (Single { bits: paint::FULL }).over(Single::from_u64(m as u64));
    let (num, den) = ((255 * z) * z, k * z);
    reveal(Single::spec_over);
    assert(den > 0 && f.units(f.mag(Single::from_u64(m as u64).bits as u64)) == den)
        by {
        assert(k * z > 0) by (nonlinear_arith)
            requires
                k > 0,
                z > 0,
        ;
    }
    let (h, a, b) = (f.hidden() as int, pow2(133) as int, pow2(134) as int);
    assert(num < 2 * h * (den * a) && num <= den * (h * b)) by (nonlinear_arith)
        requires
            num == (255 * z) * z,
            den == k * z,
            k >= 1,
            z > 0,
            h > 0,
            a > 0,
            b > 0,
            2 * h * (1 * a) == 256 * z,
            1 * (h * b) == 256 * z,
    ;
    near::lemma_finite(f, num as nat, den as nat, 134);
    near::lemma_off(f, num as nat, den as nat, 133);
    let v = near::single_value(r);
    assert(v == f.units(f.round(num as nat, den as nat)));
    assert(2 * (v * den) <= 2 * num + den * a && 2 * num <= 2 * (v * den) + den * a);
    assert(v * k - 255 * z <= p * k && 255 * z - v * k <= p * k) by (nonlinear_arith)
        requires
            2 * (v * den) <= 2 * num + den * a,
            2 * num <= 2 * (v * den) + den * a,
            num == (255 * z) * z,
            den == k * z,
            a == 2 * p,
            z > 0,
    ;
    assert(v <= 255 * z + p) by (nonlinear_arith)
        requires
            v * k - 255 * z <= p * k,
            k >= 1,
            z > 0,
            p > 0,
    ;
    v
}

/// The gain of a color, up to rounding.
proof fn lemma_gain(m: u8) -> (g: int)
    requires
        m > 0,
    ensures
        ({
            let r = paint::boost_gain(m);
            let e = (3 * m + 1785) * exact::one();
            &&& g == near::single_value(r)
            &&& exact::finite(r)
            &&& -(40 * (pow2(132) * m)) <= 10 * (g * m) - e <= 40 * (pow2(132) * m)
        }),
{
    let f = float::single();
    let (z, p) = (exact::one() as int, pow2(132) as int);
    let k = m as int;
    exact::lemma_powers();
    brightness::lemma_known();
    lemma_pow2_pos(149);
    let one = Single { bits: paint::ONE };
    let boost = Single { bits: paint::BOOST };
    assert(near::single_value(one) == z && exact::finite(one));
    let ratio = (Single { bits: paint::FULL }).over(Single::from_u64(m as u64));
    let v = lemma_ratio(m);
    let above = ratio.minus(one);
    exact::lemma_difference(ratio, one);
    let t = near::single_value(above);
    // The factor is 0.7 up to a part in 2^23.
    let b = near::single_value(boost);
    lemma2_to64();
    lemma_pow2_adds(24, 125);
    assert(f.mant(paint::BOOST as nat) == 0xb3_3333 && f.expo(paint::BOOST as nat) == 125);
    assert(exact::finite(boost));
    assert(b * 0x100_0000 == 0xb3_3333 * z) by (nonlinear_arith)
        requires
            b == 0xb3_3333 * pow2(125),
            z == 0x100_0000 * pow2(125),
    ;
    assert(v >= z - p) by (nonlinear_arith)
        requires
            255 * z - v * k <= p * k,
            1 <= k <= 255,
            z > 0,
            p > 0,
            v >= 0,
    ;
    let bt = b * t;
    assert(-256 * (z * z) < bt < 256 * (z * z)) by (nonlinear_arith)
        requires
            bt == b * t,
            b * 0x100_0000 == 0xb3_3333 * z,
            -2 * p <= t <= 255 * z,
            z == 0x2_0000 * p,
            p > 0,
    ;
    let share = boost.times(above);
    exact::lemma_product(boost, above);
    let s = near::single_value(share);
    assert(0x100_0000 * s - 0xb3_3333 * t <= 0x100_0000 * p && 0xb3_3333 * t - 0x100_0000 * s
        <= 0x100_0000 * p) by (nonlinear_arith)
        requires
            s * z - bt <= p * z,
            bt - s * z <= p * z,
            bt == b * t,
            b * 0x100_0000 == 0xb3_3333 * z,
            z > 0,
    ;
    exact::lemma_sum(one, share);
    let g = near::single_value(paint::boost_gain(m));
    // In parts of `m`.
    let (gk, tk, vk) = (g * k, t * k, v * k);
    let e = 10 * g - 10 * z - 7 * t;
    assert(-25 * p <= e <= 25 * p);
    assert(10 * gk - 10 * (z * k) - 7 * tk == e * k) by (nonlinear_arith)
        requires
            gk == g * k,
            tk == t * k,
            e == 10 * g - 10 * z - 7 * t,
    ;
    assert(-25 * (p * k) <= e * k <= 25 * (p * k)) by (nonlinear_arith)
        requires
            -25 * p <= e <= 25 * p,
            k > 0,
    ;
    assert(tk - (vk - z * k) <= p * k && (vk - z * k) - tk <= p * k) by (nonlinear_arith)
        requires
            tk == t * k,
            vk == v * k,
            t - (v - z) <= p,
            (v - z) - t <= p,
            k > 0,
    ;
    assert((3 * k + 1785) * z == 3 * (z * k) + 1785 * z) by (nonlinear_arith);
    g
}

/// A brightened channel is the channel times 0.3 + 0.7 * 255 / max, where max is the brightest
/// channel of the color, cut to a whole number, up to 1/64. So the brightest one moves 70% of
/// the way to 255, and the others keep their proportion to it.
pub proof fn law_brightening_moves_colors_up(color: [u8; 3], c: int, max: u8)
    requires
        0 <= c < 3,
        max > 0,
        color[0] <= max && color[1] <= max && color[2] <= max,
        color[0] == max || color[1] == max || color[2] == max,
    ensures
        ({
            let r = paint::spec_brighten(color)[c];
            let exact = color[c] * (3 * max + 1785);
            &&& 64 * (10 * (max * r) - exact) <= 10 * max
            &&& 64 * (exact - 10 * (max * (r + 1))) < 10 * max
        }),
{
    let f = float::single();
    let (z, p) = (exact::one() as int, pow2(132) as int);
    let (k, n) = (max as int, color[c] as int);
    assert(paint::brightest(color) == max);
    exact::lemma_powers();
    brightness::lemma_known();
    lemma_pow2_pos(149);
    exact::lemma_byte(color[c]);
    let gain = paint::boost_gain(max);
    let g = lemma_gain(max);
    let x = Single::from_u64(color[c] as u64);
    let (gk, ng) = (g * k, n * g);
    let e = n * (3 * k + 1785);
    let ngk = ng * k;
    assert(10 * ngk - e * z <= 40 * (p * k) * n && e * z - 10 * ngk <= 40 * (p * k) * n)
        by (nonlinear_arith)
        requires
            gk == g * k,
            ng == n * g,
            ngk == ng * k,
            e == n * (3 * k + 1785),
            n >= 0,
            10 * gk - (3 * k + 1785) * z <= 40 * (p * k),
            (3 * k + 1785) * z - 10 * gk <= 40 * (p * k),
    ;
    assert(40 * (p * k) * n <= 10200 * (p * k)) by (nonlinear_arith)
        requires
            0 <= n <= 255,
            p > 0,
            k > 0,
    ;
    assert(0 <= e <= 2550 * k) by (nonlinear_arith)
        requires
            e == n * (3 * k + 1785),
            0 <= n <= k <= 255,
    ;
    assert(0 <= e * z <= 2550 * (k * z)) by (nonlinear_arith)
        requires
            0 <= e <= 2550 * k,
            z > 0,
    ;
    let pk = p * k;
    assert(k * z == 0x2_0000 * pk && pk > 0) by (nonlinear_arith)
        requires
            z == 0x2_0000 * p,
            pk == p * k,
            p > 0,
            k > 0,
    ;
    assert(-z < ng < 256 * z) by (nonlinear_arith)
        requires
            ngk == ng * k,
            10 * ngk <= 2550 * (k * z) + 10200 * pk,
            -10200 * pk <= 10 * ngk,
            k * z == 0x2_0000 * pk,
            pk > 0,
            k > 0,
            z > 0,
    {
        assert(ng * k < 256 * z * k);
        assert(-(z * k) < ng * k);
    }
    let xg = (n * z) * g;
    assert(xg == ng * z && -256 * (z * z) < xg < 256 * (z * z)) by (nonlinear_arith)
        requires
            xg == (n * z) * g,
            ng == n * g,
            -z < ng < 256 * z,
            z > 0,
    ;
    let raw = x.times(gain);
    exact::lemma_product(x, gain);
    let v = near::single_value(raw);
    assert(v - ng <= p && ng - v <= p) by (nonlinear_arith)
        requires
            v * z - ng * z <= p * z,
            ng * z - v * z <= p * z,
            z > 0,
    ;
    let full = Single { bits: paint::FULL };
    paint::discs::lemma_less(full, raw);
    let held = raw.min(full);
    paint::discs::lemma_less(raw, full);
    let h = near::single_value(held);
    assert(h == if v > 255 * z {
        255 * z
    } else {
        v
    });
    let r = paint::boosted(color[c], gain) as int;
    lemma_trunc(held, r);
    if v > 255 * z {
        assert(r >= 255) by (nonlinear_arith)
            requires
                255 * z < (r + 1) * z,
                z > 0,
        ;
    }
    let (vk, rk) = (v * k, k * r);
    assert(10 * vk - e * z <= 10210 * pk && e * z - 10 * vk <= 10210 * pk) by (nonlinear_arith)
        requires
            vk == v * k,
            ngk == ng * k,
            v - ng <= p,
            ng - v <= p,
            pk == p * k,
            k > 0,
            10 * ngk - e * z <= 10200 * pk,
            e * z - 10 * ngk <= 10200 * pk,
    ;
    assert(v < 0 ==> vk < 0) by (nonlinear_arith)
        requires
            vk == v * k,
            k > 0,
    ;
    lemma_cancel(e, k, r, v, z, pk);
}

/// Cutting a number that is at most 255 to a byte.
proof fn lemma_trunc(v: Single, r: int)
    requires
        exact::finite(v),
        near::single_value(v) <= 255 * exact::one(),
        r == v.to_u8(),
    ensures
        0 <= r <= 255,
        near::single_value(v) < (r + 1) * exact::one(),
        near::single_value(v) >= 0 ==> r * exact::one() <= near::single_value(v),
        near::single_value(v) <= 0 ==> r == 0,
{
    let f = float::single();
    let z = exact::one() as int;
    lemma_pow2_pos(149);
    reveal(Single::spec_to_u64);
    let n = f.units(f.mag(v.bits as u64)) as int;
    lemma_fundamental_div_mod(n, z);
    let q = n / z;
    assert(0 <= q) by (nonlinear_arith)
        requires
            n == z * q + n % z,
            n % z < z,
            n >= 0,
            z > 0,
    ;
    assert(q * z == z * q && (q + 1) * z == z * q + z) by (nonlinear_arith);
    if !f.neg(v.bits as u64) {
        assert(q <= 255) by (nonlinear_arith)
            requires
                n == z * q + n % z,
                n % z >= 0,
                n <= 255 * z,
                z > 0,
        ;
        if n == 0 {
            assert(q == 0) by (nonlinear_arith)
                requires
                    0 == z * q + n % z,
                    n % z >= 0,
                    z > 0,
                    q >= 0,
            ;
        }
    } else {
        assert((r + 1) * z == z) by (nonlinear_arith)
            requires
                r == 0,
        ;
    }
}

/// Without the unit.
proof fn lemma_cancel(e: int, k: int, r: int, v: int, z: int, pk: int)
    requires
        0 < k,
        0 < z,
        0 < pk,
        0 <= e <= 2550 * k,
        0 <= r <= 255,
        k * z == 0x2_0000 * pk,
        10 * (v * k) - e * z <= 10210 * pk,
        e * z - 10 * (v * k) <= 10210 * pk,
        v >= 0 ==> r * z <= v,
        v < 0 ==> r == 0,
        r == 255 || v < (r + 1) * z,
    ensures
        64 * (10 * (k * r) - e) <= 10 * k,
        64 * (e - 10 * (k * (r + 1))) < 10 * k,
{
    let (kr, kz) = (k * r, k * z);
    assert(k * (r + 1) == kr + k) by (nonlinear_arith)
        requires
            kr == k * r,
    ;
    if v >= 0 {
        assert(kr * z <= v * k) by (nonlinear_arith)
            requires
                kr == k * r,
                r * z <= v,
                k > 0,
        ;
        let d = 64 * (10 * kr - e);
        assert(d * z <= 64 * 10210 * pk) by (nonlinear_arith)
            requires
                d == 64 * (10 * kr - e),
                kr * z <= v * k,
                10 * (v * k) - e * z <= 10210 * pk,
        ;
        assert(d <= 10 * k) by (nonlinear_arith)
            requires
                d * z <= 64 * 10210 * pk,
                k * z == 0x2_0000 * pk,
                pk > 0,
                z > 0,
        ;
    } else {
        assert(kr == 0) by (nonlinear_arith)
            requires
                kr == k * r,
                r == 0,
        ;
    }
    if r == 255 {
        assert(kr == 255 * k) by (nonlinear_arith)
            requires
                kr == k * r,
                r == 255,
        ;
    } else {
        assert(v * k < (kr + k) * z) by (nonlinear_arith)
            requires
                kr == k * r,
                v < (r + 1) * z,
                k > 0,
        ;
        let d = 64 * (e - 10 * (kr + k));
        assert(d * z < 64 * 10210 * pk) by (nonlinear_arith)
            requires
                d == 64 * (e - 10 * (kr + k)),
                v * k < (kr + k) * z,
                e * z - 10 * (v * k) <= 10210 * pk,
        ;
        assert(d < 10 * k) by (nonlinear_arith)
            requires
                d * z < 64 * 10210 * pk,
                k * z == 0x2_0000 * pk,
                pk > 0,
                z > 0,
        ;
    }
}

} // verus!
