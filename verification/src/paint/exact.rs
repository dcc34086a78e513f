//! What painting does, in exact numbers.

use crate::float;
use crate::float::code;
use crate::float::near;
use crate::float::order;
use crate::float::ratio;
use crate::float::Single;
use crate::paint;
use crate::paint::brightness;
use vstd::arithmetic::div_mod::*;
use vstd::arithmetic::power2::*;
use vstd::prelude::*;

verus! {

/// One, in units of 2^-149.
pub open spec fn one() -> nat {
    pow2(149)
}

/// The size of a number without its sign.
pub open spec fn size(n: int) -> nat {
    if n < 0 {
        (-n) as nat
    } else {
        n as nat
    }
}

/// Whether a number is not infinite and not "not a number".
pub open spec fn finite(v: Single) -> bool {
    float::single().mag(v.bits as u64) < float::single().inf()
}

/// Powers of two that are used here.
pub proof fn lemma_powers()
    ensures
        pow2(132) > 0,
        pow2(133) == 2 * pow2(132),
        pow2(149) == 0x2_0000 * pow2(132),
        2 * float::single().hidden() * (1 * pow2(133)) == 256 * pow2(149),
        1 * (float::single().hidden() * pow2(134)) == 256 * pow2(149),
{
    lemma2_to64();
    lemma_pow2_pos(132);
    lemma_pow2_unfold(133);
    lemma_pow2_unfold(134);
    lemma_pow2_adds(17, 132);
    let (h, a, b, c) = (float::single().hidden(), pow2(133), pow2(134), pow2(132));
    assert(2 * h * (1 * a) == 256 * (0x2_0000 * c) && 1 * (h * b) == 256 * (0x2_0000 * c))
        by (nonlinear_arith)
        requires
            h == 0x80_0000,
            a == 2 * c,
            b == 4 * c,
    ;
}

/// A sum below 256 is within 2^-17 of the exact one.
pub proof fn lemma_sum(a: Single, b: Single)
    requires
        finite(a),
        finite(b),
        -256 * one() < near::single_value(a) + near::single_value(b) < 256 * one(),
    ensures
        finite(a.plus(b)),
        -pow2(132) <= near::single_value(a.plus(b)) - (near::single_value(a) + near::single_value(b))
            <= pow2(132),
{
    let f = float::single();
    let s = near::single_value(a) + near::single_value(b);
    lemma_powers();
    reveal(Single::spec_plus);
    code::lemma_round_zero(f);
    assert(f.units(0) == 0) by {
        assert(0 * pow2(0) == 0);
    }
    near::lemma_finite(f, size(s), 1, 134);
    near::lemma_off(f, size(s), 1, 133);
    let u = f.units(f.round(size(s), 1));
    assert(u * 1 == u);
    assert(1 * pow2(133) == pow2(133));
}

/// A difference is the sum with what is negated.
pub proof fn lemma_difference(a: Single, b: Single)
    requires
        finite(a),
        finite(b),
        -256 * one() < near::single_value(a) - near::single_value(b) < 256 * one(),
    ensures
        finite(a.minus(b)),
        -pow2(132) <= near::single_value(a.minus(b)) - (near::single_value(a) - near::single_value(
            b,
        )) <= pow2(132),
{
    let f = float::single();
    reveal(Single::spec_minus);
    reveal(Single::spec_plus);
    let n = Single { bits: f.spec_negated(b.bits as u64) as u32 };
    assert(f.mag(n.bits as u64) == f.mag(b.bits as u64));
    assert(near::single_value(n) == -near::single_value(b));
    lemma_sum(a, n);
}

/// A product below 256 is within 2^-17 of the exact one.
pub proof fn lemma_product(a: Single, b: Single)
    requires
        finite(a),
        finite(b),
        -256 * (one() * one()) < near::single_value(a) * near::single_value(b) < 256 * (one()
            * one()),
    ensures
        finite(a.times(b)),
        -(pow2(132) * one()) <= near::single_value(a.times(b)) * one() - near::single_value(a)
            * near::single_value(b) <= pow2(132) * one(),
{
    let f = float::single();
    let z = one();
    let (va, vb) = (near::single_value(a), near::single_value(b));
    let (ua, ub) = (f.units(f.mag(a.bits as u64)), f.units(f.mag(b.bits as u64)));
    let num = ua * ub;
    lemma_powers();
    lemma_pow2_pos(149);
    reveal(Single::spec_times);
    assert(va * vb == num || va * vb == -num) by (nonlinear_arith)
        requires
            num == ua * ub,
            va == ua || va == -ua,
            vb == ub || vb == -ub,
    ;
    assert((va == ua && vb == ub) || (va == -ua && vb == -ub) ==> va * vb == num)
        by (nonlinear_arith)
        requires
            num == ua * ub,
    ;
    assert((va == -ua && vb == ub) || (va == ua && vb == -ub) ==> va * vb == -num)
        by (nonlinear_arith)
        requires
            num == ua * ub,
    ;
    let (h, p3, p4) = (f.hidden(), pow2(133), pow2(134));
    assert(num < 2 * h * (z * p3) && num <= z * (h * p4)) by (nonlinear_arith)
        requires
            num < 256 * (z * z),
            2 * h * (1 * p3) == 256 * z,
            1 * (h * p4) == 256 * z,
            z > 0,
    ;
    near::lemma_finite(f, num, z, 134);
    near::lemma_off(f, num, z, 133);
    let u = f.units(f.round(num, z));
    let v = near::single_value(a.times(b));
    assert(z * p3 == 2 * (pow2(132) * z)) by (nonlinear_arith)
        requires
            p3 == 2 * pow2(132),
    ;
    let neg = f.neg(a.bits as u64) != f.neg(b.bits as u64);
    assert(v == if neg {
        -(u as int)
    } else {
        u as int
    });
    assert((-(u as int)) * z == -(u * z)) by (nonlinear_arith);
}

/// Bytes are exact.
pub proof fn lemma_byte(n: u8)
    ensures
        finite(Single::from_u64(n as u64)),
        near::single_value(Single::from_u64(n as u64)) == n * one(),
{
    brightness::lemma_byte(n);
}

/// A blended channel is the mean of canvas and ink in the proportion of the alpha, cut to a
/// whole number, up to 2^-15: all canvas at zero, all ink at one.
pub proof fn law_blending_mixes_in_proportion(bg: u8, fg: u8, alpha: Single)
    requires
        finite(alpha),
        0 <= near::single_value(alpha) <= one(),
    ensures
        ({
            let r = paint::blend_channel(bg, fg, alpha);
            let exact = bg * one() + (fg - bg) * near::single_value(alpha);
            &&& 0x8000 * (r * one() - exact) <= one()
            &&& 0x8000 * (exact - (r + 1) * one()) < one()
        }),
{
    let f = float::single();
    let z = one() as int;
    let p = pow2(132) as int;
    let a = near::single_value(alpha);
    let (b, g) = (bg as int, fg as int);
    let (x, y) = (Single::from_u64(bg as u64), Single::from_u64(fg as u64));
    lemma_powers();
    lemma_pow2_pos(149);
    lemma_byte(bg);
    lemma_byte(fg);
    lemma_byte_difference(fg, bg);
    let d = y.minus(x);
    assert(near::single_value(d) == (g - b) * z);
    let da = ((g - b) * z) * a;
    assert(-256 * (z * z) < da < 256 * (z * z)) by (nonlinear_arith)
        requires
            da == ((g - b) * z) * a,
            -255 <= g - b <= 255,
            0 <= a <= z,
            z > 0,
    ;
    lemma_product(d, alpha);
    let m = d.times(alpha);
    let vm = near::single_value(m);
    let ga = (g - b) * a;
    assert(da == ga * z) by (nonlinear_arith)
        requires
            da == ((g - b) * z) * a,
            ga == (g - b) * a,
    ;
    assert(-p <= vm - ga <= p) by (nonlinear_arith)
        requires
            -(p * z) <= vm * z - ga * z <= p * z,
            z > 0,
    ;
    let exact = b * z + ga;
    assert(0 <= exact <= 255 * z) by (nonlinear_arith)
        requires
            exact == b * z + ga,
            ga == (g - b) * a,
            0 <= a <= z,
            0 <= b <= 255,
            0 <= g <= 255,
    ;
    lemma_sum(x, m);
    let s = x.plus(m);
    let vs = near::single_value(s);
    assert(-2 * p <= vs - exact <= 2 * p);
    reveal(Single::spec_to_u64);
    let r = paint::blend_channel(bg, fg, alpha) as int;
    if vs < 0 {
        assert(s.to_u64() == 0);
        assert(r == 0);
        assert(r * z == 0 && (r + 1) * z == z) by (nonlinear_arith)
            requires
                r == 0,
        ;
    } else {
        let u = f.units(f.mag(s.bits as u64)) as int;
        let n = u / z;
        lemma_fundamental_div_mod(u, z);
        if f.neg(s.bits as u64) {
            assert(u == 0);
            lemma_fundamental_div_mod_converse(0, z, 0, 0);
        }
        assert(n * z <= u < (n + 1) * z && n >= 0) by (nonlinear_arith)
            requires
                u == z * n + u % z,
                0 <= u % z < z,
                u >= 0,
                z > 0,
                n == u / z,
        ;
        assert(n <= 255) by (nonlinear_arith)
            requires
                n * z <= u,
                u < 256 * z,
                z > 0,
        ;
        assert(r == n);
    }
}

/// Differences of bytes are exact.
pub proof fn lemma_byte_difference(a: u8, b: u8)
    ensures
        finite(Single::from_u64(a as u64).minus(Single::from_u64(b as u64))),
        near::single_value(Single::from_u64(a as u64).minus(Single::from_u64(b as u64))) == (a - b)
            * one(),
{
    let f = float::single();
    let z = one();
    lemma_byte(a);
    lemma_byte(b);
    lemma_pow2_pos(149);
    reveal(Single::spec_minus);
    let d = a - b;
    let n = f.spec_negated(Single::from_u64(b as u64).bits as u64);
    assert(f.mag(n) == f.mag(Single::from_u64(b as u64).bits as u64));
    assert(f.value(n) == -(b * z));
    assert(a * z - b * z == d * z) by (nonlinear_arith)
        requires
            d == a - b,
    ;
    assert((d < 0) == (d * z < 0) && (d == 0) == (d * z == 0)) by (nonlinear_arith)
        requires
            z > 0,
    ;
    order::lemma_round_representable(f, size(d), 149);
    assert(size(d) * z == size(d * z)) by (nonlinear_arith)
        requires
            size(d) == (if d < 0 {
                -d
            } else {
                d
            }),
            size(d * z) == (if d * z < 0 {
                -(d * z)
            } else {
                d * z
            }),
            z > 0,
    ;
    code::lemma_round_zero(f);
    assert(f.units(0) == 0) by {
        assert(0 * pow2(0) == 0);
    }
}

/// On a transparent canvas a pixel gets the color of the ink, and its coverage as alpha,
/// rounded to the nearest byte, up to 2^-16.
pub proof fn law_transparent_ink_carries_its_coverage(p: [u8; 4], ink: [u8; 3], alpha: Single)
    requires
        finite(alpha),
        0 <= near::single_value(alpha) <= one(),
    ensures
        ({
            let r = paint::spec_blend(p, ink, alpha, true);
            let exact = 255 * near::single_value(alpha);
            &&& r[0] == ink[0] && r[1] == ink[1] && r[2] == ink[2]
            &&& 0x1_0000 * (2 * (r[3] * one() - exact) - one()) <= one()
            &&& 0x1_0000 * (2 * (exact - r[3] * one()) - one()) <= one()
        }),
{
    let f = float::single();
    let z = one() as int;
    let p32 = pow2(132) as int;
    let a = near::single_value(alpha);
    let full = Single { bits: paint::FULL };
    lemma_powers();
    lemma_pow2_pos(149);
    brightness::lemma_known();
    let av = a * (255 * z);
    assert(-256 * (z * z) < av < 256 * (z * z)) by (nonlinear_arith)
        requires
            av == a * (255 * z),
            0 <= a <= z,
            z > 0,
    ;
    lemma_product(alpha, full);
    let m = alpha.times(full);
    let vm = near::single_value(m);
    assert(av == (255 * a) * z) by (nonlinear_arith)
        requires
            av == a * (255 * z),
    ;
    assert(-p32 <= vm - 255 * a <= p32) by (nonlinear_arith)
        requires
            -(p32 * z) <= vm * z - (255 * a) * z <= p32 * z,
            z > 0,
    ;
    reveal(Single::spec_nearest_u64);
    let r = paint::spec_blend(p, ink, alpha, true);
    let u = f.units(f.mag(m.bits as u64)) as int;
    if f.neg(m.bits as u64) {
        assert(r[3] == 0);
        assert(vm == -u);
    } else {
        let n = (2 * u + z) / (2 * z);
        lemma_fundamental_div_mod(2 * u + z, 2 * z);
        assert((2 * n) * z <= 2 * u + z && 2 * u + z < (2 * n) * z + 2 * z && n >= 0)
            by (nonlinear_arith)
            requires
                2 * u + z == (2 * z) * n + (2 * u + z) % (2 * z),
                0 <= (2 * u + z) % (2 * z) < 2 * z,
                n == (2 * u + z) / (2 * z),
                u >= 0,
                z > 0,
        ;
        assert(n <= 255) by (nonlinear_arith)
            requires
                (2 * n) * z <= 2 * u + z,
                u <= 255 * z + p32,
                2 * p32 < z,
                z > 0,
        ;
        assert(r[3] == n);
        assert((2 * n) * z == 2 * (n * z)) by (nonlinear_arith);
    }
}

/// Whether a channel is the mean of canvas and ink in the proportion `alpha`, cut to a whole
/// number, up to 2^-15.
pub open spec fn mixed(bg: u8, fg: u8, alpha: int, r: u8) -> bool {
    let exact = bg * one() + (fg - bg) * alpha;
    &&& 0x8000 * (r * one() - exact) <= one()
    &&& 0x8000 * (exact - (r + 1) * one()) < one()
}

/// Whether a pixel `r` is `p` with ink laid over it in the proportion `alpha`: mixed into an
/// opaque canvas, whose own alpha stays; on a transparent one, the color of the ink, with
/// `alpha` rounded to the nearest byte.
pub open spec fn inked(
    p: [u8; 4],
    ink: [u8; 3],
    alpha: int,
    transparent: bool,
    r: [u8; 4],
) -> bool {
    if transparent {
        &&& r[0] == ink[0] && r[1] == ink[1] && r[2] == ink[2]
        &&& 0x1_0000 * (2 * (r[3] * one() - 255 * alpha) - one()) <= one()
        &&& 0x1_0000 * (2 * (255 * alpha - r[3] * one()) - one()) <= one()
    } else {
        &&& mixed(p[0], ink[0], alpha, r[0])
        &&& mixed(p[1], ink[1], alpha, r[1])
        &&& mixed(p[2], ink[2], alpha, r[2])
        &&& r[3] == p[3]
    }
}

/// Blending lays ink over a pixel.
pub proof fn law_blending_lays_ink(p: [u8; 4], ink: [u8; 3], alpha: Single, transparent: bool)
    requires
        finite(alpha),
        0 <= near::single_value(alpha) <= one(),
    ensures
        inked(
            p,
            ink,
            near::single_value(alpha),
            transparent,
            paint::spec_blend(p, ink, alpha, transparent),
        ),
{
    if transparent {
        law_transparent_ink_carries_its_coverage(p, ink, alpha);
    } else {
        law_blending_mixes_in_proportion(p[0], ink[0], alpha);
        law_blending_mixes_in_proportion(p[1], ink[1], alpha);
        law_blending_mixes_in_proportion(p[2], ink[2], alpha);
    }
}

/// The product of two shares is a share, up to 2^-17; that with one is exact.
pub proof fn lemma_share(a: Single, b: Single)
    requires
        finite(a),
        finite(b),
        0 <= near::single_value(a) <= one(),
        0 <= near::single_value(b) <= one(),
    ensures
        ({
            let c = near::single_value(a.times(b));
            let exact = near::single_value(a) * near::single_value(b);
            &&& finite(a.times(b))
            &&& 0 <= c <= one()
            &&& 0x2_0000 * (c * one() - exact) <= one() * one()
            &&& 0x2_0000 * (exact - c * one()) <= one() * one()
            &&& b.bits == paint::ONE ==> c == near::single_value(a)
        }),
{
    let f = float::single();
    let z = one() as int;
    let (va, vb) = (near::single_value(a), near::single_value(b));
    let (ua, ub) = (f.units(f.mag(a.bits as u64)), f.units(f.mag(b.bits as u64)));
    let c = near::single_value(a.times(b));
    lemma_powers();
    lemma_pow2_pos(149);
    brightness::lemma_known();
    let exact = va * vb;
    assert(0 <= exact <= z * z && z * z > 0) by (nonlinear_arith)
        requires
            exact == va * vb,
            0 <= va <= z,
            0 <= vb <= z,
            z > 0,
    ;
    assert(exact < 256 * (z * z));
    lemma_product(a, b);
    let p = pow2(132) as int;
    assert(0x2_0000 * (p * z) == z * z) by (nonlinear_arith)
        requires
            z == 0x2_0000 * p,
    ;
    reveal(Single::spec_times);
    assert(ua == va || ua == 0);
    assert(ub == vb || ub == 0);
    let num = ua * ub;
    assert(num <= z * z && (ua == 0 || ub == 0 ==> num == 0)) by (nonlinear_arith)
        requires
            num == ua * ub,
            0 <= ua <= z,
            0 <= ub <= z,
    ;
    code::lemma_round_zero(f);
    assert(f.units(0) == 0) by {
        assert(0 * pow2(0) == 0);
    }
    let one_code = paint::ONE as nat;
    order::lemma_round_mono(f, num, z as nat, z as nat, 1);
    order::lemma_round_exact(f, one_code);
    order::lemma_units_mono(f, f.round(num, z as nat), one_code);
    ratio::lemma_round_scale(f, 0, 1, z as nat);
    assert(1 * z == z && 0 * z == 0);
    if b.bits == paint::ONE {
        ratio::lemma_round_scale(f, ua, 1, z as nat);
        order::lemma_round_exact(f, f.mag(a.bits as u64));
    }
}

} // verus!
