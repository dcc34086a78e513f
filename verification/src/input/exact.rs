//! What decoding does, in exact numbers.

use crate::engine::geometry;
use crate::float;
use crate::float::code;
use crate::float::near;
use crate::float::ratio;
use crate::float::{Double, Single};
use crate::input;
use crate::input::InputError;
use crate::paint::exact;
use vstd::arithmetic::div_mod::*;
use vstd::arithmetic::power2::*;
use vstd::prelude::*;

verus! {

/// A frame is shown for the milliseconds that it declares, cut to a whole number but at least
/// one, and for 100 where it declares none.
pub proof fn law_frames_keep_their_delays(num: u32, den: u32)
    ensures
        num == 0 || den == 0 ==> input::settled_delay(num, den) == 100,
        num > 0 && den > 0 ==> {
            let d = input::settled_delay(num, den);
            &&& d >= 1
            &&& num >= den ==> d * den <= num < (d + 1) * den
            &&& num < den ==> d == 1
        },
{
    if num > 0 && den > 0 {
        lemma_fundamental_div_mod(num as int, den as int);
        let d = num as int / den as int;
        assert((d + 1) * den == den * d + den && d * den == den * d) by (nonlinear_arith);
        if num >= den {
            assert(d >= 1) by (nonlinear_arith)
                requires
                    num < (d + 1) * den,
                    num >= den,
                    den > 0,
            ;
        } else {
            assert(d < 1) by (nonlinear_arith)
                requires
                    d * den <= num,
                    num < den,
                    den > 0,
            ;
        }
    }
}

/// Powers of two that are used here.
proof fn lemma_powers()
    ensures
        pow2(1074) == 0x2000_0000_0000 * pow2(1029),
        pow2(1074) == 2 * pow2(1073),
        pow2(1029) > 0x1000_0000_0000_0000,
        0x10_0000_0000_0000 * pow2(1042) == 0x10_0000 * pow2(1074),
{
    lemma2_to64();
    lemma2_to64_rest();
    lemma_pow2_adds(45, 1029);
    lemma_pow2_adds(1, 1073);
    ratio::lemma_pow2_mono(61, 1029);
    lemma_pow2_adds(52, 1042);
    lemma_pow2_adds(20, 1074);
}

/// From the roundings to the byte.
proof fn lemma_straight(c: int, alpha: int, a: int, q: int, s: int, n: int, z: int)
    requires
        1 <= c <= 255,
        1 <= alpha <= 255,
        z > 0,
        a > 0,
        q >= 0,
        a * 255 * 0x20_0000_0000_0000 <= (alpha * z) * 0x20_0000_0000_0001,
        (alpha * z) * 0x1f_ffff_ffff_ffff <= a * 255 * 0x20_0000_0000_0000,
        q * a * 0x20_0000_0000_0000 <= ((c * z) * z) * 0x20_0000_0000_0001,
        ((c * z) * z) * 0x1f_ffff_ffff_ffff <= q * a * 0x20_0000_0000_0000,
        2 * s * 0x20_0000_0000_0000 <= (2 * q + z) * 0x20_0000_0000_0001,
        (2 * q + z) * 0x1f_ffff_ffff_ffff <= 2 * s * 0x20_0000_0000_0000,
        n * z <= s < (n + 1) * z,
    ensures
        (2 * (alpha * n)) * 0x4000_0000 <= (510 * c + alpha) * 0x4000_0000 + alpha,
        (510 * c + alpha) * 0x4000_0000 < (2 * (alpha * (n + 1))) * 0x4000_0000 + alpha,
{
    let (qa, cz) = (q * alpha, c * z);
    assert(qa * 0x1f_ffff_ffff_ffff <= 255 * cz * 0x20_0000_0000_0001) by (nonlinear_arith)
        requires
            qa == q * alpha,
            cz == c * z,
            (alpha * z) * 0x1f_ffff_ffff_ffff <= a * 255 * 0x20_0000_0000_0000,
            q * a * 0x20_0000_0000_0000 <= (cz * z) * 0x20_0000_0000_0001,
            q >= 0,
            z > 0,
    {
        assert(q * (alpha * z) * 0x1f_ffff_ffff_ffff <= q * (a * 255) * 0x20_0000_0000_0000);
        assert(qa * 0x1f_ffff_ffff_ffff * z <= 255 * cz * 0x20_0000_0000_0001 * z);
    }
    assert(255 * cz * 0x1f_ffff_ffff_ffff <= qa * 0x20_0000_0000_0001) by (nonlinear_arith)
        requires
            qa == q * alpha,
            cz == c * z,
            a * 255 * 0x20_0000_0000_0000 <= (alpha * z) * 0x20_0000_0000_0001,
            (cz * z) * 0x1f_ffff_ffff_ffff <= q * a * 0x20_0000_0000_0000,
            q >= 0,
            z > 0,
    {
        assert(q * (a * 255) * 0x20_0000_0000_0000 <= q * (alpha * z) * 0x20_0000_0000_0001);
        assert(255 * cz * 0x1f_ffff_ffff_ffff * z <= qa * 0x20_0000_0000_0001 * z);
    }
    let (sa, za) = (s * alpha, alpha * z);
    assert(2 * sa * 0x20_0000_0000_0000 <= (2 * qa + za) * 0x20_0000_0000_0001 && (2 * qa + za)
        * 0x1f_ffff_ffff_ffff <= 2 * sa * 0x20_0000_0000_0000) by (nonlinear_arith)
        requires
            sa == s * alpha,
            za == alpha * z,
            qa == q * alpha,
            alpha > 0,
            2 * s * 0x20_0000_0000_0000 <= (2 * q + z) * 0x20_0000_0000_0001,
            (2 * q + z) * 0x1f_ffff_ffff_ffff <= 2 * s * 0x20_0000_0000_0000,
    ;
    assert(0 < cz <= 255 * z && 0 < za && z <= za <= 255 * z) by (nonlinear_arith)
        requires
            cz == c * z,
            za == alpha * z,
            1 <= c <= 255,
            1 <= alpha <= 255,
            z > 0,
    ;
    let an = alpha * n;
    let e = 510 * c + alpha;
    assert(e * z == 510 * cz + za) by (nonlinear_arith)
        requires
            e == 510 * c + alpha,
            cz == c * z,
            za == alpha * z,
    ;
    assert(an * z <= sa && sa < (an + alpha) * z && alpha * (n + 1) == an + alpha)
        by (nonlinear_arith)
        requires
            an == alpha * n,
            sa == s * alpha,
            n * z <= s < (n + 1) * z,
            alpha > 0,
    ;
    let ez = 510 * cz + za;
    assert(2 * sa * 0x4000_0000 <= ez * 0x4000_0000 + z);
    assert(ez * 0x4000_0000 <= 2 * sa * 0x4000_0000 + z);
    assert((2 * an) * 0x4000_0000 <= e * 0x4000_0000 + 1) by (nonlinear_arith)
        requires
            an * z <= sa,
            2 * sa * 0x4000_0000 <= (e * z) * 0x4000_0000 + z,
            z > 0,
    {
        assert(((2 * an) * 0x4000_0000) * z <= (e * 0x4000_0000 + 1) * z);
    }
    assert(e * 0x4000_0000 < (2 * (an + alpha)) * 0x4000_0000 + 1) by (nonlinear_arith)
        requires
            sa < (an + alpha) * z,
            (e * z) * 0x4000_0000 <= 2 * sa * 0x4000_0000 + z,
            z > 0,
    {
        assert((e * 0x4000_0000) * z < ((2 * (an + alpha)) * 0x4000_0000 + 1) * z);
    }
}

/// Straight alpha undoes the multiplication by alpha: where a pixel is neither opaque nor
/// empty, a channel becomes 255 times itself by alpha, rounded to the nearest whole number,
/// up to 2^-31, and held to 255. Alpha, opaque pixels and channels of zero stay as they are.
pub proof fn law_straight_channels_are_divided_by_alpha(data: Seq<u8>, i: int)
    requires
        0 <= i < data.len(),
        data.len() % 4 == 0,
    ensures
        ({
            let r = input::straight_byte(data, i);
            let (c, alpha) = (data[i], data[i - i % 4 + 3]);
            &&& i % 4 == 3 || alpha == 255 || c == 0 ==> r == c
            &&& i % 4 < 3 && 0 < alpha < 255 && c > 0 ==> {
                &&& (2 * (alpha * r)) * 0x4000_0000 <= (510 * c + alpha) * 0x4000_0000 + alpha
                &&& r == 255 || (510 * c + alpha) * 0x4000_0000 < (2 * (alpha * (r + 1)))
                    * 0x4000_0000 + alpha
            }
        }),
{
    let f = float::double();
    let (c, alpha) = (data[i], data[i - i % 4 + 3]);
    let z = pow2(1074) as int;
    lemma_powers();
    if i % 4 < 3 && alpha < 255 {
        let full = Double { bits: input::FULL };
        let half = Double { bits: input::HALF };
        let a = Double::from_u64(alpha as u64).over(full);
        let q = Double::from_u64(c as u64).over(a);
        let s = q.plus(half);
        geometry::lemma_small(alpha as u32);
        geometry::lemma_small(c as u32);
        assert(f.mant(input::FULL as nat) == 0x1f_e000_0000_0000 && f.expo(input::FULL as nat)
            == 1029);
        assert(f.units(input::FULL as nat) == 255 * z) by (nonlinear_arith)
            requires
                f.units(input::FULL as nat) == 0x1f_e000_0000_0000 * pow2(1029),
                z == 0x2000_0000_0000 * pow2(1029),
        ;
        assert(f.mant(input::HALF as nat) == 0x10_0000_0000_0000 && f.expo(input::HALF as nat)
            == 1021);
        lemma2_to64();
        lemma2_to64_rest();
        lemma_pow2_adds(52, 1021);
        assert(2 * f.units(input::HALF as nat) == z);
        code::lemma_round_zero(f);
        reveal(Double::spec_over);
        reveal(Double::spec_plus);
        reveal(Double::spec_to_u64);
        assert(f.units(0) == 0) by {
            assert(0 * pow2(0) == 0);
        }
        let big = 0x10_0000_0000_0000 * pow2(1042);
        if alpha == 0 {
            ratio::lemma_round_scale(f, 0, 1, (255 * z) as nat);
            assert(1 * (255 * z) == 255 * z && 0 * (255 * z) == 0 && (0 * z) * z == 0)
                by (nonlinear_arith);
            assert(f.mag(a.bits) == 0);
            if c == 0 {
                assert(f.is_nan(q.bits));
                assert(f.is_nan(s.bits));
            }
        } else {
            let (num, den) = ((alpha * z) * z, 255 * z);
            assert(0x10_0000_0000_0000 * den <= num && num <= den * big) by (nonlinear_arith)
                requires
                    num == (alpha * z) * z,
                    den == 255 * z,
                    1 <= alpha <= 255,
                    z > 0x2000_0000_0000 * 0x1000_0000_0000_0000,
                    big == 0x10_0000 * z,
            ;
            near::lemma_rounded_double(num as nat, den as nat, 1042);
            let va = f.units(a.bits as nat) as int;
            assert(a.bits == f.round(num as nat, den as nat));
            assert(va * 255 * 0x20_0000_0000_0000 <= (alpha * z) * 0x20_0000_0000_0001 && (alpha
                * z) * 0x1f_ffff_ffff_ffff <= va * 255 * 0x20_0000_0000_0000) by (nonlinear_arith)
                requires
                    va * den * 0x20_0000_0000_0000 <= num * 0x20_0000_0000_0001,
                    num * 0x1f_ffff_ffff_ffff <= va * den * 0x20_0000_0000_0000,
                    num == (alpha * z) * z,
                    den == 255 * z,
                    z > 0,
            ;
            let az = alpha * z;
            assert(z <= az <= 255 * z) by (nonlinear_arith)
                requires
                    az == alpha * z,
                    1 <= alpha <= 255,
                    z > 0,
            ;
            assert(z <= 256 * va && va <= 2 * z);
            assert(f.mag(a.bits) > 0);
            let cn = (c * z) * z;
            if c == 0 {
                assert(cn == 0) by (nonlinear_arith)
                    requires
                        cn == (c * z) * z,
                        c == 0,
                ;
                ratio::lemma_round_scale(f, 0, 1, va as nat);
                assert(1 * va == va && 0 * va == 0);
                assert(q.bits == 0);
                float::order::lemma_round_exact(f, input::HALF as nat);
                assert(s.bits == input::HALF);
                let hu = f.units(input::HALF as nat) as int;
                lemma_fundamental_div_mod_converse(hu, z, 0, hu);
            } else {
                assert(0x10_0000_0000_0000 * va <= cn && cn <= va * big) by (nonlinear_arith)
                    requires
                        cn == (c * z) * z,
                        1 <= c <= 255,
                        z <= 256 * va,
                        va <= 2 * z,
                        z > 0x2000_0000_0000 * 0x1000_0000_0000_0000,
                        big == 0x10_0000 * z,
                ;
                near::lemma_rounded_double(cn as nat, va as nat, 1042);
                let vq = f.units(q.bits as nat) as int;
                assert(q.bits == f.round(cn as nat, va as nat));
                let sum = vq + f.units(input::HALF as nat);
                assert(vq <= 0x2_0000 * z) by (nonlinear_arith)
                    requires
                        vq * va * 0x20_0000_0000_0000 <= cn * 0x20_0000_0000_0001,
                        cn == (c * z) * z,
                        1 <= c <= 255,
                        z <= 256 * va,
                        va > 0,
                        z > 0,
                {
                    assert(vq * va <= 2 * cn);
                    assert(cn <= 255 * z * (256 * va));
                }
                assert(0x10_0000_0000_0000 * 1 <= sum && sum <= 1 * big);
                near::lemma_rounded_double(sum as nat, 1, 1042);
                let vs = f.units(s.bits as nat) as int;
                assert(s.bits == f.round(sum as nat, 1));
                assert(vs * 1 == vs);
                let n = vs / z;
                lemma_fundamental_div_mod(vs, z);
                assert((n + 1) * z == z * n + z && n * z == z * n) by (nonlinear_arith);
                lemma_straight(c as int, alpha as int, va, vq, vs, n, z);
                assert(0 <= n <= 0x4_0000) by (nonlinear_arith)
                    requires
                        n * z <= vs < (n + 1) * z,
                        0 <= vs <= 0x4_0000 * z,
                        z > 0,
                ;
                if n > 255 {
                    assert(alpha * n >= alpha * 255) by (nonlinear_arith)
                        requires
                            n > 255,
                            alpha > 0,
                    ;
                }
            }
        }
    }
}

/// From the roundings to the height.
proof fn lemma_height(w: int, vw: int, vh: int, s: int, p: int, n: int, z: int)
    requires
        w > 0,
        vw > 0,
        vh > 0,
        z > 0,
        s >= 0,
        p >= 0,
        s * vw * 0x100_0000 <= ((w * z) * z) * 0x100_0001,
        ((w * z) * z) * 0xff_ffff <= s * vw * 0x100_0000,
        p * z * 0x100_0000 <= (vh * s) * 0x100_0001,
        (vh * s) * 0xff_ffff <= p * z * 0x100_0000,
        2 * (n * z) <= 2 * p + z < 2 * ((n + 1) * z),
    ensures
        ((2 * n - 1) * vw) * 0x3f_ffff <= (2 * (vh * w)) * 0x40_0000,
        (2 * (vh * w)) * 0x3f_ffff < ((2 * n + 1) * vw) * 0x40_0000,
{
    let (x, y, e) = (p * vw, vh * (s * vw), vh * w);
    let ez = e * z;
    let sv = s * vw;
    let wz = (w * z) * z;
    assert((x * z) * 0x100_0000 <= y * 0x100_0001 && y * 0xff_ffff <= (x * z) * 0x100_0000)
        by (nonlinear_arith)
        requires
            x == p * vw,
            y == vh * (s * vw),
            vw > 0,
            p * z * 0x100_0000 <= (vh * s) * 0x100_0001,
            (vh * s) * 0xff_ffff <= p * z * 0x100_0000,
    {
        assert((p * z * 0x100_0000) * vw <= ((vh * s) * 0x100_0001) * vw);
        assert(((vh * s) * 0xff_ffff) * vw <= (p * z * 0x100_0000) * vw);
    }
    assert(y * 0x100_0000 <= (ez * z) * 0x100_0001 && (ez * z) * 0xff_ffff <= y * 0x100_0000)
        by (nonlinear_arith)
        requires
            y == vh * sv,
            ez == e * z,
            e == vh * w,
            wz == (w * z) * z,
            vh > 0,
            sv * 0x100_0000 <= wz * 0x100_0001,
            wz * 0xff_ffff <= sv * 0x100_0000,
    {
        assert(vh * (sv * 0x100_0000) <= vh * (wz * 0x100_0001));
        assert(vh * (wz * 0xff_ffff) <= vh * (sv * 0x100_0000));
        assert(ez * z == vh * wz);
    }
    let (xz, ezz) = (x * z, ez * z);
    assert(ezz >= 0) by (nonlinear_arith)
        requires
            ezz == ez * z,
            ez == e * z,
            e == vh * w,
            vh > 0,
            w > 0,
            z > 0,
    ;
    assert(xz * 0x3f_ffff <= ezz * 0x40_0000 && ezz * 0x3f_ffff <= xz * 0x40_0000);
    assert(x * 0x3f_ffff <= ez * 0x40_0000 && ez * 0x3f_ffff <= x * 0x40_0000) by (nonlinear_arith)
        requires
            xz == x * z,
            ezz == ez * z,
            z > 0,
            xz * 0x3f_ffff <= ezz * 0x40_0000,
            ezz * 0x3f_ffff <= xz * 0x40_0000,
    ;
    let (lo, hi) = ((2 * n - 1) * vw, (2 * n + 1) * vw);
    assert(lo * z <= 2 * x && 2 * x < hi * z) by (nonlinear_arith)
        requires
            lo == (2 * n - 1) * vw,
            hi == (2 * n + 1) * vw,
            x == p * vw,
            vw > 0,
            2 * (n * z) <= 2 * p + z,
            2 * p + z < 2 * ((n + 1) * z),
    {
        assert((2 * (n * z) - z) * vw <= (2 * p) * vw);
        assert((2 * p) * vw < (2 * ((n + 1) * z) - z) * vw);
    }
    assert(lo * 0x3f_ffff <= (2 * e) * 0x40_0000) by (nonlinear_arith)
        requires
            lo * z <= 2 * x,
            x * 0x3f_ffff <= ez * 0x40_0000,
            ez == e * z,
            z > 0,
    {
        assert((lo * 0x3f_ffff) * z <= ((2 * e) * 0x40_0000) * z);
    }
    assert((2 * e) * 0x3f_ffff < hi * 0x40_0000) by (nonlinear_arith)
        requires
            2 * x < hi * z,
            ez * 0x3f_ffff <= x * 0x40_0000,
            ez == e * z,
            z > 0,
    {
        assert(((2 * e) * 0x3f_ffff) * z < (hi * 0x40_0000) * z);
    }
}

/// Whether a size is a number between 2^-16 and 2^24.
pub open spec fn usual(size: Single) -> bool {
    &&& size.bits < float::single().inf()
    &&& pow2(133) <= near::single_value(size) <= pow2(173)
}

/// A document is drawn at the width that is asked for, held between 256 and 8192, and at the
/// height that keeps its proportions: the width times the height of the document, by its
/// width, rounded to the nearest whole number, up to a part in 2^22; but at least one. One
/// that would be more than 429496729 pixels high is refused.
pub proof fn law_documents_keep_their_proportions(size_w: Single, size_h: Single, target: u32)
    requires
        usual(size_w),
        usual(size_h),
    ensures
        ({
            let w = if target < 256 {
                256
            } else if target > 8192 {
                8192
            } else {
                target as int
            };
            let (vw, vh) = (near::single_value(size_w), near::single_value(size_h));
            let e = 0x40_0000int;
            match input::spec_svg_job(Some((size_w, size_h)), target) {
                Ok((width, height, _)) => {
                    &&& width == w
                    &&& 1 <= height <= 429_496_729
                    &&& height == 1 || ((2 * height - 1) * vw) * (e - 1) <= (2 * (vh * w)) * e
                    &&& (2 * (vh * w)) * (e - 1) < ((2 * height + 1) * vw) * e
                },
                Err(r) => r == InputError::TooLarge && ((2 * 429_496_730 - 1) * vw) * (e - 1) <= (2 * (vh * w)) * e,
            }
        }),
{
    let f = float::single();
    let z = exact::one() as int;
    let (vw, vh) = (near::single_value(size_w), near::single_value(size_h));
    let width = input::svg_width(target);
    let w = width as int;
    let from = Single::from_u64(width as u64);
    let scale = input::svg_scale(size_w, target);
    let prod = size_h.times(scale);
    lemma2_to64();
    lemma2_to64_rest();
    lemma_pow2_pos(133);
    lemma_pow2_adds(16, 133);
    lemma_pow2_adds(24, 149);
    lemma_pow2_adds(23, 170);
    lemma_pow2_adds(44, 149);
    lemma_pow2_adds(23, 180);
    lemma_pow2_adds(54, 149);
    ratio::lemma_pow2_mono(60, 133);
    let big = 0x80_0000 * pow2(170);
    let huge = 0x80_0000 * pow2(180);
    reveal(Single::spec_from_u64);
    float::order::lemma_round_representable(f, width as nat, 149);
    assert(f.units(0) == 0) by {
        assert(0 * pow2(0) == 0);
    }
    let zero = Single { bits: 0 };
    crate::paint::discs::lemma_less(zero, size_w);
    crate::paint::discs::lemma_less(zero, size_h);
    assert(near::single_value(zero) == 0);
    assert(input::has_size(size_w, size_h)) by {
        crate::paint::discs::lemma_less(size_w, zero);
        crate::paint::discs::lemma_less(size_h, zero);
    }
    let wz = (w * z) * z;
    assert(from.bits == f.round((w * z) as nat, 1) && f.units(from.bits as nat) == w * z);
    assert(0x80_0000 * vw <= wz && wz <= vw * big) by (nonlinear_arith)
        requires
            wz == (w * z) * z,
            256 <= w <= 8192,
            z == 0x1_0000 * pow2(133),
            pow2(133) <= vw <= 0x100_0000 * z,
            big == 0x1000_0000_0000 * z,
            pow2(133) >= 0x1000_0000_0000_0000,
    {
        assert(0x80_0000 * vw <= 0x80_0000 * (0x100_0000 * z));
        assert(z * z >= 0x1000_0000_0000_0000 * z);
        assert(wz <= 8192 * (z * z));
        assert(wz >= 256 * (z * z));
        assert(vw * big >= pow2(133) * (0x1000_0000_0000 * z));
    }
    reveal(Single::spec_over);
    near::lemma_rounded_single(wz as nat, vw as nat, 170);
    let s = near::single_value(scale);
    assert(scale.bits == f.round(wz as nat, vw as nat));
    let num = vh * s;
    // The scale lies between 2^-17 and 2^30.
    assert(pow2(133) <= 2 * s && s <= 0x4000_0000 * z) by (nonlinear_arith)
        requires
            s * vw * 0x100_0000 <= wz * 0x100_0001,
            wz * 0xff_ffff <= s * vw * 0x100_0000,
            wz == (w * z) * z,
            256 <= w <= 8192,
            z == 0x1_0000 * pow2(133),
            pow2(133) <= vw <= 0x100_0000 * z,
            pow2(133) > 0,
            s >= 0,
    {
        let p = pow2(133);
        assert(256 * (z * z) <= 2 * (s * vw));
        assert(s * vw <= s * (0x100_0000 * z));
        assert(256 * (z * z) <= 2 * (s * (0x100_0000 * z)));
        assert(256 * z <= 2 * (s * 0x100_0000));
        assert(s * vw <= 2 * (8192 * (z * z)));
        assert(s * p <= s * vw);
        assert(s * p <= 0x4000 * (z * z));
        assert(s * p <= (0x4000_0000 * z) * p);
    }
    assert(0x80_0000 * z <= num && num <= z * huge) by (nonlinear_arith)
        requires
            num == vh * s,
            pow2(133) <= vh <= 0x100_0000 * z,
            pow2(133) <= 2 * s,
            s <= 0x4000_0000 * z,
            z == 0x1_0000 * pow2(133),
            huge == 0x40_0000_0000_0000 * z,
            pow2(133) >= 0x1000_0000_0000_0000,
            s >= 0,
    {
        let p = pow2(133);
        assert(2 * num >= p * p);
        assert(p * p >= 0x1000_0000_0000_0000 * p);
        assert(num <= (0x100_0000 * z) * (0x4000_0000 * z));
    }
    reveal(Single::spec_times);
    near::lemma_rounded_single(num as nat, z as nat, 180);
    let p = near::single_value(prod);
    assert(prod.bits == f.round(num as nat, z as nat));
    reveal(Single::spec_nearest_u64);
    let n = (2 * p + z) / (2 * z);
    lemma_fundamental_div_mod(2 * p + z, 2 * z);
    assert((2 * z) * n == 2 * (n * z) && 2 * ((n + 1) * z) == 2 * (n * z) + 2 * z)
        by (nonlinear_arith);
    lemma_height(w, vw, vh, s, p, n, z);
    assert(n >= 0) by (nonlinear_arith)
        requires
            2 * p + z < 2 * ((n + 1) * z),
            p >= 0,
            z > 0,
    ;
    if n == 0 {
        assert((2 * n + 1) * vw <= (2 * 1 + 1) * vw) by (nonlinear_arith)
            requires
                n == 0,
                vw > 0,
        ;
    }
    if n > 429_496_730 {
        assert((2 * 429_496_730 - 1) * vw <= (2 * n - 1) * vw) by (nonlinear_arith)
            requires
                n > 429_496_730,
                vw > 0,
        ;
    }
}

} // verus!
