//! What an overlay looks like, in exact numbers.

use crate::float;
use crate::float::near;
use crate::float::order;
use crate::float::ratio;
use crate::float::Single;
use crate::pixels::RgbaImage;
use crate::video;
use vstd::arithmetic::div_mod::*;
use vstd::arithmetic::power2::*;
use vstd::prelude::*;

verus! {

/// What the numbers of this module are exact up to: one part in 2^21.
pub open spec fn fine() -> int {
    0x20_0000
}

/// One, in units of 2^-149.
pub open spec fn one() -> nat {
    pow2(149)
}

/// Powers of two that are used here.
proof fn lemma_powers()
    ensures
        pow2(149) >= 0x1000_0000_0000_0000,
        pow2(190) == 0x200_0000_0000 * pow2(149),
{
    lemma2_to64();
    lemma2_to64_rest();
    ratio::lemma_pow2_mono(60, 149);
    lemma_pow2_adds(41, 149);
}

/// Whole numbers are held up to a rounding.
proof fn lemma_from(n: u32)
    requires
        n > 0,
    ensures
        ({
            let f = float::single();
            let bits = Single::from_u64(n as u64).bits;
            let u = f.units(bits as nat);
            &&& 0 < bits < f.inf()
            &&& u * 0x100_0000 <= (n * one()) * 0x100_0001
            &&& (n * one()) * 0xff_ffff <= u * 0x100_0000
        }),
{
    let f = float::single();
    let z = one();
    let num = n as nat * z;
    lemma_powers();
    assert(0x80_0000 * 1 <= num && num <= 1 * (0x80_0000 * pow2(190))) by (nonlinear_arith)
        requires
            num == n as nat * z,
            1 <= n <= 0xffff_ffff,
            z >= 0x1000_0000_0000_0000,
            pow2(190) == 0x200_0000_0000 * z,
    ;
    near::lemma_rounded_single(num, 1, 190);
    reveal(Single::spec_from_u64);
    let u = f.units(f.round(num, 1));
    assert(u * 1 == u);
    assert(Single::from_u64(n as u64).bits == f.round(num, 1));
    assert(Single::from_u64(n as u64).bits > 0) by {
        if f.round(num, 1) == 0 {
            assert(0 * pow2(0) == 0);
        }
    }
}

/// A rounded quotient of whole numbers, cut to a whole number.
proof fn lemma_ratio(
    a: int,
    b: int,
    c: int,
    fa: int,
    fb: int,
    fc: int,
    p: int,
    q: int,
    n: int,
    z: int,
)
    requires
        fa * 0x100_0000 <= (a * z) * 0x100_0001,
        (a * z) * 0xff_ffff <= fa * 0x100_0000,
        fb * 0x100_0000 <= (b * z) * 0x100_0001,
        (b * z) * 0xff_ffff <= fb * 0x100_0000,
        fc * 0x100_0000 <= (c * z) * 0x100_0001,
        (c * z) * 0xff_ffff <= fc * 0x100_0000,
        p * z * 0x100_0000 <= (fa * fb) * 0x100_0001,
        (fa * fb) * 0xff_ffff <= p * z * 0x100_0000,
        q * fc * 0x100_0000 <= (p * z) * 0x100_0001,
        (p * z) * 0xff_ffff <= q * fc * 0x100_0000,
        n * z <= q < (n + 1) * z,
        z > 0,
        a > 0,
        b > 0,
        c > 0,
        n >= 0,
        fa > 0,
        fb > 0,
        fc > 0,
        p >= 0,
    ensures
        (n * c) * (fine() - 1) <= (a * b) * fine(),
        (a * b) * (fine() - 1) < ((n + 1) * c) * fine(),
{
    let t = 0x100_0000int;
    let ab = a * b;
    assert(ab > 0) by (nonlinear_arith)
        requires
            ab == a * b,
            a > 0,
            b > 0,
    ;
    let z2 = z * z;
    let f2 = fa * fb;
    let az = a * z;
    let bz = b * z;
    assert(az > 0 && bz > 0) by (nonlinear_arith)
        requires
            az == a * z,
            bz == b * z,
            a > 0,
            b > 0,
            z > 0,
    ;
    // The product of the numbers.
    assert(f2 * t <= (az * fb) * (t + 1) && (az * fb) * (t - 1) <= f2 * t) by (nonlinear_arith)
        requires
            f2 == fa * fb,
            fa * t <= az * (t + 1),
            az * (t - 1) <= fa * t,
            fb > 0,
    ;
    assert((az * fb) * t <= (az * bz) * (t + 1) && (az * bz) * (t - 1) <= (az * fb) * t)
        by (nonlinear_arith)
        requires
            fb * t <= bz * (t + 1),
            bz * (t - 1) <= fb * t,
            az > 0,
    ;
    assert(az * bz == ab * z2) by (nonlinear_arith)
        requires
            az == a * z,
            bz == b * z,
            ab == a * b,
            z2 == z * z,
    ;
    let (s0, s1, s2, s3) = (p * z, f2, az * fb, ab * z2);
    // The quotient.
    let qc = q * (c * z);
    let cz = c * z;
    assert(q >= 0) by (nonlinear_arith)
        requires
            n * z <= q,
            n >= 0,
            z > 0,
    ;
    assert((q * fc) * t <= qc * (t + 1) && qc * (t - 1) <= (q * fc) * t) by (nonlinear_arith)
        requires
            fc * t <= cz * (t + 1),
            cz * (t - 1) <= fc * t,
            qc == q * cz,
            q >= 0,
    ;
    let s = q * fc;
    assert(s3 >= 0) by (nonlinear_arith)
        requires
            s3 == az * bz,
            az > 0,
            bz > 0,
    ;
    lemma_five(qc, s, s0, s1, s2, s3);
    // Cut to a whole number, without the unit.
    let (nc, nc1) = (n * c, (n + 1) * c);
    assert(nc * z2 <= qc && qc < nc1 * z2) by (nonlinear_arith)
        requires
            n * z <= q,
            q < (n + 1) * z,
            qc == q * (c * z),
            nc == n * c,
            nc1 == (n + 1) * c,
            z2 == z * z,
            c > 0,
            z > 0,
    ;
    assert(z2 > 0) by (nonlinear_arith)
        requires
            z2 == z * z,
            z > 0,
    ;
    let e = fine();
    let (nz, nz1) = (nc * z2, nc1 * z2);
    assert(nz * 0x1f_ffff <= qc * 0x1f_ffff);
    assert(nz * (e - 1) == nz * 0x1f_ffff);
    assert(nz * (e - 1) <= s3 * e);
    assert(s3 * (e - 1) < nz1 * e);
    assert(nc * (e - 1) <= ab * e) by (nonlinear_arith)
        requires
            (nc * z2) * (e - 1) <= (ab * z2) * e,
            z2 > 0,
    ;
    assert(ab * (e - 1) < nc1 * e) by (nonlinear_arith)
        requires
            (ab * z2) * (e - 1) < (nc1 * z2) * e,
            z2 > 0,
    ;
}

/// Five roundings after each other.
proof fn lemma_five(qc: int, s: int, s0: int, s1: int, s2: int, s3: int)
    requires
        s * 0x100_0000 <= qc * 0x100_0001,
        qc * 0xff_ffff <= s * 0x100_0000,
        s * 0x100_0000 <= s0 * 0x100_0001,
        s0 * 0xff_ffff <= s * 0x100_0000,
        s0 * 0x100_0000 <= s1 * 0x100_0001,
        s1 * 0xff_ffff <= s0 * 0x100_0000,
        s1 * 0x100_0000 <= s2 * 0x100_0001,
        s2 * 0xff_ffff <= s1 * 0x100_0000,
        s2 * 0x100_0000 <= s3 * 0x100_0001,
        s3 * 0xff_ffff <= s2 * 0x100_0000,
        s3 >= 0,
    ensures
        qc * 0x1f_ffff <= s3 * 0x20_0000,
        s3 * 0x1f_ffff <= qc * 0x20_0000,
{
}

/// An inset keeps the proportions of its source: its height is its width times the height of
/// the source, by the width of the source, cut to a whole number; but at least one.
pub proof fn law_insets_keep_their_proportions(w: u32, source_w: u32, source_h: u32)
    requires
        w > 0,
        source_w > 0,
        source_h > 0,
    ensures
        ({
            let h = video::inset_height(w, source_w, source_h);
            let e = fine();
            &&& h >= 1
            &&& h == 1 || (h * source_w) * (e - 1) <= (w * source_h) * e
            &&& h == u32::MAX || (w * source_h) * (e - 1) < ((h + 1) * source_w) * e
        }),
{
    let f = float::single();
    let z = one();
    lemma_powers();
    lemma_from(w);
    lemma_from(source_h);
    lemma_from(source_w);
    let (a, b, c) = (
        Single::from_u64(w as u64),
        Single::from_u64(source_h as u64),
        Single::from_u64(source_w as u64),
    );
    let (fa, fb, fc) = (f.units(a.bits as nat), f.units(b.bits as nat), f.units(c.bits as nat));
    lemma_bounds(w, fa);
    lemma_bounds(source_h, fb);
    lemma_bounds(source_w, fc);
    // The product.
    let num = fa * fb;
    lemma2_to64();
    lemma_pow2_adds(50, 149);
    lemma2_to64_rest();
    let k = pow2(199);
    assert(0x80_0000 * z <= num && num <= z * (0x80_0000 * k)) by (nonlinear_arith)
        requires
            num == fa * fb,
            z <= 2 * fa <= 0x4_0000_0000 * z,
            z <= 2 * fb <= 0x4_0000_0000 * z,
            k == 0x4_0000_0000_0000 * z,
            z >= 0x1000_0000_0000_0000,
    ;
    near::lemma_rounded_single(num, z, 199);
    reveal(Single::spec_times);
    let p = a.times(b);
    let up = f.units(p.bits as nat);
    assert(p.bits == f.round(num, z));
    // The quotient.
    let top = up * z;
    assert(num >= 0 && 4 * num >= z * z && num <= 0x1_0000_0000_0000_0000_0000 * (z * z))
        by (nonlinear_arith)
        requires
            num == fa * fb,
            z <= 2 * fa <= 0x4_0000_0000 * z,
            z <= 2 * fb <= 0x4_0000_0000 * z,
    ;
    assert(8 * up >= z && up <= 0x2_0000_0000_0000_0000_0000 * z) by (nonlinear_arith)
        requires
            up * z * 0x100_0000 <= num * 0x100_0001,
            num * 0xff_ffff <= up * z * 0x100_0000,
            4 * num >= z * z,
            num <= 0x1_0000_0000_0000_0000_0000 * (z * z),
            z > 0,
    ;
    lemma_pow2_adds(64, 149);
    let k = pow2(213);
    assert(0x80_0000 * fc <= top && top <= fc * (0x80_0000 * k)) by (nonlinear_arith)
        requires
            top == up * z,
            8 * up >= z,
            up <= 0x2_0000_0000_0000_0000_0000 * z,
            z <= 2 * fc <= 0x4_0000_0000 * z,
            k == 0x1_0000_0000_0000_0000 * z,
            z >= 0x1000_0000_0000_0000,
    ;
    near::lemma_rounded_single(top, fc, 213);
    reveal(Single::spec_over);
    let q = p.over(c);
    let uq = f.units(q.bits as nat);
    assert(q.bits == f.round(top, fc));
    reveal(Single::spec_to_u64);
    let n = uq / z;
    lemma_fundamental_div_mod(uq as int, z as int);
    assert(n * z == z * n && (n + 1) * z == z * n + z) by (nonlinear_arith);
    lemma_ratio(
        w as int,
        source_h as int,
        source_w as int,
        fa as int,
        fb as int,
        fc as int,
        up as int,
        uq as int,
        n as int,
        z as int,
    );
    let h = video::inset_height(w, source_w, source_h) as int;
    let e = fine();
    assert(h == 1 || h <= n);
    assert(h == u32::MAX || h >= n);
    let (sw, ab) = (source_w as int, w * source_h);
    if h != 1 {
        assert((h * sw) * (e - 1) <= (n * sw) * (e - 1)) by (nonlinear_arith)
            requires
                h <= n,
                sw > 0,
                e == 0x20_0000,
        ;
    }
    if h != u32::MAX {
        assert(((n + 1) * sw) * e <= ((h + 1) * sw) * e) by (nonlinear_arith)
            requires
                n <= h,
                sw > 0,
                e == 0x20_0000,
        ;
    }
}

/// Rounded whole numbers are between a half and 2^33.
proof fn lemma_bounds(n: u32, u: nat)
    requires
        n > 0,
        u * 0x100_0000 <= (n * one()) * 0x100_0001,
        (n * one()) * 0xff_ffff <= u * 0x100_0000,
    ensures
        one() <= 2 * u <= 0x4_0000_0000 * one(),
{
    let z = one();
    let nz = n * z;
    lemma_powers();
    assert(z <= nz <= 0xffff_ffff * z) by (nonlinear_arith)
        requires
            nz == n * z,
            1 <= n <= 0xffff_ffff,
            z > 0,
    ;
}

/// The inset stands in the bottom-right corner: where it fits, its last pixel is the last
/// pixel of the image and every pixel of it is in its place; everything to the left of it
/// and above it is left as it was, and so is everything where it does not fit.
pub proof fn law_insets_stand_in_the_corner(
    r: &RgbaImage,
    canvas: &RgbaImage,
    source: &RgbaImage,
    overlay: Single,
    i: int,
    j: int,
)
    requires
        video::is_overlaid(r, canvas, source, overlay),
        0 <= i < canvas.width(),
        0 <= j < canvas.height(),
    ensures
        ({
            let w = video::inset_width(canvas.width(), overlay);
            let h = video::inset_height(w, source.width(), source.height());
            let thumb = video::resized(source@, source.width(), source.height(), w, h);
            let (x, y) = (canvas.width() - 1 - i, canvas.height() - 1 - j);
            &&& r.width() == canvas.width() && r.height() == canvas.height()
            &&& w <= canvas.width() && h <= canvas.height() && i < w && j < h ==> {
                let at = 4 * ((h - 1 - j) * w + (w - 1 - i));
                &&& r.pixel(x, y)[0] == thumb[at]
                &&& r.pixel(x, y)[1] == thumb[at + 1]
                &&& r.pixel(x, y)[2] == thumb[at + 2]
                &&& r.pixel(x, y)[3] == thumb[at + 3]
            }
            &&& !(w <= canvas.width() && h <= canvas.height() && i < w && j < h) ==> r.pixel(x, y)
                == canvas.pixel(x, y)
        }),
{
    let (x, y) = (canvas.width() - 1 - i, canvas.height() - 1 - j);
    assert(0 <= x < r.width() && 0 <= y < r.height());
    let p = r.pixel(x, y);
}

/// An inset takes the given share of the width of its canvas, cut to a whole number, but at
/// least one pixel.
pub proof fn law_insets_take_their_share(canvas: u32, share: Single)
    requires
        canvas > 0,
        share.bits < float::single().inf(),
        near::single_value(share) <= 0x1_0000_0000 * one(),
    ensures
        ({
            let w = video::inset_width(canvas, share);
            let e = fine();
            &&& w >= 1
            &&& w == 1 || (w * one()) * (e - 1) <= (canvas * near::single_value(share)) * e
            &&& w == u32::MAX || (canvas * near::single_value(share)) * (e - 1) < ((w + 1) * one())
                * e
        }),
{
    let f = float::single();
    let z = one();
    let t = 0x100_0000int;
    let e = fine();
    let w = video::inset_width(canvas, share) as int;
    let r = f.units(share.bits as nat);
    lemma_powers();
    lemma_from(canvas);
    let a = Single::from_u64(canvas as u64);
    let fa = f.units(a.bits as nat);
    lemma_bounds(canvas, fa);
    let num = fa * r;
    let cr = canvas * r;
    assert(num * t <= (cr * z) * (t + 1) && (cr * z) * (t - 1) <= num * t) by (nonlinear_arith)
        requires
            num == fa * r,
            cr == canvas * r,
            fa * t <= (canvas * z) * (t + 1),
            (canvas * z) * (t - 1) <= fa * t,
            r >= 0,
    ;
    assert(num <= 0x2_0000_0000 * (0x1_0000_0000 * (z * z))) by (nonlinear_arith)
        requires
            num == fa * r,
            2 * fa <= 0x4_0000_0000 * z,
            r <= 0x1_0000_0000 * z,
            z > 0,
    ;
    reveal(Single::spec_times);
    reveal(Single::spec_to_u64);
    let code = f.round(num, z);
    if num < 0x80_0000 * z {
        let h: nat = 0x80_0000;
        lemma2_to64();
        assert(f.mant(h) == h && f.expo(h) == 0);
        assert(f.units(h) == h * 1);
        order::lemma_round_exact(f, h);
        order::lemma_round_mono(f, num, z, h, 1);
        order::lemma_units_mono(f, code, h);
        let n = f.units(code) / z;
        lemma_fundamental_div_mod_converse(f.units(code) as int, z as int, 0, f.units(code) as int);
        assert(w == 1);
        assert(cr * (e - 1) < (2 * z) * e) by (nonlinear_arith)
            requires
                (cr * z) * (t - 1) <= num * t,
                num < 0x80_0000 * z,
                z >= 0x1000_0000_0000_0000,
                t == 0x100_0000,
                e == 0x20_0000,
        ;
    } else {
        lemma2_to64();
        lemma_pow2_adds(64, 149);
        let k = pow2(213);
        assert(num <= z * (0x80_0000 * k)) by (nonlinear_arith)
            requires
                num <= 0x2_0000_0000 * (0x1_0000_0000 * (z * z)),
                k == 0x1_0000_0000_0000_0000 * z,
                z > 0,
        ;
        near::lemma_rounded_single(num, z, 213);
        let u = f.units(code);
        let n = u / z;
        lemma_fundamental_div_mod(u as int, z as int);
        assert((n * z) * t * t <= cr * (t + 1) * (t + 1) && cr * (t - 1) * (t - 1) < ((n + 1) * z)
            * t * t) by (nonlinear_arith)
            requires
                u * z * t <= num * (t + 1),
                num * (t - 1) <= u * z * t,
                num * t <= (cr * z) * (t + 1),
                (cr * z) * (t - 1) <= num * t,
                u == z * n + u % z,
                0 <= u % z < z,
                z > 0,
                t == 0x100_0000,
        ;
        let (nz, nz1) = ((n * z) as int, ((n + 1) * z) as int);
        assert(cr >= 0) by (nonlinear_arith)
            requires
                cr == canvas * r,
                r >= 0,
                canvas >= 0,
        ;
        lemma_two(nz, nz1, cr);
        assert(w == 1 || w <= n);
        assert(w == u32::MAX || w >= n);
        if w != 1 {
            assert((w * z) * (e - 1) <= nz * (e - 1)) by (nonlinear_arith)
                requires
                    w <= n,
                    nz == n * z,
                    z > 0,
                    e == 0x20_0000,
            ;
        }
        if w != u32::MAX {
            assert(nz1 * e <= ((w + 1) * z) * e) by (nonlinear_arith)
                requires
                    n <= w,
                    nz1 == (n + 1) * z,
                    z > 0,
                    e == 0x20_0000,
            ;
        }
    }
}

/// Two roundings after each other.
proof fn lemma_two(a: int, b: int, x: int)
    requires
        a * 0x100_0000 * 0x100_0000 <= x * 0x100_0001 * 0x100_0001,
        x * 0xff_ffff * 0xff_ffff < b * 0x100_0000 * 0x100_0000,
        x >= 0,
    ensures
        a * (fine() - 1) <= x * fine(),
        x * (fine() - 1) < b * fine(),
{
    assert(a * 0x1f_ffff <= x * 0x20_0000);
    assert(x * 0x1f_ffff < b * 0x20_0000);
}

} // verus!
