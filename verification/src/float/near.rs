//! How far rounded numbers are from exact ones.

use crate::float;
use crate::float::order;
use crate::float::ratio;
use crate::float::ratio::Format;
use crate::float::{Double, Single};
use vstd::arithmetic::div_mod::*;
use vstd::arithmetic::power2::*;
use vstd::prelude::*;

verus! {

/// The number that a finite [`Double`] stands for, as a multiple of 2^-1074.
pub open spec fn double_value(v: Double) -> int {
    float::double().value(v.bits)
}

/// The number that a finite [`Single`] stands for, as a multiple of 2^-149.
pub open spec fn single_value(v: Single) -> int {
    float::single().value(v.bits as u64)
}

/// Whether an encoding is that of a finite number with a plus sign.
pub open spec fn positive(fmt: Format, bits: u64) -> bool {
    bits < fmt.inf()
}

/// What is not above a finite number rounds to a finite one.
pub proof fn lemma_finite(fmt: Format, num: nat, den: nat, k: nat)
    requires
        fmt.valid(),
        den > 0,
        num <= den * (fmt.hidden() * pow2(k)),
        (k + 1) * fmt.hidden() < fmt.inf(),
    ensures
        fmt.round(num, den) < fmt.inf(),
{
    let h = fmt.hidden();
    let code = ((k + 1) * h) as nat;
    assert(code >= h) by (nonlinear_arith)
        requires
            code == (k + 1) * h,
            k >= 0,
            h >= 0,
    ;
    lemma_fundamental_div_mod_converse(code as int, h as int, (k + 1) as int, 0);
    assert(fmt.mant(code) == h);
    assert(fmt.expo(code) == k);
    order::lemma_round_exact(fmt, code);
    assert(num * 1 <= (h * pow2(k)) * den) by (nonlinear_arith)
        requires
            num <= den * (h * pow2(k)),
    ;
    order::lemma_round_mono(fmt, num, den, h * pow2(k), 1);
}

/// A rounded magnitude is within half a unit of the last place of the exact one,
/// wherever that is not below the normal numbers.
pub proof fn lemma_near(fmt: Format, num: nat, den: nat)
    requires
        fmt.valid(),
        den > 0,
        fmt.round(num, den) < fmt.inf(),
        fmt.hidden() * den <= num,
    ensures
        fmt.units(fmt.round(num, den)) * den * (2 * fmt.hidden()) <= num * (2 * fmt.hidden() + 1),
        num * (2 * fmt.hidden() - 1) <= fmt.units(fmt.round(num, den)) * den * (2 * fmt.hidden()),
{
    order::lemma_round_over(fmt, num, den);
    let k = fmt.quantum(num, den);
    let z = pow2(k);
    let step = den * z;
    let h = fmt.hidden();
    let m = ratio::half_even(num, step);
    let u = fmt.units(fmt.round(num, den));
    lemma_pow2_pos(k);
    assert(step > 0) by (nonlinear_arith)
        requires
            step == den * z,
            den > 0,
            z > 0,
    ;
    order::lemma_round_units(fmt, num, den);
    order::lemma_quantum(fmt, num, den);
    order::lemma_half_even_near(num, step);
    lemma2_to64();
    assert(h * step <= num) by {
        if k == 0 {
            assert(step == den) by (nonlinear_arith)
                requires
                    step == den * z,
                    z == 1,
            ;
        }
    }
    assert(u * den == m * step) by (nonlinear_arith)
        requires
            u == m * z,
            step == den * z,
    ;
    assert(num * (2 * h - 1) <= u * den * (2 * h)) by (nonlinear_arith)
        requires
            u * den == m * step,
            2 * num <= 2 * step * m + step,
            h * step <= num,
    ;
}

/// A rounded magnitude below `2 * hidden * 2^most` units is within half of `2^most` units
/// of the exact one.
pub proof fn lemma_off(fmt: Format, num: nat, den: nat, most: nat)
    requires
        fmt.valid(),
        den > 0,
        fmt.round(num, den) < fmt.inf(),
        num < 2 * fmt.hidden() * (den * pow2(most)),
    ensures
        2 * (fmt.units(fmt.round(num, den)) * den) <= 2 * num + den * pow2(most),
        2 * num <= 2 * (fmt.units(fmt.round(num, den)) * den) + den * pow2(most),
{
    let k = fmt.quantum(num, den);
    let z = pow2(k);
    let step = den * z;
    let h = fmt.hidden();
    let m = ratio::half_even(num, step);
    let u = fmt.units(fmt.round(num, den));
    lemma_pow2_pos(k);
    assert(step > 0) by (nonlinear_arith)
        requires
            step == den * z,
            den > 0,
            z > 0,
    ;
    order::lemma_round_units(fmt, num, den);
    order::lemma_quantum(fmt, num, den);
    order::lemma_half_even_near(num, step);
    assert(k <= most) by {
        if k > most {
            ratio::lemma_pow2_mono(most + 1, k);
            lemma_pow2_unfold(most + 1);
            assert(h * step >= 2 * h * (den * pow2(most))) by (nonlinear_arith)
                requires
                    step == den * z,
                    z >= 2 * pow2(most),
                    den > 0,
                    h >= 0,
            ;
        }
    }
    ratio::lemma_pow2_mono(k, most);
    assert(step <= den * pow2(most)) by (nonlinear_arith)
        requires
            step == den * z,
            z <= pow2(most),
            den > 0,
    ;
    assert(u * den == m * step && 2 * step * m == 2 * (m * step)) by (nonlinear_arith)
        requires
            u == m * z,
            step == den * z,
    ;
}

/// Finite codes are ordered exactly as what they stand for.
pub proof fn lemma_codes(fmt: Format, a: nat, b: nat)
    requires
        fmt.valid(),
        a < fmt.inf(),
        b < fmt.inf(),
    ensures
        (a < b) == (fmt.units(a) < fmt.units(b)),
        (a == b) == (fmt.units(a) == fmt.units(b)),
{
    order::lemma_round_exact(fmt, a);
    order::lemma_round_exact(fmt, b);
    if a <= b {
        order::lemma_units_mono(fmt, a, b);
    }
    if b <= a {
        order::lemma_units_mono(fmt, b, a);
    }
}

/// Comparing is comparing what the encodings stand for.
pub proof fn lemma_less(a: Double, b: Double)
    requires
        positive(float::double(), a.bits),
        positive(float::double(), b.bits),
    ensures
        a.less(b) == (double_value(a) < double_value(b)),
{
    reveal(Double::spec_less);
    lemma_codes(float::double(), a.bits as nat, b.bits as nat);
}

/// Rounding a number that is large in units of a [`Single`].
pub proof fn lemma_rounded_single(num: nat, den: nat, k: nat)
    requires
        den > 0,
        0x80_0000 * den <= num <= den * (0x80_0000 * pow2(k)),
        k < 250,
    ensures
        ({
            let f = float::single();
            let u = f.units(f.round(num, den));
            &&& f.round(num, den) < f.inf()
            &&& u * den * 0x100_0000 <= num * 0x100_0001
            &&& num * 0xff_ffff <= u * den * 0x100_0000
        }),
{
    let f = float::single();
    assert((k + 1) * f.hidden() < f.inf()) by (nonlinear_arith)
        requires
            k < 250,
            f.hidden() == 0x80_0000,
            f.inf() == 0x7f80_0000,
    ;
    lemma_finite(f, num, den, k);
    lemma_near(f, num, den);
}

/// Rounding a number that is large in units of a [`Double`].
pub proof fn lemma_rounded_double(num: nat, den: nat, k: nat)
    requires
        den > 0,
        0x10_0000_0000_0000 * den <= num <= den * (0x10_0000_0000_0000 * pow2(k)),
        k < 2000,
    ensures
        ({
            let f = float::double();
            let u = f.units(f.round(num, den));
            &&& f.round(num, den) < f.inf()
            &&& u * den * 0x20_0000_0000_0000 <= num * 0x20_0000_0000_0001
            &&& num * 0x1f_ffff_ffff_ffff <= u * den * 0x20_0000_0000_0000
        }),
{
    let f = float::double();
    assert((k + 1) * f.hidden() < f.inf()) by (nonlinear_arith)
        requires
            k < 2000,
            f.hidden() == 0x10_0000_0000_0000,
            f.inf() == 0x7ff0_0000_0000_0000,
    ;
    lemma_finite(f, num, den, k);
    lemma_near(f, num, den);
}

} // verus!
