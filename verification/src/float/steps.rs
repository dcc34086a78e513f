//! What rounding to whole numbers and between formats does.

use crate::float;
use crate::float::near;
use crate::float::order;
use crate::float::ratio;
use crate::float::Single;
use vstd::arithmetic::div_mod::*;
use vstd::arithmetic::power2::*;
use vstd::prelude::*;

verus! {

/// Whether a number is finite and below 2^24 - 1, to both sides of zero.
pub open spec fn moderate(v: Single) -> bool {
    &&& float::single().mag(v.bits as u64) < float::single().inf()
    &&& -0xff_ffff * pow2(149) < near::single_value(v) < 0xff_ffff * pow2(149)
}

/// Whole numbers below 2^24 are held exactly.
proof fn lemma_held(n: nat, neg: bool)
    requires
        n < 0x100_0000,
    ensures
        ({
            let f = float::single();
            let v = Single { bits: f.join(neg, f.round(n * pow2(149), 1)) as u32 };
            near::single_value(v) == if neg {
                -(n * pow2(149))
            } else {
                (n * pow2(149)) as int
            }
        }),
{
    let f = float::single();
    order::lemma_round_representable(f, n, 149);
}

/// The largest whole number that is not above a number, the smallest that is not below, and
/// what is left without the fraction; in units of 2^-149.
pub proof fn law_whole_numbers_are_next(v: Single)
    requires
        moderate(v),
    ensures
        ({
            let (x, z) = (near::single_value(v), pow2(149));
            let (a, b, n) = (
                near::single_value(v.floor()),
                near::single_value(v.ceil()),
                v.to_i64(),
            );
            &&& a <= x < a + z
            &&& a % (z as int) == 0
            &&& b - z < x <= b
            &&& b % (z as int) == 0
            &&& x >= 0 ==> n * z == a
            &&& x <= 0 ==> n * z == b
        }),
{
    let f = float::single();
    let z = pow2(149) as int;
    let bits = v.bits as u64;
    lemma_pow2_pos(149);
    reveal(Single::spec_floor);
    reveal(Single::spec_ceil);
    reveal(Single::spec_to_i64);
    let u = f.units(f.mag(bits)) as int;
    let (low, high) = (u / z, (u + z - 1) / z);
    lemma_fundamental_div_mod(u, z);
    lemma_fundamental_div_mod(u + z - 1, z);
    let (p, q) = (u % z, (u + z - 1) % z);
    assert(0 <= low < 0x100_0000 && low * z <= u && u < low * z + z) by (nonlinear_arith)
        requires
            u == z * low + p,
            0 <= p < z,
            0 <= u < 0xff_ffff * z,
    ;
    assert(0 <= high < 0x100_0000 && u <= high * z && high * z < u + z) by (nonlinear_arith)
        requires
            u + z - 1 == z * high + q,
            0 <= q < z,
            0 <= u < 0xff_ffff * z,
    ;
    lemma_held(low as nat, false);
    lemma_held(low as nat, true);
    lemma_held(high as nat, false);
    lemma_held(high as nat, true);
    lemma_mod_multiples_basic(low, z);
    lemma_mod_multiples_basic(high, z);
    lemma_mod_multiples_basic(-low, z);
    lemma_mod_multiples_basic(-high, z);
    assert((-low) * z == -(low * z) && (-high) * z == -(high * z)) by (nonlinear_arith);
    if u == 0 {
        assert(low == 0 && high == 0) by (nonlinear_arith)
            requires
                low * z <= 0,
                0 <= low,
                high * z < z,
                0 <= high,
                z > 0,
        ;
        assert(0 * z == 0);
    }
}

/// The nearest whole number is within a half, and half-way it is the upper one.
pub proof fn law_nearest_numbers_are_within_a_half(v: Single)
    requires
        v.bits < float::single().inf(),
        near::single_value(v) < 0x1_0000_0000 * pow2(149),
    ensures
        ({
            let (x, z, n) = (near::single_value(v), pow2(149), v.nearest_u64());
            2 * (n * z) - z <= 2 * x < 2 * (n * z) + z
        }),
{
    let f = float::single();
    let z = pow2(149) as int;
    lemma_pow2_pos(149);
    reveal(Single::spec_nearest_u64);
    let u = f.units(v.bits as nat) as int;
    let n = (2 * u + z) / (2 * z);
    lemma_fundamental_div_mod(2 * u + z, 2 * z);
    assert((2 * z) * n == 2 * (n * z)) by (nonlinear_arith);
    assert(0 <= n < 0x2_0000_0000) by (nonlinear_arith)
        requires
            2 * u + z == 2 * (n * z) + (2 * u + z) % (2 * z),
            0 <= (2 * u + z) % (2 * z) < 2 * z,
            0 <= u < 0x1_0000_0000 * z,
            z > 0,
    ;
}

/// The wide format holds the numbers of the narrow one as they are.
pub proof fn law_wide_numbers_hold_narrow_ones(v: Single)
    requires
        moderate(v),
    ensures
        near::double_value(v.to_double()) == near::single_value(v) * pow2(925),
{
    let (f, d) = (float::single(), float::double());
    let m = f.mag(v.bits as u64);
    let u = f.units(m);
    reveal(Single::spec_to_double);
    order::lemma_code_parts(f, m);
    let (n, k) = (f.mant(m), f.expo(m));
    let (z, w) = (pow2(149), pow2(925));
    lemma_pow2_pos(149);
    lemma_pow2_adds(149, 925);
    lemma_pow2_adds(k, 925);
    assert(k <= 149) by {
        if k > 149 {
            lemma_pow2_unfold(150);
            ratio::lemma_pow2_mono(150, k);
            assert(u >= 0x100_0000 * z) by (nonlinear_arith)
                requires
                    u == n * pow2(k),
                    n >= 0x80_0000,
                    pow2(k) >= 2 * z,
            ;
        }
    }
    assert(u * pow2(1074) == (u * w) * z) by (nonlinear_arith)
        requires
            pow2(1074) == z * w,
    ;
    ratio::lemma_round_scale(d, u * w, 1, z);
    assert(1 * z == z);
    assert(u * w == n * pow2((k + 925) as nat)) by (nonlinear_arith)
        requires
            u == n * pow2(k),
            pow2((k + 925) as nat) == pow2(k) * w,
    ;
    order::lemma_round_representable(d, n, (k + 925) as nat);
    assert((-(u as int)) * w == -(u * w)) by (nonlinear_arith);
}

} // verus!
