//! What brightening does to colors.

use crate::float;
use crate::float::code;
use crate::float::order;
use crate::float::ratio;
use crate::float::Single;
use crate::paint;
use vstd::arithmetic::div_mod::*;
use vstd::arithmetic::power2::*;
use vstd::prelude::*;

verus! {

/// Bytes are held exactly.
pub proof fn lemma_byte(n: u8)
    ensures
        ({
            let f = float::single();
            let bits = Single::from_u64(n as u64).bits;
            &&& bits < f.inf()
            &&& f.units(bits as nat) == n as nat * pow2(149)
            &&& (n > 0) == (bits > 0)
        }),
{
    let f = float::single();
    reveal(Single::spec_from_u64);
    order::lemma_round_representable(f, n as nat, 149);
    lemma_pow2_pos(149);
    let num = n as nat * pow2(149);
    if n > 0 {
        assert(num > 0) by (nonlinear_arith)
            requires
                num == n as nat * pow2(149),
                n > 0,
                pow2(149) > 0,
        ;
        float::code::lemma_round_positive(f, num);
    } else {
        assert(num == 0) by (nonlinear_arith)
            requires
                num == n as nat * pow2(149),
                n == 0,
        ;
        float::code::lemma_round_zero(f);
    }
}

/// Encodings of bytes are ordered as the bytes.
pub proof fn lemma_byte_mono(a: u8, b: u8)
    requires
        a <= b,
    ensures
        Single::from_u64(a as u64).bits <= Single::from_u64(b as u64).bits,
{
    let f = float::single();
    let one = pow2(149);
    reveal(Single::spec_from_u64);
    lemma_byte(a);
    lemma_byte(b);
    assert(a as nat * one * 1 <= b as nat * one * 1) by (nonlinear_arith)
        requires
            a <= b,
    ;
    order::lemma_round_mono(f, a as nat * one, 1, b as nat * one, 1);
}

/// The magnitudes of 1 and of 255.
pub proof fn lemma_known()
    ensures
        float::single().units(paint::ONE as nat) == pow2(149),
        float::single().units(paint::FULL as nat) == 255 * pow2(149),
        float::single().units(0) == 0,
        Single::from_u64(255).bits == paint::FULL,
{
    let f = float::single();
    let one = pow2(149);
    lemma2_to64();
    assert(f.mant(paint::ONE as nat) == 0x80_0000 && f.expo(paint::ONE as nat) == 126);
    lemma_pow2_adds(23, 126);
    assert(f.mant(paint::FULL as nat) == 0xff_0000 && f.expo(paint::FULL as nat) == 133);
    lemma_pow2_adds(16, 133);
    assert(f.units(paint::FULL as nat) == 255 * one) by (nonlinear_arith)
        requires
            f.units(paint::FULL as nat) == 0xff_0000 * pow2(133),
            one == 0x1_0000 * pow2(133),
    ;
    assert(0 * pow2(0) == 0);
    reveal(Single::spec_from_u64);
    lemma_byte(255);
    order::lemma_round_exact(f, paint::FULL as nat);
}

/// The product with one is the number itself.
pub proof fn lemma_times_one(bits: u64)
    requires
        bits < float::single().inf(),
    ensures
        float::single().spec_product(bits, paint::ONE as u64) == bits,
        float::single().spec_product(paint::ONE as u64, bits) == bits,
{
    let f = float::single();
    let one = pow2(149);
    let u = f.units(bits as nat);
    lemma_known();
    lemma_pow2_pos(149);
    assert(u * one == one * u) by (nonlinear_arith);
    assert(1 * one == one);
    ratio::lemma_round_scale(f, u, 1, one);
    order::lemma_round_exact(f, bits as nat);
}

/// The gain is a finite number that is not below one.
proof fn lemma_gain(max: u8)
    requires
        max > 0,
    ensures
        paint::ONE <= paint::boost_gain(max).bits < float::single().inf(),
{
    let f = float::single();
    let one = pow2(149);
    let (o, full, boost) = (paint::ONE as u64, paint::FULL as u64, paint::BOOST as u64);
    let m = Single::from_u64(max as u64).bits as u64;
    lemma_known();
    lemma_pow2_pos(149);
    lemma_byte(max);
    lemma_byte_mono(max, 255);
    reveal(Single::spec_over);
    reveal(Single::spec_minus);
    reveal(Single::spec_times);
    reveal(Single::spec_plus);

    // 255 by the channel is between 1 and 255.
    let q = f.spec_quotient(full, m);
    let u = f.units(m as nat);
    order::lemma_units_positive(f, m as nat);
    assert((one * 1) * u <= (255 * one) * one) by (nonlinear_arith)
        requires
            u == max as nat * one,
            max <= 255,
            one > 0,
    ;
    order::lemma_round_mono(f, one, 1, (255 * one) * one, u);
    order::lemma_round_exact(f, paint::ONE as nat);
    assert(((255 * one) * one) * 1 <= (255 * one) * u) by (nonlinear_arith)
        requires
            u == max as nat * one,
            max >= 1,
            one > 0,
    ;
    order::lemma_round_mono(f, (255 * one) * one, u, 255 * one, 1);
    order::lemma_round_exact(f, paint::FULL as nat);
    assert(o <= q <= full);

    // Less one, it is between 0 and 255.
    let d = f.spec_sum(q, f.spec_negated(o));
    order::lemma_units_mono(f, o as nat, q as nat);
    order::lemma_units_mono(f, q as nat, full as nat);
    let gap = (f.units(q as nat) - one) as nat;
    order::lemma_round_mono(f, gap, 1, 255 * one, 1);
    assert(d <= full);

    // So is the boosted part of it.
    order::lemma_product_mono(f, d, full, boost);
    order::lemma_product_mono(f, boost, o, full);
    lemma_times_one(full);
    let b = f.spec_product(boost, d);
    assert(b <= full);

    // With one added, it is at least one and at most 256.
    order::lemma_sum_mono(f, o, 0, o, b);
    order::lemma_sum_mono(f, o, b, o, full);
    order::lemma_round_representable(f, 256, 149);
}

/// Brightening keeps the order of channels and never darkens one.
proof fn lemma_boosted(a: u8, b: u8, max: u8)
    requires
        a <= b <= max,
        max > 0,
    ensures
        paint::boosted(a, paint::boost_gain(max)) <= paint::boosted(b, paint::boost_gain(max)),
        a <= paint::boosted(a, paint::boost_gain(max)),
{
    let f = float::single();
    let gain = paint::boost_gain(max);
    let (x, y) = (Single::from_u64(a as u64), Single::from_u64(b as u64));
    let (p, q) = (x.times(gain), y.times(gain));
    let full = Single { bits: paint::FULL };
    lemma_gain(max);
    lemma_known();
    lemma_byte(a);
    lemma_byte(b);
    lemma_byte_mono(a, b);
    lemma_byte_mono(a, 255);
    lemma_pow2_pos(149);
    reveal(Single::spec_times);
    reveal(Single::spec_is_nan);
    reveal(Single::spec_less);
    reveal(Single::spec_to_u64);
    order::lemma_product_mono(f, x.bits as u64, y.bits as u64, gain.bits as u64);
    assert(p.bits <= q.bits);
    lemma_times_one(x.bits as u64);
    if a > 0 {
        order::lemma_product_mono(f, paint::ONE as u64, gain.bits as u64, x.bits as u64);
        assert(x.bits <= p.bits);
    }
    let (r, s) = (p.min(full), q.min(full));
    assert(r.bits <= s.bits <= full.bits);
    assert(x.bits <= r.bits);
    order::lemma_trunc_mono(f, r.bits as nat, s.bits as nat);
    order::lemma_trunc_mono(f, x.bits as nat, r.bits as nat);
    order::lemma_trunc_mono(f, s.bits as nat, full.bits as nat);
    lemma_div_multiples_vanish(a as int, pow2(149) as int);
    lemma_div_multiples_vanish(255, pow2(149) as int);
    assert(a as nat * pow2(149) == pow2(149) * a as nat) by (nonlinear_arith);
}

/// The gain of a color that is at full intensity already.
proof fn lemma_full_gain()
    ensures
        paint::boost_gain(255).bits == paint::ONE,
{
    let f = float::single();
    let one = pow2(149);
    lemma_known();
    lemma_pow2_pos(149);
    lemma_pow2_pos(0);
    reveal(Single::spec_over);
    reveal(Single::spec_minus);
    reveal(Single::spec_times);
    reveal(Single::spec_plus);
    ratio::lemma_round_scale(f, one, 1, 255 * one);
    assert((255 * one) * one == one * (255 * one)) by (nonlinear_arith);
    assert(1 * (255 * one) == 255 * one);
    order::lemma_round_exact(f, paint::ONE as nat);
    code::lemma_round_zero(f);
    let boost = f.units(paint::BOOST as nat);
    assert(boost * 0 == 0) by (nonlinear_arith);
    order::lemma_round_mono(f, 0, one, 0, 1);
}

/// A channel that is zero stays so, and with a gain of one every channel does.
proof fn lemma_boosted_kept(a: u8, gain: Single)
    requires
        (a == 0 && 0 < gain.bits < float::single().inf()) || gain.bits == paint::ONE,
    ensures
        paint::boosted(a, gain) == a,
{
    let f = float::single();
    let one = pow2(149);
    let x = Single::from_u64(a as u64);
    lemma_known();
    lemma_byte(a);
    lemma_byte_mono(a, 255);
    lemma_pow2_pos(149);
    reveal(Single::spec_times);
    reveal(Single::spec_is_nan);
    reveal(Single::spec_less);
    reveal(Single::spec_to_u64);
    if a == 0 {
        let g = f.units(gain.bits as nat);
        assert(0 * g == 0) by (nonlinear_arith);
        code::lemma_round_zero(f);
        order::lemma_round_mono(f, 0, one, 0, 1);
    } else {
        lemma_times_one(x.bits as u64);
    }
    lemma_div_multiples_vanish(a as int, one as int);
    assert(a as nat * one == one * a as nat) by (nonlinear_arith);
}

/// Brightening a color never darkens a channel, and keeps the channels in order,
/// so that the brightest one stays the brightest. A channel that is zero stays zero, and
/// a color with a channel at full intensity stays as it is.
pub proof fn law_brightening_keeps_the_order_of_channels(color: [u8; 3], c: int, d: int)
    requires
        0 <= c < 3,
        0 <= d < 3,
    ensures
        paint::spec_brighten(color)[c] >= color[c],
        color[c] <= color[d] ==> paint::spec_brighten(color)[c] <= paint::spec_brighten(color)[d],
        color[c] == 0 ==> paint::spec_brighten(color)[c] == 0,
        color[c] == 255 ==> paint::spec_brighten(color) == color,
{
    let max = paint::brightest(color);
    if max > 0 {
        lemma_gain(max);
        if color[c] == 0 {
            lemma_boosted_kept(color[c], paint::boost_gain(max));
        }
        if color[c] == 255 {
            lemma_full_gain();
            lemma_boosted_kept(color[0], paint::boost_gain(max));
            lemma_boosted_kept(color[1], paint::boost_gain(max));
            lemma_boosted_kept(color[2], paint::boost_gain(max));
            assert(paint::spec_brighten(color) =~= color);
        }
        lemma_boosted(color[c], color[c], max);
        if color[c] <= color[d] {
            lemma_boosted(color[c], color[d], max);
        }
    }
}

} // verus!
