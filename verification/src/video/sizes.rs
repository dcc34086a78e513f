//! Which insets can be made.

use crate::float;
use crate::float::code;
use crate::float::near;
use crate::float::order;
use crate::float::steps;
use crate::float::Single;
use crate::font;
use crate::font::measures;
use crate::font::CellMetrics;
use crate::paint::brightness;
use crate::paint::discs;
use crate::paint::exact;
use crate::paint::exact::size;
use crate::video;
use vstd::arithmetic::div_mod::*;
use vstd::arithmetic::power2::*;
use vstd::prelude::*;

verus! {

/// A number that is rounded on its own is off by a part in 2^24 at most.
proof fn lemma_off(d: int, v: Single)
    requires
        v.bits == float::single().join(d < 0, float::single().round(size(d), 1)),
        size(d) <= 0x100_0000 * exact::one(),
    ensures
        exact::finite(v),
        0x100_0000 * (near::single_value(v) - d) <= size(d),
        0x100_0000 * (d - near::single_value(v)) <= size(d),
        d >= 0 ==> v.bits < float::single().inf(),
{
    let f = float::single();
    let n = size(d);
    let w = Single { bits: f.round(n, 1) as u32 };
    lemma2_to64();
    lemma2_to64_rest();
    lemma_pow2_adds(44, 149);
    lemma_pow2_pos(149);
    assert(f.round(n, 1) <= f.inf());
    discs::lemma_single_off(n as int, w);
}

/// The sum of finite numbers, before rounding.
proof fn lemma_sum_bits(a: Single, b: Single)
    requires
        exact::finite(a),
        exact::finite(b),
        !float::single().neg(a.bits as u64),
    ensures
        ({
            let f = float::single();
            let d = near::single_value(a) + near::single_value(b);
            let e = near::single_value(a) - near::single_value(b);
            &&& a.plus(b).bits == f.join(d < 0, f.round(size(d), 1))
            &&& a.minus(b).bits == f.join(e < 0, f.round(size(e), 1))
        }),
{
    let f = float::single();
    reveal(Single::spec_plus);
    reveal(Single::spec_minus);
    code::lemma_round_zero(f);
    let n = f.spec_negated(b.bits as u64);
    assert(f.mag(n) == f.mag(b.bits as u64));
    assert(f.value(n) == -near::single_value(b));
}

/// Whole numbers are their own whole part.
proof fn lemma_whole_part(v: Single)
    requires
        steps::moderate(v),
        near::single_value(v) % (exact::one() as int) == 0,
    ensures
        v.to_i64() * exact::one() == near::single_value(v),
{
    let z = exact::one() as int;
    let x = near::single_value(v);
    lemma_pow2_pos(149);
    steps::law_whole_numbers_are_next(v);
    let (a, b) = (near::single_value(v.floor()), near::single_value(v.ceil()));
    lemma_fundamental_div_mod(x, z);
    lemma_fundamental_div_mod(a, z);
    lemma_fundamental_div_mod(b, z);
    assert(a == x && b == x) by (nonlinear_arith)
        requires
            x == z * (x / z),
            a == z * (a / z),
            b == z * (b / z),
            a <= x < a + z,
            b - z < x <= b,
            z > 0,
    ;
}

/// The center of a pixel of a resized side.
proof fn lemma_center(from: u32, to: u32, at: u32) -> (c: int)
    requires
        1 <= from <= 0x1_0000,
        1 <= to <= 0x1_0000,
        at < to,
    ensures
        ({
            let z = exact::one() as int;
            let r = video::side_ratio(from, to);
            let m = video::side_center(from, to, at);
            &&& c == near::single_value(m)
            &&& m.bits < float::single().inf()
            &&& 0 < r.bits < float::single().inf()
            &&& near::single_value(r) <= 0x2_0000 * z
            &&& 0 <= c
            &&& 64 * c <= 64 * (from * z) + z
        }),
{
    let f = float::single();
    let (z, t) = (exact::one() as int, to as int);
    let (n, k) = (from as int, at as int);
    let ratio = video::side_ratio(from, to);
    measures::law_aspect_is_height_by_width(
        CellMetrics { width: to, height: from, ascent: Single { bits: 0 } },
    );
    lemma_pow2_pos(149);
    lemma_pow2_unfold(149);
    let r = near::single_value(ratio);
    // The number of the pixel and a half.
    let half = Single { bits: video::HALF };
    let whole = Single::from_u64(at as u64);
    let h = pow2(148) as int;
    lemma2_to64();
    lemma_pow2_adds(23, 125);
    assert(f.mant(video::HALF as nat) == 0x80_0000 && f.expo(video::HALF as nat) == 125);
    assert(near::single_value(half) == h);
    reveal(Single::spec_from_u64);
    order::lemma_round_representable(f, at as nat, 149);
    assert(near::single_value(whole) == k * z && whole.bits < f.inf());
    let place = whole.plus(half);
    lemma_sum_bits(whole, half);
    assert(k * z + h == (2 * k + 1) * h && k * z >= 0) by (nonlinear_arith)
        requires
            z == 2 * h,
            k >= 0,
            h > 0,
    ;
    order::lemma_round_representable(f, (2 * at + 1) as nat, 148);
    let p = near::single_value(place);
    assert(p == (2 * k + 1) * h);
    assert(place.bits < f.inf());
    // Times the ratio.
    let num = p * r;
    assert(r > 0 && z <= 0x2_0000 * r && r <= 0x2_0000 * z) by (nonlinear_arith)
        requires
            (r * t) * 0x100_0000 <= (n * z) * 0x100_0001,
            (n * z) * 0xff_ffff <= (r * t) * 0x100_0000,
            1 <= n <= 0x1_0000,
            1 <= t <= 0x1_0000,
            z > 0,
    {
        assert(n * z <= 2 * (r * t));
        assert(z <= n * z);
        if r <= 0 {
            assert(r * t <= 0);
        }
        assert(r * t <= r * 0x1_0000);
        assert(r * t <= 2 * (n * z));
        assert(r <= r * t);
        assert(n * z <= 0x1_0000 * z);
    }
    lemma_product(p, r, k, t, n, h, z, num);
    let big = 0x80_0000 * pow2(170);
    lemma_pow2_adds(23, 170);
    lemma2_to64_rest();
    lemma_pow2_adds(44, 149);
    float::ratio::lemma_pow2_mono(60, 148);
    assert(0x80_0000 * z <= num && num <= z * big) by (nonlinear_arith)
        requires
            num == p * r,
            p == (2 * k + 1) * h,
            0 <= k < 0x1_0000,
            z == 2 * h,
            z <= 0x2_0000 * r,
            r <= 0x2_0000 * z,
            h >= 0x1000_0000_0000_0000,
            big == 0x1000_0000_0000 * z,
    {
        assert(h <= p);
        assert(h * r <= p * r);
        assert(0x2_0000 * (h * r) >= h * z);
        assert(h * z >= 0x1000_0000_0000_0000 * z);
        assert(p <= 0x2_0000 * h);
        assert(p * r <= (0x2_0000 * h) * (0x2_0000 * z));
    }
    reveal(Single::spec_times);
    near::lemma_rounded_single(num as nat, z as nat, 170);
    let center = video::side_center(from, to, at);
    let c = near::single_value(center);
    assert(center.bits == f.round(num as nat, z as nat));
    let cz = c * z;
    assert(64 * c <= 64 * (n * z) + z) by (nonlinear_arith)
        requires
            cz == c * z,
            cz * 0x100_0000 <= num * 0x100_0001,
            num * 0x100_0000 <= ((n * z) * z) * 0x100_0001,
            1 <= n <= 0x1_0000,
            z > 0,
            num >= 0,
    {
        let nz = n * z;
        let nzz = nz * z;
        assert(nzz <= 0x1_0000 * (z * z));
        assert(nzz >= 0);
        assert(cz * 0x40_0000 <= nzz * 0x40_0001);
        assert(64 * cz <= 64 * nzz + z * z);
        assert((64 * c) * z <= (64 * nz + z) * z);
    }
    c
}

/// The product of place and ratio.
proof fn lemma_product(p: int, r: int, k: int, t: int, n: int, h: int, z: int, num: int)
    requires
        num == p * r,
        p == (2 * k + 1) * h,
        0 <= k < t,
        z == 2 * h,
        h > 0,
        r > 0,
        n > 0,
        (r * t) * 0x100_0000 <= (n * z) * 0x100_0001,
    ensures
        num * 0x100_0000 <= ((n * z) * z) * 0x100_0001,
        num >= 0,
{
    let rt = r * t;
    assert(p <= t * z && p > 0) by (nonlinear_arith)
        requires
            p == (2 * k + 1) * h,
            0 <= k,
            k + 1 <= t,
            z == 2 * h,
            h > 0,
    ;
    assert(0 <= num <= rt * z) by (nonlinear_arith)
        requires
            num == p * r,
            rt == r * t,
            0 < p <= t * z,
            r > 0,
    ;
    assert((rt * z) * 0x100_0000 <= ((n * z) * z) * 0x100_0001) by (nonlinear_arith)
        requires
            rt * 0x100_0000 <= (n * z) * 0x100_0001,
            z > 0,
    ;
}

/// The first and the last pixel that a pixel of a resized side is a mean of lie around the one
/// that its center lies in.
proof fn lemma_around(from: u32, to: u32, at: u32, c: int, i: int)
    requires
        1 <= from <= 0x1_0000,
        1 <= to <= 0x1_0000,
        at < to,
        c == near::single_value(video::side_center(from, to, at)),
        video::side_center(from, to, at).bits < float::single().inf(),
        0 < video::side_ratio(from, to).bits < float::single().inf(),
        near::single_value(video::side_ratio(from, to)) <= 0x2_0000 * exact::one(),
        0 <= c <= 0x2_0000 * exact::one(),
        0 <= i < from,
        i * exact::one() <= c,
        i == from - 1 || c < (i + 1) * exact::one(),
    ensures
        video::side_first(from, to, at) <= i < video::side_after(from, to, at),
        exact::finite(video::side_spread(from, to)),
        near::single_value(video::side_spread(from, to)) >= exact::one(),
        near::single_value(video::side_spread(from, to)) <= 0x2_0000 * exact::one(),
        !float::single().neg(video::side_spread(from, to).bits as u64),
{
    let f = float::single();
    let z = exact::one() as int;
    let center = video::side_center(from, to, at);
    let ratio = video::side_ratio(from, to);
    let spread = video::side_spread(from, to);
    let one = Single { bits: video::ONE };
    lemma_pow2_pos(149);
    brightness::lemma_known();
    assert(near::single_value(one) == z);
    discs::lemma_less(ratio, one);
    let s = near::single_value(spread);
    lemma_sum_bits(center, spread);
    // Downward.
    let low = center.minus(spread);
    lemma_off(c - s, low);
    let l = near::single_value(low);
    assert(-0x10_0000 * z < l < 0x10_0000 * z);
    steps::law_whole_numbers_are_next(low);
    let a = near::single_value(low.floor());
    assert(exact::finite(low.floor())) by {
        font::corners::lemma_finite_small(low);
    }
    lemma_whole_part(low.floor());
    let n = low.floor().to_i64() as int;
    if i < from - 1 {
        // The center is below the next pixel, so what is one further down is below this one.
        assert(c - s < i * z) by (nonlinear_arith)
            requires
                c < (i + 1) * z,
                s >= z,
        ;
        assert(l < (i + 1) * z) by (nonlinear_arith)
            requires
                c - s < i * z,
                0x100_0000 * (l - (c - s)) <= 0x10_0000 * z,
                z > 0,
        ;
        assert(n <= i) by (nonlinear_arith)
            requires
                n * z == a,
                a <= l,
                l < (i + 1) * z,
                z > 0,
        ;
    }
    // Upward.
    let high = center.plus(spread);
    lemma_off(c + s, high);
    let h = near::single_value(high);
    steps::law_whole_numbers_are_next(high);
    let b = near::single_value(high.ceil());
    assert(exact::finite(high.ceil())) by {
        lemma_finite_up(high);
    }
    lemma_whole_part(high.ceil());
    let m = high.ceil().to_i64() as int;
    assert(h > i * z) by (nonlinear_arith)
        requires
            c >= i * z,
            s >= z,
            0x100_0000 * ((c + s) - h) <= 0x10_0000 * z,
            z > 0,
    ;
    assert(m > i) by (nonlinear_arith)
        requires
            m * z == b,
            h <= b,
            h > i * z,
            z > 0,
    ;
}

/// Whole numbers above a small number are finite.
proof fn lemma_finite_up(v: Single)
    requires
        v.bits < float::single().inf(),
        near::single_value(v) < 0x80_0000 * exact::one(),
    ensures
        exact::finite(v.ceil()),
{
    let f = float::single();
    let z = exact::one() as int;
    lemma_pow2_pos(149);
    reveal(Single::spec_ceil);
    let u = f.units(v.bits as nat) as int;
    lemma_fundamental_div_mod(u + z - 1, z);
    let m = (u + z - 1) / z;
    assert(0 <= m < 0x100_0000) by (nonlinear_arith)
        requires
            u + z - 1 == z * m + (u + z - 1) % z,
            0 <= (u + z - 1) % z < z,
            0 <= u < 0x80_0000 * z,
    ;
    order::lemma_round_representable(f, m as nat, 149);
}

/// The pixel that a center lies in, or the last one before it, has a weight.
proof fn lemma_weight(from: u32, to: u32, at: u32, c: int, i: int)
    requires
        1 <= from <= 0x1_0000,
        c == near::single_value(video::side_center(from, to, at)),
        video::side_center(from, to, at).bits < float::single().inf(),
        0 <= c <= 0x2_0000 * exact::one(),
        0 <= i < from,
        i * exact::one() <= c,
        64 * c <= 64 * ((i + 1) * exact::one()) + exact::one(),
        exact::finite(video::side_spread(from, to)),
        near::single_value(video::side_spread(from, to)) >= exact::one(),
        near::single_value(video::side_spread(from, to)) <= 0x2_0000 * exact::one(),
        !float::single().neg(video::side_spread(from, to).bits as u64),
    ensures
        video::has_weight(from, to, at, i),
{
    let f = float::single();
    let z = exact::one() as int;
    let h = pow2(148) as int;
    let center = video::side_center(from, to, at);
    let spread = video::side_spread(from, to);
    let half = Single { bits: video::HALF };
    let one = Single { bits: video::ONE };
    lemma_pow2_pos(149);
    lemma_pow2_unfold(149);
    lemma2_to64();
    lemma_pow2_adds(23, 125);
    brightness::lemma_known();
    assert(f.mant(video::HALF as nat) == 0x80_0000 && f.expo(video::HALF as nat) == 125);
    assert(near::single_value(half) == h);
    let middle = center.minus(half);
    lemma_sum_bits(center, half);
    lemma_off(c - h, middle);
    let m = near::single_value(middle);
    let own = Single::from_u64(i as u64);
    reveal(Single::spec_from_u64);
    order::lemma_round_representable(f, i as nat, 149);
    assert(near::single_value(own) == i * z && own.bits < f.inf());
    let iz = i * z;
    assert((i + 1) * z == iz + z && 0 <= iz <= 0x1_0000 * z) by (nonlinear_arith)
        requires
            iz == i * z,
            0 <= i < 0x1_0000,
            z > 0,
    ;
    let dist = own.minus(middle);
    lemma_sum_bits(own, middle);
    lemma_off(iz - m, dist);
    let d = near::single_value(dist);
    assert(-3 * z <= 4 * d <= 3 * z);
    // By the spread.
    let s = near::single_value(spread);
    let r = dist.over(spread);
    let u = f.units(f.mag(dist.bits as u64)) as int;
    assert(f.units(f.mag(spread.bits as u64)) == s);
    assert(f.units(0) == 0) by {
        assert(0 * pow2(0) == 0);
    }
    reveal(Single::spec_over);
    let num = u * z;
    assert(num * 4 <= (3 * z) * s) by (nonlinear_arith)
        requires
            num == u * z,
            4 * u <= 3 * z,
            s >= z,
            z > 0,
            u >= 0,
    {
        assert(4 * (u * z) <= (3 * z) * z);
        assert((3 * z) * z <= (3 * z) * s);
    }
    order::lemma_round_mono(f, num as nat, s as nat, (3 * z) as nat, 4);
    // Three quarters.
    let q = 0x3f40_0000nat;
    assert(f.mant(q) == 0xc0_0000 && f.expo(q) == 125);
    assert(4 * f.units(q) == 3 * z) by (nonlinear_arith)
        requires
            f.units(q) == 0xc0_0000 * pow2(125),
            h == 0x80_0000 * pow2(125),
            z == 2 * h,
    ;
    order::lemma_round_exact(f, q);
    order::lemma_round_mono(f, (3 * z) as nat, 4, f.units(q), 1);
    reveal(Single::spec_less);
    reveal(Single::spec_negated);
    assert(f.mag(r.bits as u64) <= q);
    assert(!f.is_nan(r.bits as u64));
    assert(f.mag(one.negated().bits as u64) == video::ONE as nat && f.neg(
        one.negated().bits as u64,
    ));
}

/// Every inset of ordinary size can be made: on sides of up to 65536 pixels, every pixel of a
/// resized side is a mean of something, whatever the two sizes are. So nothing but the room in
/// memory keeps a picture from being resized.
pub proof fn law_ordinary_pictures_can_be_resized(from_w: u32, from_h: u32, to_w: u32, to_h: u32)
    requires
        1 <= from_w <= 0x1_0000,
        1 <= from_h <= 0x1_0000,
        1 <= to_w <= 0x1_0000,
        1 <= to_h <= 0x1_0000,
    ensures
        video::resizable(from_w, from_h, to_w, to_h) == (16 * (from_w * to_h) <= isize::MAX || (
        from_w == to_w && from_h == to_h)),
{
    assert forall|at: u32| at < to_h implies #[trigger] video::is_covered(from_h, to_h, at) by {
        lemma_covered(from_h, to_h, at);
    }
    assert forall|at: u32| at < to_w implies #[trigger] video::is_covered(from_w, to_w, at) by {
        lemma_covered(from_w, to_w, at);
    }
}

/// Every pixel of a resized side is a mean of something.
proof fn lemma_covered(from: u32, to: u32, at: u32)
    requires
        1 <= from <= 0x1_0000,
        1 <= to <= 0x1_0000,
        at < to,
    ensures
        video::is_covered(from, to, at),
{
    let z = exact::one() as int;
    lemma_pow2_pos(149);
    let c = lemma_center(from, to, at);
    let k = c / z;
    lemma_fundamental_div_mod(c, z);
    let n = from as int;
    assert(0 <= k && k * z <= c && c < (k + 1) * z) by (nonlinear_arith)
        requires
            c == z * k + c % z,
            0 <= c % z < z,
            c >= 0,
            z > 0,
    ;
    assert(n * z <= 0x1_0000 * z) by (nonlinear_arith)
        requires
            n <= 0x1_0000,
            z > 0,
    ;
    let i = if k < n {
        k
    } else {
        n - 1
    };
    assert(i * z <= k * z) by (nonlinear_arith)
        requires
            i <= k,
            z > 0,
    ;
    lemma_around(from, to, at, c, i);
    lemma_weight(from, to, at, c, i);
    assert(video::has_weight(from, to, at, i));
}

} // verus!
