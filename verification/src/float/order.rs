//! How rounding relates to the order of the values that it starts from.

use crate::float::code::Whole;
use crate::float::ratio;
use crate::float::ratio::Format;
use vstd::arithmetic::div_mod::*;
use vstd::arithmetic::power2::*;
use vstd::prelude::*;

verus! {

/// A finite code is its exponent and its significand, one above the other.
pub proof fn lemma_code_parts(fmt: Format, code: nat)
    requires
        fmt.valid(),
    ensures
        code == fmt.expo(code) * fmt.hidden() + fmt.mant(code),
        fmt.mant(code) < 2 * fmt.hidden(),
        fmt.expo(code) > 0 ==> fmt.mant(code) >= fmt.hidden(),
{
    let h = fmt.hidden();
    if code >= h {
        lemma_fundamental_div_mod(code as int, h as int);
        assert((code / h - 1) * h == h * (code / h) - h) by (nonlinear_arith);
    } else {
        assert(0 * h == 0);
    }
}

/// A quotient without a remainder rounds to itself.
pub proof fn lemma_half_even_exact(m: nat, d: nat)
    requires
        d > 0,
    ensures
        ratio::half_even(m * d, d) == m,
{
    lemma_fundamental_div_mod_converse((m * d) as int, d as int, m as int, 0);
}

/// Every value of the format rounds to itself.
pub proof fn lemma_round_exact(fmt: Format, code: nat)
    requires
        fmt.valid(),
        code < fmt.inf(),
    ensures
        fmt.round(fmt.units(code), 1) == code,
{
    let m = fmt.mant(code);
    let k = fmt.expo(code);
    let u = fmt.units(code);
    let p = fmt.prec as nat;
    lemma_code_parts(fmt, code);
    ratio::lemma_hidden(fmt);
    lemma_pow2_pos(k);
    assert(u / 1 == u);
    if k > 0 {
        lemma_pow2_adds((p - 1) as nat, k);
        lemma_pow2_adds(p, k);
        assert(pow2((p + k - 1) as nat) <= u < pow2(p + k)) by (nonlinear_arith)
            requires
                u == m * pow2(k),
                pow2((p - 1) as nat) <= m < pow2(p),
                pow2((p - 1) as nat) * pow2(k) == pow2((p + k - 1) as nat),
                pow2(p) * pow2(k) == pow2(p + k),
                pow2(k) > 0,
        ;
        ratio::lemma_bit_len_is(u, p + k);
    } else {
        lemma2_to64();
        assert(u == m) by (nonlinear_arith)
            requires
                u == m * pow2(k),
                pow2(k) == 1,
        ;
        ratio::lemma_bit_len_at_most(u, p);
    }
    assert(fmt.quantum(u, 1) == k);
    lemma_half_even_exact(m, pow2(k));
    assert(1 * pow2(k) == pow2(k));
}

/// Larger numbers are not shorter.
pub proof fn lemma_bit_len_mono(a: nat, b: nat)
    requires
        a <= b,
    ensures
        ratio::bit_len(a) <= ratio::bit_len(b),
{
    ratio::lemma_bit_len(b);
    ratio::lemma_bit_len_at_most(a, ratio::bit_len(b));
}

/// The rounded quotient is next to the exact one.
pub proof fn lemma_half_even_near(a: nat, d: nat)
    requires
        d > 0,
    ensures
        2 * d * ratio::half_even(a, d) <= 2 * a + d,
        2 * a <= 2 * d * ratio::half_even(a, d) + d,
        a / d <= ratio::half_even(a, d) <= a / d + 1,
{
    lemma_fundamental_div_mod(a as int, d as int);
    let q = a / d;
    assert(2 * d * q == 2 * (d * q)) by (nonlinear_arith);
    assert(2 * d * (q + 1) == 2 * (d * q) + 2 * d) by (nonlinear_arith);
}

/// Rounding to a whole number keeps the order.
pub proof fn lemma_half_even_mono(a: nat, b: nat, d: nat)
    requires
        d > 0,
        a <= b,
    ensures
        ratio::half_even(a, d) <= ratio::half_even(b, d),
{
    lemma_fundamental_div_mod(a as int, d as int);
    lemma_fundamental_div_mod(b as int, d as int);
    let (qa, ra) = (a / d, a % d);
    let (qb, rb) = (b / d, b % d);
    assert(qa <= qb) by (nonlinear_arith)
        requires
            d * qa + ra <= d * qb + rb,
            0 <= ra < d,
            0 <= rb < d,
    ;
    if qa == qb {
        assert(d * qa == d * qb);
        assert(ra <= rb);
    } else {
        lemma_half_even_near(a, d);
        lemma_half_even_near(b, d);
    }
}

/// What the quantum says of the ratio that it belongs to.
pub proof fn lemma_quantum(fmt: Format, num: nat, den: nat)
    requires
        fmt.valid(),
        den > 0,
    ensures
        ({
            let k = fmt.quantum(num, den);
            &&& num < 2 * fmt.hidden() * (den * pow2(k))
            &&& k > 0 ==> fmt.hidden() * (den * pow2(k)) <= num
        }),
{
    let k = fmt.quantum(num, den);
    let q = num / den;
    let len = ratio::bit_len(q);
    let p = fmt.prec as nat;
    ratio::lemma_hidden(fmt);
    ratio::lemma_bit_len(q);
    lemma_fundamental_div_mod(num as int, den as int);
    lemma_pow2_adds(p, k);
    ratio::lemma_pow2_mono(len, p + k);
    let big = pow2(p + k);
    assert(num < den * big) by (nonlinear_arith)
        requires
            num == den * q + num % den,
            num % den < den,
            q + 1 <= big,
            den > 0,
    ;
    assert(den * big == 2 * fmt.hidden() * (den * pow2(k))) by (nonlinear_arith)
        requires
            big == (2 * fmt.hidden()) * pow2(k),
    ;
    if k > 0 {
        lemma_pow2_adds((p - 1) as nat, k);
        assert(fmt.hidden() * (den * pow2(k)) <= num) by (nonlinear_arith)
            requires
                num == den * q + num % den,
                num % den >= 0,
                pow2((len - 1) as nat) <= q,
                pow2((len - 1) as nat) == fmt.hidden() * pow2(k),
        ;
    }
}

/// Rounding keeps the order of ratios with one denominator.
proof fn lemma_round_mono_same(fmt: Format, a: nat, b: nat, d: nat)
    requires
        fmt.valid(),
        d > 0,
        a <= b,
    ensures
        fmt.round(a, d) <= fmt.round(b, d),
{
    let ka = fmt.quantum(a, d);
    let kb = fmt.quantum(b, d);
    lemma_div_is_ordered(a as int, b as int, d as int);
    lemma_bit_len_mono(a / d, b / d);
    lemma_pow2_pos(ka);
    lemma_pow2_pos(kb);
    let (sa, sb) = (d * pow2(ka), d * pow2(kb));
    assert(sa > 0 && sb > 0) by (nonlinear_arith)
        requires
            sa == d * pow2(ka),
            sb == d * pow2(kb),
            d > 0,
            pow2(ka) > 0,
            pow2(kb) > 0,
    ;
    if ka == kb {
        lemma_half_even_mono(a, b, sa);
    } else {
        let h = fmt.hidden();
        lemma_quantum(fmt, a, d);
        lemma_quantum(fmt, b, d);
        lemma_half_even_mono(a, 2 * h * sa, sa);
        lemma_half_even_exact(2 * h, sa);
        lemma_half_even_mono(h * sb, b, sb);
        lemma_half_even_exact(h, sb);
        assert((ka + 1) * h <= kb * h) by (nonlinear_arith)
            requires
                ka + 1 <= kb,
        ;
        assert((ka + 1) * h == ka * h + h) by (nonlinear_arith);
    }
}

/// Rounding keeps the order of ratios.
pub proof fn lemma_round_mono(fmt: Format, n1: nat, d1: nat, n2: nat, d2: nat)
    requires
        fmt.valid(),
        d1 > 0,
        d2 > 0,
        n1 * d2 <= n2 * d1,
    ensures
        fmt.round(n1, d1) <= fmt.round(n2, d2),
{
    ratio::lemma_round_scale(fmt, n1, d1, d2);
    ratio::lemma_round_scale(fmt, n2, d2, d1);
    assert(d1 * d2 == d2 * d1) by (nonlinear_arith);
    lemma_round_mono_same(fmt, n1 * d2, n2 * d1, d1 * d2);
}

/// The magnitude of a finite result is what was rounded to.
pub proof fn lemma_round_units(fmt: Format, num: nat, den: nat)
    requires
        fmt.valid(),
        den > 0,
        fmt.round(num, den) < fmt.inf(),
    ensures
        ({
            let k = fmt.quantum(num, den);
            fmt.units(fmt.round(num, den)) == ratio::half_even(num, den * pow2(k)) * pow2(k)
        }),
{
    let k = fmt.quantum(num, den);
    let step = den * pow2(k);
    let h = fmt.hidden();
    let m = ratio::half_even(num, step);
    let code = k * h + m;
    lemma_pow2_pos(k);
    assert(step > 0) by (nonlinear_arith)
        requires
            step == den * pow2(k),
            den > 0,
            pow2(k) > 0,
    ;
    lemma_quantum(fmt, num, den);
    lemma_half_even_mono(num, 2 * h * step, step);
    lemma_half_even_exact(2 * h, step);
    if k > 0 {
        lemma_half_even_mono(h * step, num, step);
        lemma_half_even_exact(h, step);
    }
    lemma_code_parts(fmt, code);
    if m == 2 * h {
        assert(code == (k + 2) * h + 0) by (nonlinear_arith)
            requires
                code == k * h + 2 * h,
        ;
        lemma_fundamental_div_mod_converse(code as int, h as int, (k + 2) as int, 0);
        lemma_pow2_unfold(k + 1);
        assert(h * pow2(k + 1) == m * pow2(k)) by (nonlinear_arith)
            requires
                m == 2 * h,
                pow2(k + 1) == 2 * pow2(k),
        ;
        assert(fmt.mant(code) == h);
        assert(fmt.expo(code) == k + 1);
    } else if m >= h {
        assert(code == (k + 1) * h + (m - h)) by (nonlinear_arith)
            requires
                code == k * h + m,
        ;
        lemma_fundamental_div_mod_converse(code as int, h as int, (k + 1) as int, m - h);
        assert(fmt.mant(code) == m);
        assert(fmt.expo(code) == k);
    } else {
        assert(k == 0);
        assert(k * h == 0) by (nonlinear_arith)
            requires
                k == 0,
        ;
        assert(fmt.mant(code) == m);
        assert(fmt.expo(code) == 0);
    }
}

/// A rounded magnitude exceeds the exact one by at most half a unit of the last
/// place, wherever the exact one is not below the normal numbers.
pub proof fn lemma_round_over(fmt: Format, num: nat, den: nat)
    requires
        fmt.valid(),
        den > 0,
        fmt.round(num, den) < fmt.inf(),
        fmt.hidden() * den <= num,
    ensures
        fmt.units(fmt.round(num, den)) * den * (2 * fmt.hidden()) <= num * (2 * fmt.hidden() + 1),
{
    let k = fmt.quantum(num, den);
    let z = pow2(k);
    let step = den * z;
    let h = fmt.hidden();
    let m = ratio::half_even(num, step);
    let u = fmt.units(fmt.round(num, den));
    lemma_pow2_pos(k);
    assert(step > 0) by (nonlinear_arith)
        requires
            step == den * z,
            den > 0,
            z > 0,
    ;
    lemma_round_units(fmt, num, den);
    lemma_quantum(fmt, num, den);
    lemma_half_even_near(num, step);
    lemma2_to64();
    assert(h * step <= num) by {
        if k == 0 {
            assert(step == den) by (nonlinear_arith)
                requires
                    step == den * z,
                    z == 1,
            ;
        }
    }
    assert(u * den == m * step) by (nonlinear_arith)
        requires
            u == m * z,
            step == den * z,
    ;
    assert(u * den * (2 * h) <= num * (2 * h + 1)) by (nonlinear_arith)
        requires
            u * den == m * step,
            2 * step * m <= 2 * num + step,
            h * step <= num,
    ;
}

/// A significand that fits the format, scaled by a power of two that fits it,
/// is rounded to itself.
pub proof fn lemma_round_representable(fmt: Format, m: nat, k: nat)
    requires
        fmt.valid(),
        m < 2 * fmt.hidden(),
        k <= fmt.unit,
    ensures
        fmt.round(m * pow2(k), 1) < fmt.inf(),
        fmt.units(fmt.round(m * pow2(k), 1)) == m * pow2(k),
{
    let num = m * pow2(k);
    let q = fmt.quantum(num, 1);
    let p = fmt.prec as nat;
    let h = fmt.hidden();
    ratio::lemma_hidden(fmt);
    lemma_pow2_pos(k);
    lemma_pow2_adds(p, k);
    assert(num < pow2(p + k)) by (nonlinear_arith)
        requires
            num == m * pow2(k),
            m < pow2(p),
            pow2(p) * pow2(k) == pow2(p + k),
            pow2(k) > 0,
    ;
    assert(num / 1 == num);
    ratio::lemma_bit_len_at_most(num, p + k);
    assert(q <= k);
    let w = m * pow2((k - q) as nat);
    lemma_pow2_adds((k - q) as nat, q);
    lemma_pow2_pos(q);
    assert(num == w * pow2(q)) by (nonlinear_arith)
        requires
            num == m * pow2(k),
            w == m * pow2((k - q) as nat),
            pow2((k - q) as nat) * pow2(q) == pow2(k),
    ;
    assert(1 * pow2(q) == pow2(q));
    lemma_half_even_exact(w, pow2(q));
    lemma_quantum(fmt, num, 1);
    assert(w < 2 * h) by (nonlinear_arith)
        requires
            w * pow2(q) < 2 * h * (1 * pow2(q)),
            pow2(q) > 0,
    ;
    assert(q * h <= fmt.unit * h) by (nonlinear_arith)
        requires
            q <= fmt.unit,
    ;
    lemma_round_units(fmt, num, 1);
}

/// Codes are ordered as their magnitudes.
pub proof fn lemma_units_mono(fmt: Format, a: nat, b: nat)
    requires
        fmt.valid(),
        a <= b,
    ensures
        fmt.units(a) <= fmt.units(b),
{
    let h = fmt.hidden();
    let (ma, ka) = (fmt.mant(a), fmt.expo(a));
    let (mb, kb) = (fmt.mant(b), fmt.expo(b));
    lemma_code_parts(fmt, a);
    lemma_code_parts(fmt, b);
    lemma_pow2_pos(ka);
    lemma_pow2_pos(kb);
    if ka == kb {
        assert(ka * h == kb * h);
        assert(ma * pow2(ka) <= mb * pow2(kb)) by (nonlinear_arith)
            requires
                ma <= mb,
                ka == kb,
        ;
    } else if ka < kb {
        lemma_pow2_unfold(ka + 1);
        ratio::lemma_pow2_mono(ka + 1, kb);
        assert(ma * pow2(ka) <= mb * pow2(kb)) by (nonlinear_arith)
            requires
                ma <= 2 * h,
                h <= mb,
                2 * pow2(ka) <= pow2(kb),
        ;
    } else {
        assert(kb * h + h <= ka * h) by (nonlinear_arith)
            requires
                kb + 1 <= ka,
        ;
        assert(false);
    }
}

/// Whether an encoding is a number that is not below zero, infinity included.
pub open spec fn plain(fmt: Format, bits: u64) -> bool {
    bits <= fmt.inf()
}

/// Sums keep the order of numbers that are not below zero.
pub proof fn lemma_sum_mono(fmt: Format, a: u64, b: u64, c: u64, d: u64)
    requires
        fmt.valid(),
        a <= c,
        b <= d,
        plain(fmt, c),
        plain(fmt, d),
    ensures
        plain(fmt, fmt.spec_sum(c, d)),
        fmt.spec_sum(a, b) <= fmt.spec_sum(c, d),
{
    if c < fmt.inf() && d < fmt.inf() {
        lemma_units_mono(fmt, a as nat, c as nat);
        lemma_units_mono(fmt, b as nat, d as nat);
        let s = fmt.value(a) + fmt.value(b);
        let t = fmt.value(c) + fmt.value(d);
        lemma_round_mono(fmt, s as nat, 1, t as nat, 1);
    }
}

/// Products with a positive number keep the order of numbers that are not below
/// zero.
pub proof fn lemma_product_mono(fmt: Format, a: u64, c: u64, k: u64)
    requires
        fmt.valid(),
        a <= c,
        plain(fmt, c),
        0 < k < fmt.inf(),
    ensures
        plain(fmt, fmt.spec_product(c, k)),
        plain(fmt, fmt.spec_product(k, c)),
        fmt.spec_product(a, k) <= fmt.spec_product(c, k),
        fmt.spec_product(k, a) <= fmt.spec_product(k, c),
{
    let one = pow2(fmt.unit as nat);
    lemma_pow2_pos(fmt.unit as nat);
    if c < fmt.inf() {
        lemma_units_mono(fmt, a as nat, c as nat);
        let (x, y, z) = (fmt.units(a as nat), fmt.units(c as nat), fmt.units(k as nat));
        assert((x * z) * one <= (y * z) * one) by (nonlinear_arith)
            requires
                x <= y,
                one > 0,
        ;
        assert(x * z == z * x) by (nonlinear_arith);
        assert(y * z == z * y) by (nonlinear_arith);
        lemma_round_mono(fmt, x * z, one, y * z, one);
    }
}

/// Quotients by a positive number keep the order of numbers that are not below
/// zero.
pub proof fn lemma_quotient_mono(fmt: Format, a: u64, c: u64, k: u64)
    requires
        fmt.valid(),
        a <= c,
        plain(fmt, c),
        0 < k < fmt.inf(),
    ensures
        plain(fmt, fmt.spec_quotient(c, k)),
        fmt.spec_quotient(a, k) <= fmt.spec_quotient(c, k),
{
    let one = pow2(fmt.unit as nat);
    if c < fmt.inf() {
        lemma_units_mono(fmt, a as nat, c as nat);
        lemma_units_positive(fmt, k as nat);
        let (x, y, z) = (fmt.units(a as nat), fmt.units(c as nat), fmt.units(k as nat));
        assert((x * one) * z <= (y * one) * z) by (nonlinear_arith)
            requires
                x <= y,
        ;
        lemma_round_mono(fmt, x * one, z, y * one, z);
    }
}

/// Only zero has no magnitude.
pub proof fn lemma_units_positive(fmt: Format, code: nat)
    requires
        fmt.valid(),
        code > 0,
    ensures
        fmt.units(code) > 0,
{
    lemma_code_parts(fmt, code);
    lemma_pow2_pos(fmt.expo(code));
    assert(fmt.mant(code) > 0) by {
        if fmt.expo(code) == 0 {
            assert(0 * fmt.hidden() == 0);
        }
    }
    assert(fmt.units(code) > 0) by (nonlinear_arith)
        requires
            fmt.units(code) == fmt.mant(code) * pow2(fmt.expo(code)),
            fmt.mant(code) > 0,
            pow2(fmt.expo(code)) > 0,
    ;
}

/// Dropping fractions keeps the order.
pub proof fn lemma_trunc_mono(fmt: Format, a: nat, c: nat)
    requires
        fmt.valid(),
        a <= c,
    ensures
        fmt.whole(a, Whole::Trunc) <= fmt.whole(c, Whole::Trunc),
{
    lemma_units_mono(fmt, a, c);
    lemma_pow2_pos(fmt.unit as nat);
    lemma_div_is_ordered(
        fmt.units(a) as int,
        fmt.units(c) as int,
        pow2(fmt.unit as nat) as int,
    );
}

/// The code that a whole number of `len` digits, scaled by a power of two, is
/// rounded to.
pub proof fn lemma_round_digits(fmt: Format, n: nat, e: nat, len: nat)
    requires
        fmt.valid(),
        len >= fmt.prec,
        pow2((len - 1) as nat) <= n < pow2(len),
    ensures
        ({
            let code = (e + len - fmt.prec) * fmt.hidden() + ratio::half_even(
                n,
                pow2((len - fmt.prec) as nat),
            );
            fmt.round(n * pow2(e), 1) == if code < fmt.inf() {
                code as nat
            } else {
                fmt.inf()
            }
        }),
{
    let z = pow2(e);
    let num = n * z;
    let d = pow2((len - fmt.prec) as nat);
    let k = (e + len - fmt.prec) as nat;
    lemma_pow2_pos(e);
    lemma_pow2_pos((len - fmt.prec) as nat);
    lemma_pow2_adds((len - 1) as nat, e);
    lemma_pow2_adds(len, e);
    lemma_pow2_adds((len - fmt.prec) as nat, e);
    assert(pow2((len + e - 1) as nat) <= num < pow2(len + e)) by (nonlinear_arith)
        requires
            num == n * z,
            pow2((len - 1) as nat) <= n < pow2(len),
            pow2((len - 1) as nat) * z == pow2((len + e - 1) as nat),
            pow2(len) * z == pow2(len + e),
            z > 0,
    ;
    ratio::lemma_bit_len_is(num, len + e);
    assert(num / 1 == num);
    assert(fmt.quantum(num, 1) == k);
    assert(1 * pow2(k) == d * z);
    ratio::lemma_scale_div(n, d, z);
    let r = n % d;
    assert((2 * (r * z) < d * z) == (2 * r < d)) by (nonlinear_arith)
        requires
            z > 0,
    ;
    assert((2 * (r * z) > d * z) == (2 * r > d)) by (nonlinear_arith)
        requires
            z > 0,
    ;
}

} // verus!
