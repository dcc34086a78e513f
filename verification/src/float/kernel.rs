//! The rounding step that every operation ends with.

use crate::float::ratio;
use crate::float::ratio::Format;
use vstd::arithmetic::div_mod::*;
use vstd::arithmetic::power2::*;
use vstd::prelude::*;

verus! {

/// Shifting one to the left counts in powers of two.
proof fn lemma_one_shl(j: u32)
    requires
        j < 128,
    ensures
        (1u128 << j) as nat == pow2(j as nat),
        (1u128 << j) > 0,
    decreases j,
{
    if j == 0 {
        assert(1u128 << 0u32 == 1) by (bit_vector);
        lemma2_to64();
    } else {
        let i = (j - 1) as u32;
        lemma_one_shl(i);
        assert((1u128 << j) == 2 * (1u128 << i)) by (bit_vector)
            requires
                0 < j < 128,
                i + 1 == j,
        ;
        lemma_pow2_unfold(j as nat);
    }
}

/// A power of two.
pub fn power(j: u32) -> (r: u128)
    requires
        j < 128,
    ensures
        r == pow2(j as nat),
        r > 0,
{
    proof {
        lemma_one_shl(j);
    }
    1u128 << j
}

/// Drops the low `s` digits of a number that has more of them than that, and
/// counts them.
fn drop_digits(m: u128, len: u32, s: u32, c: u128) -> (r: (u128, u32))
    requires
        c == pow2(s as nat),
        0 < s <= 64,
        len <= 1000,
        m < c * c,
    ensures
        r.1 + ratio::bit_len(r.0 as nat) == len + ratio::bit_len(m as nat),
        len <= r.1 <= len + s,
        r.0 < c,
{
    proof {
        lemma_pow2_pos(s as nat);
    }
    if m >= c {
        proof {
            ratio::lemma_bit_len_shift(m as nat, s as nat);
            assert(m / c < c) by (nonlinear_arith)
                requires
                    m < c * c,
                    c > 0,
            ;
        }
        (m / c, len + s)
    } else {
        (m, len)
    }
}

/// The number of binary digits of `n`.
pub fn length(n: u128) -> (len: u32)
    ensures
        len == ratio::bit_len(n as nat),
        len <= 128,
{
    proof {
        lemma2_to64();
        assert(0x1_0000_0000_0000_0000 * 0x1_0000_0000_0000_0000 > u128::MAX);
    }
    let m = n;
    let len: u32 = 0;
    let (m, len) = drop_digits(m, len, 64, 0x10000000000000000);
    let (m, len) = drop_digits(m, len, 32, 0x100000000);
    let (m, len) = drop_digits(m, len, 16, 0x10000);
    let (m, len) = drop_digits(m, len, 8, 0x100);
    let (m, len) = drop_digits(m, len, 4, 0x10);
    let (m, len) = drop_digits(m, len, 2, 0x4);
    let (m, len) = drop_digits(m, len, 1, 0x2);
    assert(ratio::bit_len(1) == 1) by {
        assert(ratio::bit_len(0) == 0);
    }
    len + m as u32
}

/// Whether `n` whole steps of `2^e` units, and a part of one more step just if
/// `sticky` is set, make up `num / den` units.
pub open spec fn brackets(n: nat, e: int, sticky: bool, num: nat, den: nat) -> bool {
    let up = pow2(if e < 0 { (-e) as nat } else { 0 });
    let step = pow2(if e < 0 { 0 } else { e as nat }) * den;
    &&& den > 0
    &&& n * step <= num * up < (n + 1) * step
    &&& sticky <==> num * up != n * step
}

/// The quantum of a bracketed ratio follows from the length of the bracket.
proof fn lemma_bracket_quantum(fmt: Format, n: nat, e: int, sticky: bool, num: nat, den: nat)
    requires
        fmt.valid(),
        n > 0,
        brackets(n, e, sticky, num, den),
    ensures
        ({
            let up = pow2(if e < 0 { (-e) as nat } else { 0 });
            let len = ratio::bit_len(n);
            fmt.quantum(num * up, den * up) == if e + len > fmt.prec {
                e + len - fmt.prec
            } else {
                0
            }
        }),
{
    let a: nat = if e < 0 { (-e) as nat } else { 0 };
    let b: nat = if e < 0 { 0 } else { e as nat };
    let up = pow2(a);
    let step = pow2(b) * den;
    let len = ratio::bit_len(n);
    let p = fmt.prec as nat;
    let x = num * up;
    let d = den * up;
    lemma_pow2_pos(a);
    lemma_pow2_pos(b);
    ratio::lemma_bit_len(n);
    assert(d > 0 && step > 0) by (nonlinear_arith)
        requires
            den > 0,
            up > 0,
            pow2(b) > 0,
            d == den * up,
            step == pow2(b) * den,
    ;
    assert(x < pow2(len) * step) by (nonlinear_arith)
        requires
            x < (n + 1) * step,
            n + 1 <= pow2(len),
            step > 0,
    ;
    let low = pow2((len - 1) as nat);
    assert(low * step <= x) by (nonlinear_arith)
        requires
            n * step <= x,
            low <= n,
            step > 0,
    ;
    if e + len > p {
        let kp = (e + len) as nat;
        lemma_pow2_adds(a, kp);
        lemma_pow2_adds(b, len);
        lemma_pow2_adds(a, (kp - 1) as nat);
        lemma_pow2_adds(b, (len - 1) as nat);
        assert(a + kp == b + len);
        assert(d * pow2(kp) == pow2(len) * step) by (nonlinear_arith)
            requires
                d == den * up,
                step == pow2(b) * den,
                up * pow2(kp) == pow2(b) * pow2(len),
        ;
        assert(d * pow2((kp - 1) as nat) == low * step) by (nonlinear_arith)
            requires
                d == den * up,
                step == pow2(b) * den,
                up * pow2((kp - 1) as nat) == pow2(b) * low,
        ;
        ratio::lemma_div_below(x, d, pow2(kp));
        ratio::lemma_div_at_least(x, d, pow2((kp - 1) as nat));
        ratio::lemma_bit_len_is(x / d, kp);
    } else {
        lemma_pow2_adds(a, p);
        lemma_pow2_adds(b, len);
        ratio::lemma_pow2_mono(b + len, a + p);
        assert(pow2(len) * step <= d * pow2(p)) by (nonlinear_arith)
            requires
                d == den * up,
                step == pow2(b) * den,
                pow2(b) * pow2(len) <= up * pow2(p),
                den > 0,
        ;
        ratio::lemma_div_below(x, d, pow2(p));
        ratio::lemma_bit_len_at_most(x / d, p);
    }
}

/// The steps of the bracket and the quantum are powers of two apart.
proof fn lemma_bracket_step(e: int, den: nat, k: nat)
    requires
        den > 0,
    ensures
        ({
            let up = pow2(if e < 0 { (-e) as nat } else { 0 });
            let step = pow2(if e < 0 { 0 } else { e as nat }) * den;
            &&& k >= e ==> (den * up) * pow2(k) == step * pow2((k - e) as nat)
            &&& k < e ==> step == ((den * up) * pow2(k)) * pow2((e - k) as nat)
        }),
{
    let a: nat = if e < 0 { (-e) as nat } else { 0 };
    let b: nat = if e < 0 { 0 } else { e as nat };
    let up = pow2(a);
    let step = pow2(b) * den;
    if k >= e {
        let j = (k - e) as nat;
        lemma_pow2_adds(a, k);
        lemma_pow2_adds(b, j);
        assert((den * up) * pow2(k) == step * pow2(j)) by (nonlinear_arith)
            requires
                step == pow2(b) * den,
                up * pow2(k) == pow2(b) * pow2(j),
        ;
    } else {
        let j = (e - k) as nat;
        lemma_pow2_adds(k, j);
        lemma2_to64();
        assert(step == ((den * up) * pow2(k)) * pow2(j)) by (nonlinear_arith)
            requires
                step == pow2(b) * den,
                up == 1,
                pow2(b) == pow2(k) * pow2(j),
        ;
    }
}

/// The code of the magnitude nearest to a bracketed ratio.
pub fn round_code(
    fmt: Format,
    n: u128,
    e: i32,
    sticky: bool,
    Ghost(num): Ghost<nat>,
    Ghost(den): Ghost<nat>,
) -> (code: u64)
    requires
        fmt.valid(),
        -8000 <= e <= 8000,
        n < pow2(127),
        brackets(n as nat, e as int, sticky, num, den),
        sticky ==> n >= pow2((fmt.prec + 1) as nat),
    ensures
        code == fmt.round(num, den),
{
    let ghost up = pow2(if e < 0 { (-e) as nat } else { 0 });
    let ghost step = pow2(if e < 0 { 0 } else { e as nat }) * den;
    let ghost x = num * up;
    let ghost d = den * up;
    proof {
        lemma_pow2_pos(if e < 0 { (-e) as nat } else { 0 });
        lemma_pow2_pos(if e < 0 { 0 } else { e as nat });
        ratio::lemma_round_scale(fmt, num, den, up);
        lemma2_to64();
        lemma2_to64_rest();
        assert(step > 0) by (nonlinear_arith)
            requires
                den > 0,
                pow2(if e < 0 { 0 } else { e as nat }) > 0,
                step == pow2(if e < 0 { 0 } else { e as nat }) * den,
        ;
    }
    if n == 0 {
        proof {
            assert(x == 0);
            assert(d > 0);
            assert(0nat / d == 0 && 0nat % d == 0) by (nonlinear_arith)
                requires
                    d > 0,
            ;
            assert(d * 1 == d);
            assert(fmt.round(x, d) == 0);
        }
        return 0;
    }
    let len = length(n);
    let p = fmt.prec as i32;
    let k: i32 = if e + len as i32 > p {
        e + len as i32 - p
    } else {
        0
    };
    proof {
        lemma_bracket_quantum(fmt, n as nat, e as int, sticky, num, den);
        lemma_bracket_step(e as int, den, k as nat);
        ratio::lemma_bit_len(n as nat);
        ratio::lemma_hidden(fmt);
    }
    assert(fmt.quantum(x, d) == k);
    let j: i32 = k - e;
    let single = fmt.prec == 24;
    let hidden: u64 = if single { 0x80_0000 } else { 0x10_0000_0000_0000 };
    let inf: u64 = if single { 0x7f80_0000 } else { 0x7ff0_0000_0000_0000 };
    if k >= 2047 || (single && k >= 255) {
        assert(k * hidden >= inf);
        return inf;
    }
    let m: u128 = if j <= 0 {
        proof {
            lemma_pow2_adds(len as nat, (-j) as nat);
            ratio::lemma_pow2_mono((len - j) as nat, p as nat);
            assert(!sticky) by {
                if sticky {
                    ratio::lemma_pow2_mono(len as nat, (p + 1) as nat);
                }
            }
            let z = d * pow2(k as nat);
            assert(x == (n * pow2((-j) as nat)) * z) by (nonlinear_arith)
                requires
                    x == n * step,
                    step == z * pow2((-j) as nat),
            ;
            assert(z > 0) by (nonlinear_arith)
                requires
                    step == z * pow2((-j) as nat),
                    step > 0,
                    z >= 0,
            ;
            lemma_fundamental_div_mod_converse(
                x as int,
                z as int,
                (n * pow2((-j) as nat)) as int,
                0,
            );
            assert(n * pow2((-j) as nat) < pow2(p as nat)) by (nonlinear_arith)
                requires
                    n < pow2(len as nat),
                    pow2(len as nat) * pow2((-j) as nat) <= pow2(p as nat),
                    pow2((-j) as nat) > 0,
            {
            }
            assert((-j) < 64) by {
                if (-j) >= 64 {
                    ratio::lemma_pow2_mono(64, (-j) as nat);
                    assert(n * pow2((-j) as nat) >= pow2((-j) as nat)) by (nonlinear_arith)
                        requires
                            n >= 1,
                    ;
                }
            }
        }
        n * power((-j) as u32)
    } else {
        let ghost t = (x - n * step) as nat;
        proof {
            assert(t < step) by (nonlinear_arith)
                requires
                    x < (n + 1) * step,
                    t == x - n * step,
            ;
            assert(x == n * step + t);
            ratio::lemma_half_even_steps(n as nat, j as nat, step, t);
            lemma_pow2_unfold(j as nat);
            lemma_pow2_pos(j as nat);
            lemma_pow2_adds(p as nat, j as nat);
            ratio::lemma_pow2_mono(len as nat, (p + j) as nat);
            ratio::lemma_div_below(n as nat, pow2(j as nat), pow2(p as nat));
        }
        if j >= 128 {
            proof {
                ratio::lemma_pow2_mono(127, (j - 1) as nat);
                assert(n < pow2(j as nat));
                lemma_fundamental_div_mod_converse(n as int, pow2(j as nat) as int, 0, n as int);
            }
            0
        } else {
            let c = power(j as u32);
            let f = n / c;
            let r = n % c;
            let half = c / 2;
            if r < half {
                f
            } else if r > half || sticky {
                f + 1
            } else {
                f + f % 2
            }
        }
    };
    assert(m == ratio::half_even(x, d * pow2(k as nat)));
    assert(m <= pow2(p as nat));
    assert(k * hidden <= 2046 * 0x10_0000_0000_0000) by (nonlinear_arith)
        requires
            0 <= k <= 2046,
            0 < hidden <= 0x10_0000_0000_0000,
    ;
    let code = k as u64 * hidden + m as u64;
    if code < inf {
        code
    } else {
        inf
    }
}

} // verus!
