//! Rounding of exact ratios to a binary floating-point format.
//!
//! A finite magnitude of a format is a whole number of *units*, where one unit
//! is the smallest positive value of the format. Its encoding without the sign
//! bit is called the magnitude code here. Codes are ordered as the magnitudes
//! that they stand for, and the code after the last finite one is infinity.

use vstd::arithmetic::div_mod::*;
use vstd::arithmetic::power2::*;
use vstd::prelude::*;

verus! {

/// A binary interchange format: how many bits its significand has, and which
/// power of one half its unit is.
#[derive(Clone, Copy)]
pub struct Format {
    pub prec: u64,
    pub unit: u64,
}

impl Format {
    /// One of the two formats of IEEE 754 that are in use here.
    pub open spec fn valid(self) -> bool {
        ||| self.prec == 24 && self.unit == 149
        ||| self.prec == 53 && self.unit == 1074
    }

    /// The weight of the leading significand bit of a normal number.
    pub open spec fn hidden(self) -> nat {
        if self.prec == 24 {
            0x80_0000
        } else {
            0x10_0000_0000_0000
        }
    }

    /// The magnitude code of infinity.
    pub open spec fn inf(self) -> nat {
        if self.prec == 24 {
            0x7f80_0000
        } else {
            0x7ff0_0000_0000_0000
        }
    }

    /// The significand of a magnitude code.
    pub open spec fn mant(self, code: nat) -> nat {
        if code < self.hidden() {
            code
        } else {
            code % self.hidden() + self.hidden()
        }
    }

    /// The power of two that the significand of a magnitude code is scaled by.
    pub open spec fn expo(self, code: nat) -> nat {
        if code < self.hidden() {
            0
        } else {
            (code / self.hidden() - 1) as nat
        }
    }

    /// The magnitude that a finite code stands for, in units.
    pub open spec fn units(self, code: nat) -> nat {
        self.mant(code) * pow2(self.expo(code))
    }

    /// The exponent of the quantum, the spacing of the format's values, in the
    /// neighbourhood of `num / den` units.
    pub open spec fn quantum(self, num: nat, den: nat) -> nat {
        let len = bit_len(num / den);
        if len > self.prec {
            (len - self.prec) as nat
        } else {
            0
        }
    }

    /// The code of the magnitude nearest to `num / den` units, the one with an
    /// even significand where two are equally near, and infinity above the
    /// largest finite magnitude.
    pub open spec fn round(self, num: nat, den: nat) -> nat {
        let k = self.quantum(num, den);
        let code = k * self.hidden() + half_even(num, den * pow2(k));
        if code < self.inf() {
            code
        } else {
            self.inf()
        }
    }
}

/// The number of binary digits of `n`.
pub open spec fn bit_len(n: nat) -> nat
    decreases n,
{
    if n == 0 {
        0
    } else {
        1 + bit_len(n / 2)
    }
}

/// `num / den` rounded to a whole number, halves to the even neighbour.
pub open spec fn half_even(num: nat, den: nat) -> nat {
    let floor = num / den;
    let twice = 2 * (num % den);
    if twice < den {
        floor
    } else if twice > den {
        floor + 1
    } else {
        floor + floor % 2
    }
}

/// The leading bit of a normal number is a power of two.
pub proof fn lemma_hidden(fmt: Format)
    requires
        fmt.valid(),
    ensures
        fmt.hidden() == pow2((fmt.prec - 1) as nat),
        2 * fmt.hidden() == pow2(fmt.prec as nat),
{
    vstd::arithmetic::power2::lemma2_to64();
    vstd::arithmetic::power2::lemma2_to64_rest();
}

/// A number lies between the powers of two that its length names.
pub proof fn lemma_bit_len(n: nat)
    ensures
        n < pow2(bit_len(n)),
        n > 0 ==> bit_len(n) > 0 && pow2((bit_len(n) - 1) as nat) <= n,
    decreases n,
{
    lemma_pow2_pos(0);
    if n > 0 {
        lemma_bit_len(n / 2);
        lemma_pow2_unfold(bit_len(n));
        if n / 2 > 0 {
            lemma_pow2_unfold(bit_len(n / 2));
        } else {
            vstd::arithmetic::power2::lemma2_to64();
        }
    }
}

/// The length is determined by the powers of two around the number.
pub proof fn lemma_bit_len_is(n: nat, len: nat)
    requires
        len > 0,
        pow2((len - 1) as nat) <= n < pow2(len),
    ensures
        bit_len(n) == len,
{
    lemma_bit_len(n);
    lemma_pow2_pos((len - 1) as nat);
    let l = bit_len(n);
    if l < len {
        lemma_pow2_mono(l, (len - 1) as nat);
    } else if len < l {
        lemma_pow2_mono(len, (l - 1) as nat);
    }
}

/// A number below a power of two is no longer than its exponent.
pub proof fn lemma_bit_len_at_most(n: nat, len: nat)
    requires
        n < pow2(len),
    ensures
        bit_len(n) <= len,
{
    lemma_bit_len(n);
    if bit_len(n) > len {
        lemma_pow2_mono(len, (bit_len(n) - 1) as nat);
    }
}

/// Powers of two grow with their exponents.
pub proof fn lemma_pow2_mono(a: nat, b: nat)
    requires
        a <= b,
    ensures
        pow2(a) <= pow2(b),
{
    if a < b {
        lemma_pow2_strictly_increases(a, b);
    }
}

/// Dropping the low digits of a number shortens it by as many.
pub proof fn lemma_bit_len_shift(n: nat, s: nat)
    requires
        n >= pow2(s),
    ensures
        bit_len(n) == s + bit_len(n / pow2(s)),
    decreases s,
{
    if s == 0 {
        lemma2_to64();
        assert(n / 1 == n);
    } else {
        lemma_pow2_unfold(s);
        let t = (s - 1) as nat;
        lemma_pow2_pos(t);
        assert(n / 2 >= pow2(t));
        lemma_bit_len_shift(n / 2, t);
        lemma_div_denominator(n as int, 2, pow2(t) as int);
        assert(n / 2 / pow2(t) == n / pow2(s));
    }
}

/// A common factor of both sides leaves quotient and remainder in place.
pub proof fn lemma_scale_div(num: nat, den: nat, c: nat)
    requires
        den > 0,
        c > 0,
    ensures
        den * c > 0,
        (num * c) / (den * c) == num / den,
        (num * c) % (den * c) == (num % den) * c,
{
    let q = (num / den) as int;
    let r = (num % den) as int;
    lemma_fundamental_div_mod(num as int, den as int);
    assert(num * c == q * (den * c) + r * c) by (nonlinear_arith)
        requires
            num == den * q + r,
    ;
    assert(0 <= r * c < den * c && den * c > 0) by (nonlinear_arith)
        requires
            0 <= r < den,
            c > 0,
    ;
    lemma_fundamental_div_mod_converse((num * c) as int, (den * c) as int, q, r * c);
}

/// Rounding looks at a ratio, not at how it is written.
pub proof fn lemma_round_scale(fmt: Format, num: nat, den: nat, c: nat)
    requires
        den > 0,
        c > 0,
    ensures
        den * c > 0,
        fmt.round(num * c, den * c) == fmt.round(num, den),
{
    lemma_scale_div(num, den, c);
    let k = fmt.quantum(num, den);
    let step = den * pow2(k);
    lemma_pow2_pos(k);
    assert(step > 0) by (nonlinear_arith)
        requires
            step == den * pow2(k),
            den > 0,
            pow2(k) > 0,
    ;
    lemma_scale_div(num, step, c);
    assert((den * c) * pow2(k) == step * c) by (nonlinear_arith)
        requires
            step == den * pow2(k),
    ;
    let r = num % step;
    assert((2 * (r * c) < step * c) == (2 * r < step)) by (nonlinear_arith)
        requires
            c > 0,
    ;
    assert((2 * (r * c) > step * c) == (2 * r > step)) by (nonlinear_arith)
        requires
            c > 0,
    ;
}

/// A quotient is below a bound that the dividend is below.
pub proof fn lemma_div_below(x: nat, d: nat, y: nat)
    requires
        d > 0,
        x < d * y,
    ensures
        x / d < y,
{
    lemma_fundamental_div_mod(x as int, d as int);
    let q = x / d;
    let r = x % d;
    assert(q < y) by (nonlinear_arith)
        requires
            d * q + r < d * y,
            r >= 0,
            d > 0,
    ;
}

/// A quotient is at least a bound that the dividend is at least.
pub proof fn lemma_div_at_least(x: nat, d: nat, y: nat)
    requires
        d > 0,
        d * y <= x,
    ensures
        y <= x / d,
{
    lemma_fundamental_div_mod(x as int, d as int);
    let q = x / d;
    let r = x % d;
    assert(y <= q) by (nonlinear_arith)
        requires
            d * y <= d * q + r,
            r < d,
            d > 0,
    ;
}

/// Rounding at `2^j` steps looks at the whole steps and at whether there is
/// anything beyond them.
pub proof fn lemma_half_even_steps(n: nat, j: nat, w: nat, t: nat)
    requires
        j > 0,
        t < w,
    ensures
        ({
            let f = n / pow2(j);
            let r = n % pow2(j);
            let half = pow2((j - 1) as nat);
            half_even(n * w + t, w * pow2(j)) == if r < half {
                f
            } else if r > half || t > 0 {
                f + 1
            } else {
                f + f % 2
            }
        }),
{
    let c = pow2(j);
    let f = n / c;
    let r = n % c;
    let half = pow2((j - 1) as nat);
    lemma_pow2_pos(j);
    lemma_pow2_unfold(j);
    lemma_fundamental_div_mod(n as int, c as int);
    assert(n * w + t == f * (w * c) + (r * w + t)) by (nonlinear_arith)
        requires
            n == c * f + r,
    ;
    assert(0 <= r * w + t < w * c) by (nonlinear_arith)
        requires
            0 <= r < c,
            0 <= t < w,
    ;
    lemma_fundamental_div_mod_converse(
        (n * w + t) as int,
        (w * c) as int,
        f as int,
        (r * w + t) as int,
    );
    if r < half {
        assert(2 * (r * w + t) < w * c) by (nonlinear_arith)
            requires
                r + 1 <= half,
                c == 2 * half,
                t < w,
        ;
    } else if r > half {
        assert(2 * (r * w + t) > w * c) by (nonlinear_arith)
            requires
                r >= half + 1,
                c == 2 * half,
                0 <= t < w,
        ;
    } else {
        assert(2 * (r * w + t) == w * c + 2 * t) by (nonlinear_arith)
            requires
                r == half,
                c == 2 * half,
        ;
    }
}

} // verus!
