//! Square roots.

use crate::float::code;
use crate::float::kernel;
use crate::float::ratio;
use crate::float::ratio::Format;
use vstd::arithmetic::div_mod::*;
use vstd::arithmetic::power2::*;
use vstd::prelude::*;

verus! {

/// Whether `r` is the square root of `n`, rounded down.
pub open spec fn is_root(r: nat, n: nat) -> bool {
    r * r <= n < (r + 1) * (r + 1)
}

/// The square root of `n`, rounded down.
pub open spec fn floor_root(n: nat) -> nat {
    choose|r: nat| is_root(r, n)
}

/// There is exactly one rounded-down root.
pub proof fn lemma_root_unique(r: nat, n: nat)
    requires
        is_root(r, n),
    ensures
        floor_root(n) == r,
{
    let f = floor_root(n);
    assert(is_root(f, n));
    if f < r {
        assert((f + 1) * (f + 1) <= r * r) by (nonlinear_arith)
            requires
                f + 1 <= r,
        ;
    } else if r < f {
        assert((r + 1) * (r + 1) <= f * f) by (nonlinear_arith)
            requires
                r + 1 <= f,
        ;
    }
}

/// The rounded-down root of every number is one.
pub proof fn lemma_floor_root(n: nat)
    ensures
        is_root(floor_root(n), n),
    decreases n,
{
    if n == 0 {
        assert(is_root(0, 0)) by (nonlinear_arith);
    } else {
        let m = (n - 1) as nat;
        lemma_floor_root(m);
        let r = floor_root(m);
        assert((r + 1) * (r + 1) == r * r + 2 * r + 1) by (nonlinear_arith);
        assert((r + 2) * (r + 2) == r * r + 4 * r + 4) by (nonlinear_arith);
        if n < (r + 1) * (r + 1) {
            assert(is_root(r, n));
        } else {
            assert(is_root(r + 1, n));
        }
    }
}

impl Format {
    /// The square root of a finite magnitude that is not below zero.
    ///
    /// The exact root is `sqrt(n)` units. It is written as half of its double
    /// where that is a whole number, and halfway between the two whole numbers
    /// around its double where it is not: rounding cannot tell the two apart,
    /// since every value and every tie is a whole number of half units.
    pub open spec fn root_code(self, mag: nat) -> nat {
        let n = self.units(mag) * pow2(self.unit as nat);
        let f = floor_root(4 * n);
        if f * f == 4 * n {
            self.round(f, 2)
        } else {
            self.round(2 * f + 1, 4)
        }
    }

    /// `sqrt(a)`.
    pub open spec fn spec_root(self, a: u64) -> u64 {
        if self.is_nan(a) {
            self.nan()
        } else if self.mag(a) == 0 {
            a
        } else if self.neg(a) {
            self.nan()
        } else if self.is_inf(a) {
            a
        } else {
            self.join(false, self.root_code(self.mag(a)))
        }
    }

    /// `sqrt(a)`.
    pub fn root(self, a: u64) -> (r: u64)
        requires
            self.valid(),
            self.holds(a),
        ensures
            r == self.spec_root(a),
            self.holds(r),
    {
        let (neg, mag) = self.split(a);
        let top = self.top();
        if mag > top {
            return self.not_a_number();
        }
        if mag == 0 {
            return a;
        }
        if neg {
            return self.not_a_number();
        }
        if mag == top {
            return a;
        }
        let parts = self.decode(mag);
        let m = parts.mant;
        let len = kernel::length(m as u128);
        let total: u32 = parts.expo as u32 + self.unit as u32;
        let ghost x = self.units(mag as nat);
        let ghost u = self.unit as nat;
        let ghost n: nat = x * pow2(u);
        proof {
            lemma2_to64();
            lemma2_to64_rest();
            ratio::lemma_hidden(self);
            ratio::lemma_pow2_mono(self.prec as nat, 53);
            ratio::lemma_bit_len(m as nat);
            ratio::lemma_bit_len_at_most(m as nat, self.prec as nat);
            if parts.expo > 0 {
                ratio::lemma_bit_len_is(m as nat, self.prec as nat);
            }
        }
        // The significand is shifted to 125 or 126 digits, so that the rest of
        // the exponent is even.
        let s: u32 = if (total + len + 126) % 2 == 0 {
            126 - len
        } else {
            125 - len
        };
        assert((total - s) % 2 == 0);
        assert(total >= s + 2);
        let ghost c = pow2(s as nat);
        proof {
            lemma_pow2_pos(s as nat);
            lemma_pow2_adds((len - 1) as nat, s as nat);
            lemma_pow2_adds(len as nat, s as nat);
            ratio::lemma_pow2_mono(124, (len - 1 + s) as nat);
            ratio::lemma_pow2_mono((len + s) as nat, 126);
            ratio::lemma_pow2_mono(126, 127);
            code::lemma_max_u128();
            assert(pow2(124) <= m * c < pow2(126)) by (nonlinear_arith)
                requires
                    pow2((len - 1) as nat) <= m < pow2(len as nat),
                    pow2((len - 1) as nat) * c == pow2((len - 1 + s) as nat),
                    pow2(len as nat) * c == pow2((len + s) as nat),
                    pow2(124) <= pow2((len - 1 + s) as nat),
                    pow2((len + s) as nat) <= pow2(126),
                    c > 0,
            ;
        }
        let w = m as u128 * kernel::power(s);
        let r = whole_root(w);
        let e: i32 = (total - s) as i32 / 2;
        let sticky = (r as u128) * (r as u128) != w;
        let ghost f = floor_root(4 * n);
        let ghost (num, den): (nat, nat) = if f * f == 4 * n {
            (f, 2)
        } else {
            (2 * f + 1, 4)
        };
        proof {
            let step = pow2(e as nat);
            lemma_pow2_pos(e as nat);
            lemma_pow2_adds(parts.expo as nat, u);
            lemma_pow2_adds(s as nat, (total - s) as nat);
            lemma_pow2_adds(e as nat, e as nat);
            assert(e + e == total - s);
            assert(n == w * (step * step)) by (nonlinear_arith)
                requires
                    n == (m * pow2(parts.expo as nat)) * pow2(u),
                    pow2(parts.expo as nat) * pow2(u) == c * (step * step),
                    w == m * c,
            ;
            lemma_scaled_root(r as nat, w as nat, step, n);
            lemma_pow2_adds(62, 62);
            assert(r >= pow2(62)) by (nonlinear_arith)
                requires
                    pow2(124) <= w < (r + 1) * (r + 1),
                    pow2(62) * pow2(62) == pow2(124),
            ;
            ratio::lemma_pow2_mono((self.prec + 1) as nat, 62);
            ratio::lemma_pow2_mono(64, 127);
            assert(pow2(0) == 1);
            assert(num * 1 == num);
            assert(r * (step * den) == r * step * den) by (nonlinear_arith);
            assert((r + 1) * (step * den) == (r + 1) * step * den) by (nonlinear_arith);
            assert(kernel::brackets(r as nat, e as int, sticky, num, den));
        }
        let code = kernel::round_code(self, r as u128, e, sticky, Ghost(num), Ghost(den));
        self.unsplit(false, code)
    }
}

/// Roots scale with the square of a factor.
proof fn lemma_scaled_root(r: nat, w: nat, step: nat, n: nat)
    requires
        is_root(r, w),
        step > 0,
        n == w * (step * step),
    ensures
        ({
            let f = floor_root(4 * n);
            if f * f == 4 * n {
                &&& r * step * 2 <= f < (r + 1) * step * 2
                &&& (r * r != w) == (f != r * step * 2)
            } else {
                &&& r * step * 4 <= 2 * f + 1 < (r + 1) * step * 4
                &&& r * r != w
                &&& 2 * f + 1 != r * step * 4
            }
        }),
{
    let f = floor_root(4 * n);
    lemma_floor_root(4 * n);
    let lo = r * step * 2;
    let hi = (r + 1) * step * 2;
    assert(lo * lo <= 4 * n) by (nonlinear_arith)
        requires
            lo == r * step * 2,
            r * r <= w,
            n == w * (step * step),
    ;
    assert(4 * n < hi * hi) by (nonlinear_arith)
        requires
            hi == (r + 1) * step * 2,
            w + 1 <= (r + 1) * (r + 1),
            n == w * (step * step),
            step > 0,
    ;
    assert(lo <= f) by (nonlinear_arith)
        requires
            lo * lo <= 4 * n,
            4 * n < (f + 1) * (f + 1),
    ;
    assert(f < hi) by (nonlinear_arith)
        requires
            f * f <= 4 * n,
            4 * n < hi * hi,
            hi >= 0,
    ;
    if r * r == w {
        assert(lo * lo == 4 * n) by (nonlinear_arith)
            requires
                lo == r * step * 2,
                r * r == w,
                n == w * (step * step),
        ;
        assert(is_root(lo, 4 * n)) by (nonlinear_arith)
            requires
                lo * lo == 4 * n,
        ;
        lemma_root_unique(lo, 4 * n);
    } else {
        assert(lo * lo < 4 * n) by (nonlinear_arith)
            requires
                lo == r * step * 2,
                r * r + 1 <= w,
                n == w * (step * step),
                step > 0,
        ;
    }
    assert(r * step * 4 == 2 * lo) by (nonlinear_arith)
        requires
            lo == r * step * 2,
    ;
    assert((r + 1) * step * 4 == 2 * hi) by (nonlinear_arith)
        requires
            hi == (r + 1) * step * 2,
    ;
}

/// The square root of a whole number, rounded down.
fn whole_root(n: u128) -> (r: u64)
    requires
        n < pow2(126),
    ensures
        is_root(r as nat, n as nat),
{
    let mut r: u64 = 0;
    let mut bit: u64 = 0x4000_0000_0000_0000;
    let mut j: u32 = 63;
    proof {
        lemma2_to64();
        lemma2_to64_rest();
        lemma_pow2_adds(63, 63);
        code::lemma_max_u128();
    }
    while j > 0
        invariant
            j <= 63,
            j > 0 ==> bit == pow2((j - 1) as nat),
            r * r <= n,
            n < (r + pow2(j as nat)) * (r + pow2(j as nat)),
            r + pow2(j as nat) <= pow2(63),
            pow2(63) == 0x8000_0000_0000_0000,
            pow2(63) * pow2(63) == pow2(126),
            pow2(126) <= u128::MAX,
            pow2(0) == 1,
        decreases j,
    {
        proof {
            lemma_pow2_unfold(j as nat);
        }
        let t: u64 = r + bit;
        proof {
            assert(t * t <= pow2(63) * pow2(63)) by (nonlinear_arith)
                requires
                    0 <= t <= pow2(63),
            ;
            if j > 1 {
                lemma_pow2_unfold((j - 1) as nat);
            }
        }
        if (t as u128) * (t as u128) <= n {
            r = t;
        }
        bit = bit / 2;
        j = j - 1;
    }
    r
}

} // verus!
