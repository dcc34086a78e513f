//! Conversions between the formats and whole numbers.

use crate::float::code;
use crate::float::code::Whole;
use crate::float::kernel;
use crate::float::order;
use crate::float::ratio;
use crate::float::ratio::Format;
use vstd::arithmetic::div_mod::*;
use vstd::arithmetic::power2::*;
use vstd::prelude::*;

verus! {

/// The largest whole number that the conversions return.
pub open spec fn saturated(n: nat) -> u64 {
    if n > u64::MAX {
        u64::MAX
    } else {
        n as u64
    }
}

impl Format {
    /// `bits` moved to a whole number of the same format: down where `up` is
    /// not set, up where it is.
    pub open spec fn spec_integral(self, bits: u64, up: bool) -> u64 {
        if self.is_nan(bits) {
            self.nan()
        } else if self.is_inf(bits) {
            bits
        } else {
            let how = if self.neg(bits) != up {
                Whole::Outward
            } else {
                Whole::Trunc
            };
            let n = self.whole(self.mag(bits), how);
            self.join(self.neg(bits), self.round(n * pow2(self.unit as nat), 1))
        }
    }

    /// The whole number `n`.
    pub fn from_int(self, n: u64) -> (r: u64)
        requires
            self.valid(),
        ensures
            r == self.spec_from_int(n as nat),
            self.holds(r),
    {
        let ghost u = self.unit as nat;
        let ghost num = n as nat * pow2(u);
        proof {
            lemma2_to64();
            ratio::lemma_pow2_mono(64, 127);
            lemma2_to64_rest();
            assert(num * pow2(0) == n as nat * (pow2(u) * 1));
            code::lemma_exact(n as nat, u as int, num, 1, 0, u);
        }
        let code = kernel::round_code(
            self,
            n as u128,
            self.unit as i32,
            false,
            Ghost(num),
            Ghost(1),
        );
        self.unsplit(false, code)
    }

    /// The same value in another format.
    pub fn convert(self, to: Format, bits: u64) -> (r: u64)
        requires
            self.valid(),
            to.valid(),
            self.holds(bits),
        ensures
            r == self.spec_convert(to, bits),
            to.holds(r),
    {
        let (neg, mag) = self.split(bits);
        let top = self.top();
        if mag > top {
            return to.not_a_number();
        }
        if mag == top {
            let far = to.top();
            return to.unsplit(neg, far);
        }
        let parts = self.decode(mag);
        let e: i32 = parts.expo as i32 + to.unit as i32 - self.unit as i32;
        let ghost num = self.units(mag as nat) * pow2(to.unit as nat);
        let ghost den = pow2(self.unit as nat);
        proof {
            let lo: nat = if e < 0 { (-e) as nat } else { 0 };
            let hi: nat = if e < 0 { 0 } else { e as nat };
            let k = parts.expo as nat;
            let (t, f) = (to.unit as nat, self.unit as nat);
            lemma2_to64();
            ratio::lemma_pow2_mono(64, 127);
            lemma2_to64_rest();
            lemma_pow2_pos(f);
            lemma_pow2_adds(k, t);
            lemma_pow2_adds(k + t, lo);
            lemma_pow2_adds(hi, f);
            assert(k + t + lo == hi + f);
            assert(num * pow2(lo) == parts.mant as nat * (pow2(hi) * den)) by (nonlinear_arith)
                requires
                    num == (parts.mant as nat * pow2(k)) * pow2(t),
                    (pow2(k) * pow2(t)) * pow2(lo) == pow2(hi) * den,
            ;
            code::lemma_exact(parts.mant as nat, e as int, num, den, lo, hi);
        }
        let code = kernel::round_code(to, parts.mant as u128, e, false, Ghost(num), Ghost(den));
        to.unsplit(neg, code)
    }

    /// The whole number that a finite magnitude is moved to, or the largest one
    /// that fits where it does not fit.
    pub fn to_whole(self, mag: u64, how: Whole) -> (r: u64)
        requires
            self.valid(),
            mag < self.inf(),
        ensures
            r == saturated(self.whole(mag as nat, how)),
    {
        let parts = self.decode(mag);
        let m = parts.mant;
        let ghost k = parts.expo as nat;
        let ghost u = self.unit as nat;
        let ghost one = pow2(u);
        let ghost x = self.units(mag as nat);
        proof {
            lemma2_to64();
            lemma2_to64_rest();
            lemma_pow2_pos(u);
            lemma_pow2_pos(k);
            ratio::lemma_hidden(self);
        }
        if parts.expo >= self.unit {
            let s = parts.expo - self.unit;
            let ghost w: nat = m as nat * pow2(s as nat);
            proof {
                lemma_pow2_adds(s as nat, u);
                assert(x == w * one) by (nonlinear_arith)
                    requires
                        x == m * pow2(k),
                        pow2(k) == pow2(s as nat) * one,
                        w == m * pow2(s as nat),
                ;
                lemma_whole_exact(self, mag as nat, w);
                lemma_pow2_pos(s as nat);
            }
            if m == 0 {
                assert(w == 0) by (nonlinear_arith)
                    requires
                        w == m * pow2(s as nat),
                        m == 0,
                ;
                return 0;
            }
            if s >= 64 {
                proof {
                    ratio::lemma_pow2_mono(64, s as nat);
                    assert(w >= pow2(s as nat)) by (nonlinear_arith)
                        requires
                            w == m * pow2(s as nat),
                            m >= 1,
                    ;
                }
                return u64::MAX;
            }
            proof {
                code::lemma_max_u128();
                lemma_pow2_adds(53, 63);
                ratio::lemma_pow2_mono(s as nat, 63);
                ratio::lemma_pow2_mono(116, 127);
                ratio::lemma_pow2_mono(self.prec as nat, 53);
                assert(w < pow2(116)) by (nonlinear_arith)
                    requires
                        w == m * pow2(s as nat),
                        m < pow2(53),
                        pow2(s as nat) <= pow2(63),
                        pow2(53) * pow2(63) == pow2(116),
                        pow2(63) > 0,
                ;
            }
            let v = m as u128 * kernel::power(s as u32);
            if v > u64::MAX as u128 {
                u64::MAX
            } else {
                v as u64
            }
        } else {
            let s = self.unit - parts.expo;
            let ghost c = pow2(s as nat);
            proof {
                lemma_pow2_adds(s as nat, k);
                lemma_pow2_pos(s as nat);
                lemma_whole_shifted(self, mag as nat, m as nat, k, s as nat);
                ratio::lemma_pow2_mono(self.prec as nat, 53);
            }
            if s >= 64 {
                proof {
                    ratio::lemma_pow2_mono(64, s as nat);
                    lemma_fundamental_div_mod_converse(m as int, c as int, 0, m as int);
                }
                return match how {
                    Whole::Trunc => 0,
                    Whole::Outward => if m > 0 {
                        1
                    } else {
                        0
                    },
                    Whole::Nearest => 0,
                };
            }
            proof {
                ratio::lemma_pow2_mono(s as nat, 63);
            }
            let d = kernel::power(s as u32) as u64;
            let q = m / d;
            let r = m % d;
            proof {
                lemma_fundamental_div_mod(m as int, d as int);
                assert(q <= m) by (nonlinear_arith)
                    requires
                        m == d * q + r,
                        d > 0,
                        q >= 0,
                        r >= 0,
                ;
            }
            match how {
                Whole::Trunc => q,
                Whole::Outward => if r > 0 {
                    q + 1
                } else {
                    q
                },
                Whole::Nearest => if r >= d - r {
                    q + 1
                } else {
                    q
                },
            }
        }
    }

    /// `bits` moved to a whole number of the same format.
    pub fn integral(self, bits: u64, up: bool) -> (r: u64)
        requires
            self.valid(),
            self.holds(bits),
        ensures
            r == self.spec_integral(bits, up),
            self.holds(r),
    {
        let (neg, mag) = self.split(bits);
        let top = self.top();
        if mag > top {
            return self.not_a_number();
        }
        if mag == top {
            return bits;
        }
        let how = if neg != up {
            Whole::Outward
        } else {
            Whole::Trunc
        };
        let parts = self.decode(mag);
        let ghost u = self.unit as nat;
        if parts.expo >= self.unit {
            proof {
                let s = (parts.expo - self.unit) as nat;
                let w = parts.mant as nat * pow2(s);
                lemma_pow2_adds(s, u);
                assert(self.units(mag as nat) == w * pow2(u)) by (nonlinear_arith)
                    requires
                        self.units(mag as nat) == parts.mant * pow2(parts.expo as nat),
                        pow2(parts.expo as nat) == pow2(s) * pow2(u),
                        w == parts.mant * pow2(s),
                ;
                lemma_whole_exact(self, mag as nat, w);
                order::lemma_round_exact(self, mag as nat);
            }
            return bits;
        }
        proof {
            let s = (self.unit - parts.expo) as nat;
            lemma_whole_shifted(self, mag as nat, parts.mant as nat, parts.expo as nat, s);
            lemma_pow2_pos(s);
            lemma_fundamental_div_mod(parts.mant as int, pow2(s) as int);
            let (q, r) = (parts.mant as nat / pow2(s), parts.mant as nat % pow2(s));
            assert(q <= parts.mant) by (nonlinear_arith)
                requires
                    parts.mant == pow2(s) * q + r,
                    pow2(s) >= 1,
                    q >= 0,
                    r >= 0,
            ;
        }
        let n = self.to_whole(mag, how);
        let moved = self.from_int(n);
        proof {
            code::lemma_round_bound(self, n as nat * pow2(u), 1);
        }
        let (_, code) = self.split(moved);
        self.unsplit(neg, code)
    }
}

/// A magnitude that is a whole number is moved nowhere.
proof fn lemma_whole_exact(fmt: Format, mag: nat, w: nat)
    requires
        fmt.units(mag) == w * pow2(fmt.unit as nat),
    ensures
        fmt.whole(mag, Whole::Trunc) == w,
        fmt.whole(mag, Whole::Outward) == w,
        fmt.whole(mag, Whole::Nearest) == w,
{
    let one = pow2(fmt.unit as nat);
    lemma_pow2_pos(fmt.unit as nat);
    lemma_fundamental_div_mod_converse((w * one) as int, one as int, w as int, 0);
    lemma_fundamental_div_mod_converse(w * one + one - 1, one as int, w as int, one - 1);
    assert(2 * (w * one) + one == w * (2 * one) + one) by (nonlinear_arith);
    lemma_fundamental_div_mod_converse(
        (2 * (w * one) + one) as int,
        (2 * one) as int,
        w as int,
        one as int,
    );
}

/// Where the last digits of a magnitude are below one, they are dropped from its
/// significand.
proof fn lemma_whole_shifted(fmt: Format, mag: nat, m: nat, k: nat, s: nat)
    requires
        fmt.units(mag) == m * pow2(k),
        s > 0,
        s + k == fmt.unit,
    ensures
        ({
            let c = pow2(s);
            let (q, r) = (m / c, m % c);
            &&& fmt.whole(mag, Whole::Trunc) == q
            &&& fmt.whole(mag, Whole::Outward) == if r > 0 {
                q + 1
            } else {
                q
            }
            &&& fmt.whole(mag, Whole::Nearest) == if 2 * r >= c {
                q + 1
            } else {
                q
            }
        }),
{
    let c = pow2(s);
    let z = pow2(k);
    let one = pow2(fmt.unit as nat);
    let x = m * z;
    let (q, r) = (m / c, m % c);
    lemma_pow2_adds(s, k);
    lemma_pow2_pos(s);
    lemma_pow2_pos(k);
    lemma_fundamental_div_mod(m as int, c as int);
    assert(x == q * one + r * z) by (nonlinear_arith)
        requires
            x == m * z,
            m == c * q + r,
            one == c * z,
    ;
    assert(0 <= r * z && r * z + z <= one) by (nonlinear_arith)
        requires
            0 <= r,
            r + 1 <= c,
            one == c * z,
            z > 0,
    ;
    lemma_fundamental_div_mod_converse(x as int, one as int, q as int, (r * z) as int);
    if r > 0 {
        assert(r * z >= z) by (nonlinear_arith)
            requires
                r >= 1,
        ;
        assert((q + 1) * one == q * one + one) by (nonlinear_arith);
        lemma_fundamental_div_mod_converse(
            x + one - 1,
            one as int,
            (q + 1) as int,
            r * z - 1,
        );
    } else {
        assert(r * z == 0) by (nonlinear_arith)
            requires
                r == 0,
        ;
        lemma_fundamental_div_mod_converse(x + one - 1, one as int, q as int, one - 1);
    }
    assert((2 * r >= c) == (2 * (r * z) >= one)) by (nonlinear_arith)
        requires
            one == c * z,
            z > 0,
    ;
    assert(2 * (q * one) == q * (2 * one)) by (nonlinear_arith);
    if 2 * r >= c {
        assert((q + 1) * (2 * one) == q * (2 * one) + 2 * one) by (nonlinear_arith);
        lemma_fundamental_div_mod_converse(
            (2 * x + one) as int,
            (2 * one) as int,
            (q + 1) as int,
            2 * (r * z) - one,
        );
    } else {
        lemma_fundamental_div_mod_converse(
            (2 * x + one) as int,
            (2 * one) as int,
            q as int,
            (2 * (r * z) + one) as int,
        );
    }
}

} // verus!
