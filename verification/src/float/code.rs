//! Arithmetic on the encodings of a binary interchange format.
//!
//! An encoding is a sign bit on top of a magnitude code. Every function is
//! total: what it returns on infinities and on values that are not numbers is
//! what IEEE 754 asks for, with one fixed encoding for "not a number".

use crate::float::kernel;
use crate::float::ratio;
use crate::float::ratio::Format;
use vstd::arithmetic::div_mod::*;
use vstd::arithmetic::power2::*;
use vstd::prelude::*;

verus! {

/// Where a value is cut or moved to a whole number.
#[derive(Clone, Copy, PartialEq, Eq, Structural)]
pub enum Whole {
    /// Toward zero.
    Trunc,
    /// Away from zero.
    Outward,
    /// To the nearest whole number, halves away from zero.
    Nearest,
}

impl Format {
    /// The weight of the sign bit.
    pub open spec fn sign(self) -> nat {
        if self.prec == 24 {
            0x8000_0000
        } else {
            0x8000_0000_0000_0000
        }
    }

    /// Whether `bits` is an encoding of the format.
    pub open spec fn holds(self, bits: u64) -> bool {
        bits < 2 * self.sign()
    }

    /// Whether the sign bit is set.
    pub open spec fn neg(self, bits: u64) -> bool {
        bits >= self.sign()
    }

    /// The encoding without the sign bit.
    pub open spec fn mag(self, bits: u64) -> nat {
        if bits >= self.sign() {
            (bits - self.sign()) as nat
        } else {
            bits as nat
        }
    }

    /// The encoding of "not a number".
    pub open spec fn nan(self) -> u64 {
        if self.prec == 24 {
            0x7fc0_0000
        } else {
            0x7ff8_0000_0000_0000
        }
    }

    /// Puts a sign onto a magnitude code.
    pub open spec fn join(self, neg: bool, mag: nat) -> u64 {
        if neg {
            (self.sign() + mag) as u64
        } else {
            mag as u64
        }
    }

    pub open spec fn is_nan(self, bits: u64) -> bool {
        self.mag(bits) > self.inf()
    }

    pub open spec fn is_inf(self, bits: u64) -> bool {
        self.mag(bits) == self.inf()
    }

    pub open spec fn is_finite(self, bits: u64) -> bool {
        self.mag(bits) < self.inf()
    }

    /// The value of a finite encoding, in units.
    pub open spec fn value(self, bits: u64) -> int {
        if self.neg(bits) {
            -(self.units(self.mag(bits)) as int)
        } else {
            self.units(self.mag(bits)) as int
        }
    }

    /// The position of an encoding in the order of the numbers.
    pub open spec fn order(self, bits: u64) -> int {
        if self.neg(bits) {
            -(self.mag(bits) as int)
        } else {
            self.mag(bits) as int
        }
    }

    /// `a < b`.
    pub open spec fn spec_less(self, a: u64, b: u64) -> bool {
        !self.is_nan(a) && !self.is_nan(b) && self.order(a) < self.order(b)
    }

    /// `a + b`.
    pub open spec fn spec_sum(self, a: u64, b: u64) -> u64 {
        if self.is_nan(a) || self.is_nan(b) {
            self.nan()
        } else if self.is_inf(a) {
            if self.is_inf(b) && self.neg(a) != self.neg(b) {
                self.nan()
            } else {
                a
            }
        } else if self.is_inf(b) {
            b
        } else {
            let s = self.value(a) + self.value(b);
            if s == 0 {
                self.join(self.neg(a) && self.neg(b), 0)
            } else if s < 0 {
                self.join(true, self.round((-s) as nat, 1))
            } else {
                self.join(false, self.round(s as nat, 1))
            }
        }
    }

    /// `-a`.
    pub open spec fn spec_negated(self, a: u64) -> u64 {
        self.join(!self.neg(a), self.mag(a))
    }

    /// `a * b`.
    pub open spec fn spec_product(self, a: u64, b: u64) -> u64 {
        let neg = self.neg(a) != self.neg(b);
        if self.is_nan(a) || self.is_nan(b) {
            self.nan()
        } else if self.is_inf(a) || self.is_inf(b) {
            if self.mag(a) == 0 || self.mag(b) == 0 {
                self.nan()
            } else {
                self.join(neg, self.inf())
            }
        } else {
            self.join(
                neg,
                self.round(
                    self.units(self.mag(a)) * self.units(self.mag(b)),
                    pow2(self.unit as nat),
                ),
            )
        }
    }

    /// `a / b`.
    pub open spec fn spec_quotient(self, a: u64, b: u64) -> u64 {
        let neg = self.neg(a) != self.neg(b);
        if self.is_nan(a) || self.is_nan(b) {
            self.nan()
        } else if self.is_inf(a) {
            if self.is_inf(b) {
                self.nan()
            } else {
                self.join(neg, self.inf())
            }
        } else if self.is_inf(b) {
            self.join(neg, 0)
        } else if self.mag(b) == 0 {
            if self.mag(a) == 0 {
                self.nan()
            } else {
                self.join(neg, self.inf())
            }
        } else {
            self.join(
                neg,
                self.round(
                    self.units(self.mag(a)) * pow2(self.unit as nat),
                    self.units(self.mag(b)),
                ),
            )
        }
    }

    /// The whole number `n`.
    pub open spec fn spec_from_int(self, n: nat) -> u64 {
        self.join(false, self.round(n * pow2(self.unit as nat), 1))
    }

    /// The whole number that the magnitude of a finite value is moved to.
    pub open spec fn whole(self, mag: nat, how: Whole) -> nat {
        let units = self.units(mag);
        let one = pow2(self.unit as nat);
        match how {
            Whole::Trunc => units / one,
            Whole::Outward => ((units + one - 1) / one as int) as nat,
            Whole::Nearest => (2 * units + one) / (2 * one),
        }
    }

    /// The same value in another format.
    pub open spec fn spec_convert(self, to: Format, bits: u64) -> u64 {
        if self.is_nan(bits) {
            to.nan()
        } else if self.is_inf(bits) {
            to.join(self.neg(bits), to.inf())
        } else {
            to.join(
                self.neg(bits),
                to.round(
                    self.units(self.mag(bits)) * pow2(to.unit as nat),
                    pow2(self.unit as nat),
                ),
            )
        }
    }
}

/// A decoded magnitude: `mant` times two to the power `expo`, in units.
pub struct Parts {
    pub mant: u64,
    pub expo: u64,
}

impl Parts {
    pub open spec fn of(self, fmt: Format, mag: nat) -> bool {
        &&& self.mant == fmt.mant(mag)
        &&& self.expo == fmt.expo(mag)
        &&& self.mant < 2 * fmt.hidden()
        &&& self.expo <= 2045
        &&& self.expo > 0 ==> self.mant >= fmt.hidden()
        &&& mag > 0 ==> self.mant > 0
        &&& mag == 0 ==> self.mant == 0
        &&& self.mant * pow2(self.expo as nat) == fmt.units(mag)
    }
}

/// A rounded magnitude is a magnitude code.
pub proof fn lemma_round_bound(fmt: Format, num: nat, den: nat)
    ensures
        fmt.round(num, den) <= fmt.inf(),
{
}

/// A whole number of steps brackets itself.
pub proof fn lemma_exact(n: nat, e: int, num: nat, den: nat, a: nat, b: nat)
    requires
        den > 0,
        a == (if e < 0 { (-e) as nat } else { 0 }),
        b == (if e < 0 { 0 } else { e as nat }),
        num * pow2(a) == n * (pow2(b) * den),
    ensures
        kernel::brackets(n, e, false, num, den),
{
    lemma_pow2_pos(b);
    let step = pow2(b) * den;
    assert(n * step < (n + 1) * step) by (nonlinear_arith)
        requires
            step == pow2(b) * den,
            pow2(b) > 0,
            den > 0,
    ;
}

impl Format {
    pub(crate) fn weight(self) -> (r: u64)
        requires
            self.valid(),
        ensures
            r == self.sign(),
    {
        if self.prec == 24 {
            0x8000_0000
        } else {
            0x8000_0000_0000_0000
        }
    }

    pub(crate) fn top(self) -> (r: u64)
        requires
            self.valid(),
        ensures
            r == self.inf(),
    {
        if self.prec == 24 {
            0x7f80_0000
        } else {
            0x7ff0_0000_0000_0000
        }
    }

    pub(crate) fn not_a_number(self) -> (r: u64)
        requires
            self.valid(),
        ensures
            r == self.nan(),
    {
        if self.prec == 24 {
            0x7fc0_0000
        } else {
            0x7ff8_0000_0000_0000
        }
    }

    /// Sign and magnitude code of an encoding.
    pub(crate) fn split(self, bits: u64) -> (r: (bool, u64))
        requires
            self.valid(),
            self.holds(bits),
        ensures
            r.0 == self.neg(bits),
            r.1 == self.mag(bits),
            r.1 < self.sign(),
    {
        let w = self.weight();
        if bits >= w {
            (true, bits - w)
        } else {
            (false, bits)
        }
    }

    pub(crate) fn unsplit(self, neg: bool, mag: u64) -> (r: u64)
        requires
            self.valid(),
            mag < self.sign(),
        ensures
            r == self.join(neg, mag as nat),
            self.holds(r),
            self.neg(r) == neg,
            self.mag(r) == mag,
    {
        if neg {
            self.weight() + mag
        } else {
            mag
        }
    }

    pub(crate) fn decode(self, mag: u64) -> (r: Parts)
        requires
            self.valid(),
            mag < self.inf(),
        ensures
            r.of(self, mag as nat),
    {
        if self.prec == 24 {
            if mag < 0x80_0000 {
                Parts { mant: mag, expo: 0 }
            } else {
                Parts { mant: mag % 0x80_0000 + 0x80_0000, expo: mag / 0x80_0000 - 1 }
            }
        } else {
            if mag < 0x10_0000_0000_0000 {
                Parts { mant: mag, expo: 0 }
            } else {
                Parts {
                    mant: mag % 0x10_0000_0000_0000 + 0x10_0000_0000_0000,
                    expo: mag / 0x10_0000_0000_0000 - 1,
                }
            }
        }
    }

    /// `a < b`.
    pub fn less(self, a: u64, b: u64) -> (r: bool)
        requires
            self.valid(),
            self.holds(a),
            self.holds(b),
        ensures
            r == self.spec_less(a, b),
    {
        let (na, ma) = self.split(a);
        let (nb, mb) = self.split(b);
        let top = self.top();
        if ma > top || mb > top {
            false
        } else if na {
            if nb {
                mb < ma
            } else {
                ma > 0 || mb > 0
            }
        } else if nb {
            false
        } else {
            ma < mb
        }
    }

    /// `-a`.
    pub fn negated(self, a: u64) -> (r: u64)
        requires
            self.valid(),
            self.holds(a),
        ensures
            r == self.spec_negated(a),
            self.holds(r),
    {
        let (na, ma) = self.split(a);
        self.unsplit(!na, ma)
    }

    /// `a * b`.
    pub fn product(self, a: u64, b: u64) -> (r: u64)
        requires
            self.valid(),
            self.holds(a),
            self.holds(b),
        ensures
            r == self.spec_product(a, b),
            self.holds(r),
    {
        let (na, ma) = self.split(a);
        let (nb, mb) = self.split(b);
        let top = self.top();
        let neg = na != nb;
        if ma > top || mb > top {
            return self.not_a_number();
        }
        if ma == top || mb == top {
            if ma == 0 || mb == 0 {
                return self.not_a_number();
            }
            return self.unsplit(neg, top);
        }
        let pa = self.decode(ma);
        let pb = self.decode(mb);
        let ghost (ka, kb, u) = (pa.expo as nat, pb.expo as nat, self.unit as nat);
        let ghost num = self.units(ma as nat) * self.units(mb as nat);
        let e = pa.expo as i32 + pb.expo as i32 - self.unit as i32;
        proof {
            lemma_bound_product(pa.mant as nat, pb.mant as nat);
            let lo: nat = if e < 0 { (-e) as nat } else { 0 };
            let hi: nat = if e < 0 { 0 } else { e as nat };
            lemma_pow2_adds(ka, kb);
            lemma_pow2_adds(ka + kb, lo);
            lemma_pow2_adds(hi, u);
            lemma_pow2_pos(u);
            assert(num * pow2(lo) == (pa.mant * pb.mant) * (pow2(hi) * pow2(u)))
                by (nonlinear_arith)
                requires
                    num == (pa.mant * pow2(ka)) * (pb.mant * pow2(kb)),
                    (pow2(ka) * pow2(kb)) * pow2(lo) == pow2(hi) * pow2(u),
            ;
            lemma_exact((pa.mant * pb.mant) as nat, e as int, num, pow2(u), lo, hi);
        }
        let n = pa.mant as u128 * pb.mant as u128;
        let code = kernel::round_code(self, n, e, false, Ghost(num), Ghost(pow2(u)));
        self.unsplit(neg, code)
    }

    /// `a / b`.
    pub fn quotient(self, a: u64, b: u64) -> (r: u64)
        requires
            self.valid(),
            self.holds(a),
            self.holds(b),
        ensures
            r == self.spec_quotient(a, b),
            self.holds(r),
    {
        let (na, ma) = self.split(a);
        let (nb, mb) = self.split(b);
        let top = self.top();
        let neg = na != nb;
        if ma > top || mb > top {
            return self.not_a_number();
        }
        if ma == top {
            if mb == top {
                return self.not_a_number();
            }
            return self.unsplit(neg, top);
        }
        if mb == top {
            return self.unsplit(neg, 0);
        }
        if mb == 0 {
            if ma == 0 {
                return self.not_a_number();
            }
            return self.unsplit(neg, top);
        }
        let pa = self.decode(ma);
        let pb = self.decode(mb);
        let ghost (ka, kb, u) = (pa.expo as nat, pb.expo as nat, self.unit as nat);
        let ghost num = self.units(ma as nat) * pow2(u);
        let ghost den = self.units(mb as nat);
        proof {
            lemma_pow2_pos(kb);
            assert(den > 0) by (nonlinear_arith)
                requires
                    den == pb.mant * pow2(kb),
                    pb.mant > 0,
                    pow2(kb) > 0,
            ;
        }
        if ma == 0 {
            proof {
                assert(num == 0) by (nonlinear_arith)
                    requires
                        num == (pa.mant * pow2(ka)) * pow2(u),
                        pa.mant == 0,
                ;
                assert(num * pow2(0) == 0 * (pow2(0) * den)) by (nonlinear_arith)
                    requires
                        num == 0,
                ;
                lemma_exact(0, 0, num, den, 0, 0);
                lemma_pow2_pos(127);
            }
            let code = kernel::round_code(self, 0, 0, false, Ghost(num), Ghost(den));
            return self.unsplit(neg, code);
        }
        let len = kernel::length(pa.mant as u128);
        proof {
            lemma2_to64_rest();
            ratio::lemma_bit_len_at_most(pa.mant as nat, 54);
            ratio::lemma_bit_len(pa.mant as nat);
        }
        let s: u32 = 127 - len;
        let ghost m = pa.mant as nat;
        proof {
            lemma_pow2_adds(len as nat, s as nat);
            lemma_pow2_adds((len - 1) as nat, s as nat);
            lemma_pow2_pos(s as nat);
            assert(m * pow2(s as nat) < pow2(127)) by (nonlinear_arith)
                requires
                    m < pow2(len as nat),
                    pow2(len as nat) * pow2(s as nat) == pow2(127),
                    pow2(s as nat) > 0,
            {
            }
            assert(m * pow2(s as nat) >= pow2(126)) by (nonlinear_arith)
                requires
                    m >= pow2((len - 1) as nat),
                    pow2((len - 1) as nat) * pow2(s as nat) == pow2(126),
            ;
            lemma_pow2_strictly_increases(127, 128);
            lemma_max_u128();
        }
        let w = pa.mant as u128 * kernel::power(s);
        let q = w / pb.mant as u128;
        let r = w % pb.mant as u128;
        let e = pa.expo as i32 + self.unit as i32 - pb.expo as i32 - s as i32;
        proof {
            let d = pb.mant as nat;
            lemma_fundamental_div_mod(w as int, d as int);
            assert(q <= w) by (nonlinear_arith)
                requires
                    w == d * q + r,
                    d >= 1,
                    r >= 0,
                    q >= 0,
            ;
            lemma_pow2_adds(73, 53);
            ratio::lemma_hidden(self);
            ratio::lemma_pow2_mono(self.prec as nat, 53);
            ratio::lemma_pow2_mono((self.prec + 1) as nat, 73);
            assert(d * pow2(73) <= w) by (nonlinear_arith)
                requires
                    d <= pow2(53),
                    pow2(73) * pow2(53) == pow2(126),
                    pow2(126) <= w,
            ;
            ratio::lemma_div_at_least(w as nat, d, pow2(73));
            let lo: nat = if e < 0 { (-e) as nat } else { 0 };
            let hi: nat = if e < 0 { 0 } else { e as nat };
            let z = pow2(kb + hi);
            lemma_pow2_pos(kb + hi);
            lemma_pow2_adds(kb, hi);
            lemma_pow2_adds(ka, u);
            lemma_pow2_adds(ka + u, lo);
            lemma_pow2_adds(s as nat, kb + hi);
            assert(s + (kb + hi) == ka + u + lo);
            assert(num * pow2(lo) == w * z) by (nonlinear_arith)
                requires
                    num == (m * pow2(ka)) * pow2(u),
                    w == m * pow2(s as nat),
                    (pow2(ka) * pow2(u)) * pow2(lo) == pow2(s as nat) * z,
            ;
            let step = pow2(hi) * den;
            assert(step == d * z) by (nonlinear_arith)
                requires
                    step == pow2(hi) * den,
                    den == d * pow2(kb),
                    z == pow2(kb) * pow2(hi),
            ;
            assert(w * z == q * step + r * z) by (nonlinear_arith)
                requires
                    w == d * q + r,
                    step == d * z,
            ;
            assert(r * z < step) by (nonlinear_arith)
                requires
                    r < d,
                    step == d * z,
                    z > 0,
            ;
            assert((r > 0) == (r * z > 0)) by (nonlinear_arith)
                requires
                    z > 0,
                    r >= 0,
            ;
            assert((q + 1) * step == q * step + step) by (nonlinear_arith);
            assert(kernel::brackets(q as nat, e as int, r > 0, num, den));
        }
        let code = kernel::round_code(self, q, e, r > 0, Ghost(num), Ghost(den));
        self.unsplit(neg, code)
    }
}

/// Products of two significands stay far below the widest integer.
pub proof fn lemma_bound_product(a: nat, b: nat)
    requires
        a < 0x20_0000_0000_0000,
        b < 0x20_0000_0000_0000,
    ensures
        a * b < pow2(127),
        a * b <= u128::MAX,
{
    lemma2_to64();
    lemma_pow2_adds(64, 63);
    lemma2_to64_rest();
    assert(a * b <= 0x20_0000_0000_0000 * 0x20_0000_0000_0000) by (nonlinear_arith)
        requires
            a < 0x20_0000_0000_0000,
            b < 0x20_0000_0000_0000,
    ;
}

/// The widest integer holds 127 digits and more.
pub proof fn lemma_max_u128()
    ensures
        pow2(127) <= u128::MAX,
{
    lemma2_to64();
    lemma_pow2_adds(64, 63);
    lemma2_to64_rest();
}

/// Sums of a magnitude and one too small to reach its last digits.
proof fn lemma_far(fmt: Format, ma: nat, ka: nat, mb: nat, kb: nat, minus: bool)
    requires
        fmt.valid(),
        fmt.hidden() <= ma < 2 * fmt.hidden(),
        0 < mb < 2 * fmt.hidden(),
        ka >= kb + 75,
    ensures
        ({
            let big = ma * pow2(ka);
            let small = mb * pow2(kb);
            let n = if minus { (16 * ma - 1) as nat } else { 16 * ma };
            &&& small < big
            &&& n >= pow2((fmt.prec + 1) as nat)
            &&& kernel::brackets(
                n,
                ka - 4,
                true,
                if minus { (big - small) as nat } else { big + small },
                1,
            )
        }),
{
    let big = ma * pow2(ka);
    let small = mb * pow2(kb);
    let step = pow2((ka - 4) as nat);
    lemma2_to64();
    lemma2_to64_rest();
    ratio::lemma_hidden(fmt);
    ratio::lemma_pow2_mono(fmt.prec as nat, 53);
    lemma_pow2_adds(4, (ka - 4) as nat);
    lemma_pow2_adds(53, kb);
    lemma_pow2_pos(kb);
    lemma_pow2_pos((ka - 4) as nat);
    ratio::lemma_pow2_mono(53 + kb, (ka - 4) as nat);
    assert(small < step) by (nonlinear_arith)
        requires
            small == mb * pow2(kb),
            mb < pow2(53),
            pow2(53) * pow2(kb) <= step,
            pow2(kb) > 0,
    ;
    assert(small > 0) by (nonlinear_arith)
        requires
            small == mb * pow2(kb),
            mb > 0,
            pow2(kb) > 0,
    ;
    assert(big == 16 * ma * step) by (nonlinear_arith)
        requires
            big == ma * pow2(ka),
            pow2(ka) == 16 * step,
    ;
    assert(16 * ma * step >= step) by (nonlinear_arith)
        requires
            ma >= 1,
            step > 0,
    ;
    assert((16 * ma - 1) * step == 16 * ma * step - step) by (nonlinear_arith);
    assert((16 * ma + 1) * step == 16 * ma * step + step) by (nonlinear_arith);
    lemma_pow2_adds((fmt.prec - 1) as nat, 2);
    let n: nat = if minus {
        (16 * ma - 1) as nat
    } else {
        16 * ma
    };
    let num: nat = if minus {
        (big - small) as nat
    } else {
        big + small
    };
    assert(n >= pow2((fmt.prec + 1) as nat));
    assert(pow2(0) == 1);
    assert(num * pow2(0) == num);
    assert(pow2((ka - 4) as nat) * 1 == step);
    assert(n * step <= num < (n + 1) * step);
    assert(kernel::brackets(n, ka - 4, true, num, 1));
}

impl Format {
    /// The magnitude of a sum or a difference of two finite magnitudes, of which
    /// the first has the larger exponent.
    fn combine(self, pa: Parts, pb: Parts, minus: bool, Ghost(a): Ghost<nat>, Ghost(b): Ghost<
        nat,
    >) -> (r: (bool, u64))
        requires
            self.valid(),
            pa.of(self, a),
            pb.of(self, b),
            pa.expo >= pb.expo,
        ensures
            ({
                let s = if minus {
                    self.units(a) - self.units(b)
                } else {
                    self.units(a) + self.units(b) as int
                };
                &&& r.0 == (s < 0)
                &&& r.1 == self.round(if s < 0 { (-s) as nat } else { s as nat }, 1)
                &&& (r.1 == 0) == (s == 0)
            }),
    {
        let ghost (ma, ka, mb, kb) = (
            pa.mant as nat,
            pa.expo as nat,
            pb.mant as nat,
            pb.expo as nat,
        );
        let ghost ua = self.units(a);
        let ghost ub = self.units(b);
        proof {
            lemma2_to64();
            lemma2_to64_rest();
            lemma_max_u128();
            lemma_pow2_pos(kb);
            lemma_pow2_pos(ka);
        }
        let gap = pa.expo - pb.expo;
        if gap >= 75 && pb.mant > 0 {
            let n: u128 = if minus {
                pa.mant as u128 * 16 - 1
            } else {
                pa.mant as u128 * 16
            };
            let ghost num: nat = if minus { (ua - ub) as nat } else { ua + ub };
            proof {
                lemma_far(self, ma, ka, mb, kb, minus);
            }
            assert(n < pow2(127)) by {
                ratio::lemma_pow2_mono(64, 127);
            }
            let code = kernel::round_code(
                self,
                n,
                pa.expo as i32 - 4,
                true,
                Ghost(num),
                Ghost(1),
            );
            proof {
                lemma_round_positive(self, num);
            }
            return (false, code);
        }
        if gap >= 75 {
            // The second magnitude is zero.
            proof {
                assert(ub == 0) by (nonlinear_arith)
                    requires
                        ub == mb * pow2(kb),
                        mb == 0,
                ;
                ratio::lemma_pow2_mono(64, 127);
                assert(ua * pow2(0) == ma * (pow2(ka) * 1));
                lemma_exact(ma, ka as int, ua, 1, 0, ka);
            }
            let code = kernel::round_code(
                self,
                pa.mant as u128,
                pa.expo as i32,
                false,
                Ghost(ua),
                Ghost(1),
            );
            proof {
                if ua > 0 {
                    lemma_round_positive(self, ua);
                } else {
                    lemma_round_zero(self);
                }
            }
            return (false, code);
        }
        let ghost g = gap as nat;
        proof {
            lemma_pow2_adds(kb, g);
            lemma_pow2_adds(53, 74);
            ratio::lemma_hidden(self);
            ratio::lemma_pow2_mono(self.prec as nat, 53);
            ratio::lemma_pow2_mono(g, 74);
            lemma_pow2_pos(g);
            assert(ma * pow2(g) <= (pow2(53) - 1) * pow2(74)) by (nonlinear_arith)
                requires
                    ma <= pow2(53) - 1,
                    pow2(g) <= pow2(74),
                    pow2(g) > 0,
            ;
            assert((pow2(53) - 1) * pow2(74) == pow2(127) - pow2(74)) by (nonlinear_arith)
                requires
                    pow2(53) * pow2(74) == pow2(127),
            ;
            ratio::lemma_pow2_mono(64, 74);
            assert(ua == (ma * pow2(g)) * pow2(kb)) by (nonlinear_arith)
                requires
                    ua == ma * pow2(ka),
                    pow2(ka) == pow2(kb) * pow2(g),
            ;
        }
        let x = pa.mant as u128 * kernel::power(gap as u32);
        let y = pb.mant as u128;
        let (below, n): (bool, u128) = if !minus {
            (false, x + y)
        } else if x < y {
            (true, y - x)
        } else {
            (false, x - y)
        };
        let ghost s: int = if minus { ua - ub } else { ua + ub as int };
        let ghost num: nat = if s < 0 { (-s) as nat } else { s as nat };
        proof {
            let z = pow2(kb);
            assert(x * z - y * z == (x - y) * z) by (nonlinear_arith);
            assert(x * z + y * z == (x + y) * z) by (nonlinear_arith);
            assert(y * z - x * z == (y - x) * z) by (nonlinear_arith);
            assert((x < y) == (x * z < y * z)) by (nonlinear_arith)
                requires
                    z > 0,
            ;
            assert((n == 0) == (n * z == 0)) by (nonlinear_arith)
                requires
                    z > 0,
            ;
            assert(num == n * z);
            assert(num * pow2(0) == n * (z * 1));
            lemma_exact(n as nat, kb as int, num, 1, 0, kb);
        }
        let code = kernel::round_code(
            self,
            n,
            pb.expo as i32,
            false,
            Ghost(num),
            Ghost(1),
        );
        proof {
            if num > 0 {
                lemma_round_positive(self, num);
            } else {
                lemma_round_zero(self);
            }
        }
        (below, code)
    }

    /// `a + b`.
    pub fn sum(self, a: u64, b: u64) -> (r: u64)
        requires
            self.valid(),
            self.holds(a),
            self.holds(b),
        ensures
            r == self.spec_sum(a, b),
            self.holds(r),
    {
        let (na, ma) = self.split(a);
        let (nb, mb) = self.split(b);
        let top = self.top();
        if ma > top || mb > top {
            return self.not_a_number();
        }
        if ma == top {
            if mb == top && na != nb {
                return self.not_a_number();
            }
            return a;
        }
        if mb == top {
            return b;
        }
        let pa = self.decode(ma);
        let pb = self.decode(mb);
        let minus = na != nb;
        if pa.expo >= pb.expo {
            let (below, code) = self.combine(pa, pb, minus, Ghost(ma as nat), Ghost(mb as nat));
            if code == 0 {
                return self.unsplit(na && nb, 0);
            }
            self.unsplit(na != below, code)
        } else {
            let (below, code) = self.combine(pb, pa, minus, Ghost(mb as nat), Ghost(ma as nat));
            if code == 0 {
                return self.unsplit(na && nb, 0);
            }
            self.unsplit(nb != below, code)
        }
    }
}

/// Nothing rounds to nothing.
pub proof fn lemma_round_zero(fmt: Format)
    requires
        fmt.valid(),
    ensures
        fmt.round(0, 1) == 0,
{
    lemma2_to64();
}

/// A whole number of units does not round to nothing.
pub proof fn lemma_round_positive(fmt: Format, num: nat)
    requires
        fmt.valid(),
        num > 0,
    ensures
        fmt.round(num, 1) > 0,
{
    lemma2_to64();
    assert(num / 1 == num);
    if fmt.quantum(num, 1) == 0 {
        assert(1 * pow2(0) == 1);
        assert(num % 1 == 0);
    } else {
        assert(fmt.quantum(num, 1) * fmt.hidden() > 0) by (nonlinear_arith)
            requires
                fmt.quantum(num, 1) > 0,
                fmt.hidden() > 0,
        ;
    }
}

} // verus!
