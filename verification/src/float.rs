//! Binary floating-point arithmetic with exact contracts.
//!
//! [`Single`] and [`Double`] are the 32-bit and the 64-bit format of IEEE 754,
//! computed on integers. [`ratio`] says what rounding is, [`kernel`] does it,
//! [`code`], [`whole`] and [`root`] reduce the operations to it, and [`order`]
//! proves how results compare.

use crate::float::ratio::Format;
use vstd::prelude::*;

pub mod code;
pub mod kernel;
pub mod near;
pub mod order;
pub mod ratio;
pub mod root;
pub mod steps;
pub mod whole;

verus! {

/// A 32-bit floating-point number, held as its encoding.
///
/// Every bit pattern is a value. Operations that give "not a number" give the
/// one encoding of it that has a clear sign and a zero payload.
#[derive(Clone, Copy, Debug, PartialEq, Eq, Structural)]
pub struct Single {
    pub bits: u32,
}

/// The format of [`Single`].
pub open spec fn single() -> Format {
    Format { prec: 24, unit: 149 }
}

impl Single {
    #[verifier::opaque]
    pub open spec fn spec_plus(self, other: Single) -> Single {
        Single { bits: single().spec_sum(self.bits as u64, other.bits as u64) as u32 }
    }

    /// `self + other`.
    #[verifier::when_used_as_spec(spec_plus)]
    pub fn plus(self, other: Single) -> (r: Single)
        ensures
            r == self.spec_plus(other),
    {
        reveal(Single::spec_plus);
        Single { bits: Format { prec: 24, unit: 149 }.sum(self.bits as u64, other.bits as u64) as u32 }
    }

    #[verifier::opaque]
    pub open spec fn spec_minus(self, other: Single) -> Single {
        Single {
            bits: single().spec_sum(
                self.bits as u64,
                single().spec_negated(other.bits as u64),
            ) as u32,
        }
    }

    /// `self - other`.
    #[verifier::when_used_as_spec(spec_minus)]
    pub fn minus(self, other: Single) -> (r: Single)
        ensures
            r == self.spec_minus(other),
    {
        reveal(Single::spec_minus);
        let format = Format { prec: 24, unit: 149 };
        let flipped = format.negated(other.bits as u64);
        Single { bits: format.sum(self.bits as u64, flipped) as u32 }
    }

    #[verifier::opaque]
    pub open spec fn spec_times(self, other: Single) -> Single {
        Single { bits: single().spec_product(self.bits as u64, other.bits as u64) as u32 }
    }

    /// `self * other`.
    #[verifier::when_used_as_spec(spec_times)]
    pub fn times(self, other: Single) -> (r: Single)
        ensures
            r == self.spec_times(other),
    {
        reveal(Single::spec_times);
        Single { bits: Format { prec: 24, unit: 149 }.product(self.bits as u64, other.bits as u64) as u32 }
    }

    #[verifier::opaque]
    pub open spec fn spec_over(self, other: Single) -> Single {
        Single { bits: single().spec_quotient(self.bits as u64, other.bits as u64) as u32 }
    }

    /// `self / other`.
    #[verifier::when_used_as_spec(spec_over)]
    pub fn over(self, other: Single) -> (r: Single)
        ensures
            r == self.spec_over(other),
    {
        reveal(Single::spec_over);
        Single { bits: Format { prec: 24, unit: 149 }.quotient(self.bits as u64, other.bits as u64) as u32 }
    }

    #[verifier::opaque]
    pub open spec fn spec_root(self) -> Single {
        Single { bits: single().spec_root(self.bits as u64) as u32 }
    }

    /// The square root of `self`.
    #[verifier::when_used_as_spec(spec_root)]
    pub fn root(self) -> (r: Single)
        ensures
            r == self.spec_root(),
    {
        reveal(Single::spec_root);
        Single { bits: Format { prec: 24, unit: 149 }.root(self.bits as u64) as u32 }
    }

    #[verifier::opaque]
    pub open spec fn spec_negated(self) -> Single {
        Single { bits: single().spec_negated(self.bits as u64) as u32 }
    }

    /// `-self`.
    #[verifier::when_used_as_spec(spec_negated)]
    pub fn negated(self) -> (r: Single)
        ensures
            r == self.spec_negated(),
    {
        reveal(Single::spec_negated);
        Single { bits: Format { prec: 24, unit: 149 }.negated(self.bits as u64) as u32 }
    }

    #[verifier::opaque]
    pub open spec fn spec_floor(self) -> Single {
        Single { bits: single().spec_integral(self.bits as u64, false) as u32 }
    }

    /// The largest whole number that is not above `self`.
    #[verifier::when_used_as_spec(spec_floor)]
    pub fn floor(self) -> (r: Single)
        ensures
            r == self.spec_floor(),
    {
        reveal(Single::spec_floor);
        Single { bits: Format { prec: 24, unit: 149 }.integral(self.bits as u64, false) as u32 }
    }

    #[verifier::opaque]
    pub open spec fn spec_ceil(self) -> Single {
        Single { bits: single().spec_integral(self.bits as u64, true) as u32 }
    }

    /// The smallest whole number that is not below `self`.
    #[verifier::when_used_as_spec(spec_ceil)]
    pub fn ceil(self) -> (r: Single)
        ensures
            r == self.spec_ceil(),
    {
        reveal(Single::spec_ceil);
        Single { bits: Format { prec: 24, unit: 149 }.integral(self.bits as u64, true) as u32 }
    }

    pub open spec fn spec_truncated(self) -> Single {
        if self.spec_less(Single { bits: 0 }) {
            self.spec_ceil()
        } else {
            self.spec_floor()
        }
    }

    /// `self` without its fraction.
    #[verifier::when_used_as_spec(spec_truncated)]
    pub fn truncated(self) -> (r: Single)
        ensures
            r == self.spec_truncated(),
    {
        if self.less(Single { bits: 0 }) {
            self.ceil()
        } else {
            self.floor()
        }
    }

    #[verifier::opaque]
    pub open spec fn spec_less(self, other: Single) -> bool {
        single().spec_less(self.bits as u64, other.bits as u64)
    }

    /// `self < other`, which is false where either is not a number.
    #[verifier::when_used_as_spec(spec_less)]
    pub fn less(self, other: Single) -> (r: bool)
        ensures
            r == self.spec_less(other),
    {
        reveal(Single::spec_less);
        Format { prec: 24, unit: 149 }.less(self.bits as u64, other.bits as u64)
    }

    #[verifier::opaque]
    pub open spec fn spec_is_nan(self) -> bool {
        single().is_nan(self.bits as u64)
    }

    /// Whether `self` is not a number.
    #[verifier::when_used_as_spec(spec_is_nan)]
    pub fn is_nan(self) -> (r: bool)
        ensures
            r == self.spec_is_nan(),
    {
        reveal(Single::spec_is_nan);
        let format = Format { prec: 24, unit: 149 };
        let (_, mag) = format.split(self.bits as u64);
        mag > format.top()
    }

    #[verifier::opaque]
    pub open spec fn spec_is_finite(self) -> bool {
        single().is_finite(self.bits as u64)
    }

    /// Whether `self` is a number and not infinite.
    #[verifier::when_used_as_spec(spec_is_finite)]
    pub fn is_finite(self) -> (r: bool)
        ensures
            r == self.spec_is_finite(),
    {
        reveal(Single::spec_is_finite);
        let format = Format { prec: 24, unit: 149 };
        let (_, mag) = format.split(self.bits as u64);
        mag < format.top()
    }

    pub open spec fn spec_at_most(self, other: Single) -> bool {
        !self.spec_is_nan() && !other.spec_is_nan() && !other.spec_less(self)
    }

    /// `self <= other`, which is false where either is not a number.
    #[verifier::when_used_as_spec(spec_at_most)]
    pub fn at_most(self, other: Single) -> (r: bool)
        ensures
            r == self.spec_at_most(other),
    {
        !self.is_nan() && !other.is_nan() && !other.less(self)
    }

    pub open spec fn spec_max(self, other: Single) -> Single {
        if self.spec_is_nan() || self.spec_less(other) {
            other
        } else {
            self
        }
    }

    /// The larger of the two, or the other one where one is not a number.
    #[verifier::when_used_as_spec(spec_max)]
    pub fn max(self, other: Single) -> (r: Single)
        ensures
            r == self.spec_max(other),
    {
        if self.is_nan() || self.less(other) {
            other
        } else {
            self
        }
    }

    pub open spec fn spec_min(self, other: Single) -> Single {
        if self.spec_is_nan() || other.spec_less(self) {
            other
        } else {
            self
        }
    }

    /// The smaller of the two, or the other one where one is not a number.
    #[verifier::when_used_as_spec(spec_min)]
    pub fn min(self, other: Single) -> (r: Single)
        ensures
            r == self.spec_min(other),
    {
        if self.is_nan() || other.less(self) {
            other
        } else {
            self
        }
    }

    #[verifier::opaque]
    pub open spec fn spec_from_u64(n: u64) -> Single {
        Single { bits: single().spec_from_int(n as nat) as u32 }
    }

    /// The value nearest to `n`.
    #[verifier::when_used_as_spec(spec_from_u64)]
    pub fn from_u64(n: u64) -> (r: Single)
        ensures
            r == Single::spec_from_u64(n),
    {
        reveal(Single::spec_from_u64);
        Single { bits: Format { prec: 24, unit: 149 }.from_int(n) as u32 }
    }

    #[verifier::opaque]
    pub open spec fn spec_to_u64(self) -> u64 {
        let bits = self.bits as u64;
        if single().is_nan(bits) || single().neg(bits) {
            0
        } else if single().is_inf(bits) {
            u64::MAX
        } else {
            whole::saturated(single().whole(single().mag(bits), code::Whole::Trunc))
        }
    }

    /// `self` without its fraction: 0 below zero and for "not a number", the
    /// largest integer above it.
    #[verifier::when_used_as_spec(spec_to_u64)]
    pub fn to_u64(self) -> (r: u64)
        ensures
            r == self.spec_to_u64(),
    {
        reveal(Single::spec_to_u64);
        let format = Format { prec: 24, unit: 149 };
        let (neg, mag) = format.split(self.bits as u64);
        let top = format.top();
        if mag > top || neg {
            0
        } else if mag == top {
            u64::MAX
        } else {
            format.to_whole(mag, code::Whole::Trunc)
        }
    }

    pub open spec fn spec_to_u32(self) -> u32 {
        let n = self.spec_to_u64();
        if n > u32::MAX {
            u32::MAX
        } else {
            n as u32
        }
    }

    /// `self` without its fraction, held to the range of the result.
    #[verifier::when_used_as_spec(spec_to_u32)]
    pub fn to_u32(self) -> (r: u32)
        ensures
            r == self.spec_to_u32(),
    {
        let n = self.to_u64();
        if n > u32::MAX as u64 {
            u32::MAX
        } else {
            n as u32
        }
    }

    pub open spec fn spec_to_u8(self) -> u8 {
        let n = self.spec_to_u64();
        if n > u8::MAX {
            u8::MAX
        } else {
            n as u8
        }
    }

    /// `self` without its fraction, held to the range of the result.
    #[verifier::when_used_as_spec(spec_to_u8)]
    pub fn to_u8(self) -> (r: u8)
        ensures
            r == self.spec_to_u8(),
    {
        let n = self.to_u64();
        if n > u8::MAX as u64 {
            u8::MAX
        } else {
            n as u8
        }
    }

    #[verifier::opaque]
    pub open spec fn spec_nearest_u64(self) -> u64 {
        let bits = self.bits as u64;
        if single().is_nan(bits) || single().neg(bits) {
            0
        } else if single().is_inf(bits) {
            u64::MAX
        } else {
            whole::saturated(single().whole(single().mag(bits), code::Whole::Nearest))
        }
    }

    /// The whole number nearest to `self`, halves away from zero, held to the
    /// range of the result. "Not a number" gives 0.
    #[verifier::when_used_as_spec(spec_nearest_u64)]
    pub fn nearest_u64(self) -> (r: u64)
        ensures
            r == self.spec_nearest_u64(),
    {
        reveal(Single::spec_nearest_u64);
        let format = Format { prec: 24, unit: 149 };
        let (neg, mag) = format.split(self.bits as u64);
        let top = format.top();
        if mag > top || neg {
            0
        } else if mag == top {
            u64::MAX
        } else {
            format.to_whole(mag, code::Whole::Nearest)
        }
    }

    #[verifier::opaque]
    pub open spec fn spec_to_i64(self) -> i64 {
        let bits = self.bits as u64;
        let n = if single().is_inf(bits) {
            u64::MAX
        } else {
            whole::saturated(single().whole(single().mag(bits), code::Whole::Trunc))
        };
        if single().is_nan(bits) {
            0
        } else if single().neg(bits) {
            if n > i64::MAX {
                i64::MIN
            } else {
                (-n) as i64
            }
        } else if n > i64::MAX {
            i64::MAX
        } else {
            n as i64
        }
    }

    /// `self` without its fraction, held to the range of the result. "Not a
    /// number" gives 0.
    #[verifier::when_used_as_spec(spec_to_i64)]
    pub fn to_i64(self) -> (r: i64)
        ensures
            r == self.spec_to_i64(),
    {
        reveal(Single::spec_to_i64);
        let format = Format { prec: 24, unit: 149 };
        let (neg, mag) = format.split(self.bits as u64);
        let top = format.top();
        if mag > top {
            return 0;
        }
        let n = if mag == top {
            u64::MAX
        } else {
            format.to_whole(mag, code::Whole::Trunc)
        };
        if neg {
            if n > i64::MAX as u64 {
                i64::MIN
            } else {
                -(n as i64)
            }
        } else if n > i64::MAX as u64 {
            i64::MAX
        } else {
            n as i64
        }
    }

    #[verifier::opaque]
    pub open spec fn spec_total_rank(self) -> i64 {
        if single().neg(self.bits as u64) {
            (-1 - single().mag(self.bits as u64)) as i64
        } else {
            single().mag(self.bits as u64) as i64
        }
    }

    /// The rank of `self` in the total order of IEEE 754, in which every two
    /// encodings that differ are apart.
    #[verifier::when_used_as_spec(spec_total_rank)]
    pub fn total_rank(self) -> (r: i64)
        ensures
            r == self.spec_total_rank(),
    {
        reveal(Single::spec_total_rank);
        let (neg, mag) = Format { prec: 24, unit: 149 }.split(self.bits as u64);
        if neg {
            -1 - mag as i64
        } else {
            mag as i64
        }
    }

    #[verifier::opaque]
    pub open spec fn spec_to_double(self) -> Double {
        Double { bits: single().spec_convert(double(), self.bits as u64) as u64 }
    }

    /// The same value as a [`Double`], rounded where it has to be.
    #[verifier::when_used_as_spec(spec_to_double)]
    pub fn to_double(self) -> (r: Double)
        ensures
            r == self.spec_to_double(),
    {
        reveal(Single::spec_to_double);
        Double {
            bits: Format { prec: 24, unit: 149 }.convert(
                Format { prec: 53, unit: 1074 },
                self.bits as u64,
            ) as u64,
        }
    }
}

/// A 64-bit floating-point number, held as its encoding.
///
/// Every bit pattern is a value. Operations that give "not a number" give the
/// one encoding of it that has a clear sign and a zero payload.
#[derive(Clone, Copy, Debug, PartialEq, Eq, Structural)]
pub struct Double {
    pub bits: u64,
}

/// The format of [`Double`].
pub open spec fn double() -> Format {
    Format { prec: 53, unit: 1074 }
}

impl Double {
    #[verifier::opaque]
    pub open spec fn spec_plus(self, other: Double) -> Double {
        Double { bits: double().spec_sum(self.bits, other.bits) }
    }

    /// `self + other`.
    #[verifier::when_used_as_spec(spec_plus)]
    pub fn plus(self, other: Double) -> (r: Double)
        ensures
            r == self.spec_plus(other),
    {
        reveal(Double::spec_plus);
        Double { bits: Format { prec: 53, unit: 1074 }.sum(self.bits, other.bits) }
    }

    #[verifier::opaque]
    pub open spec fn spec_minus(self, other: Double) -> Double {
        Double {
            bits: double().spec_sum(
                self.bits,
                double().spec_negated(other.bits),
            ),
        }
    }

    /// `self - other`.
    #[verifier::when_used_as_spec(spec_minus)]
    pub fn minus(self, other: Double) -> (r: Double)
        ensures
            r == self.spec_minus(other),
    {
        reveal(Double::spec_minus);
        let format = Format { prec: 53, unit: 1074 };
        let flipped = format.negated(other.bits);
        Double { bits: format.sum(self.bits, flipped) }
    }

    #[verifier::opaque]
    pub open spec fn spec_times(self, other: Double) -> Double {
        Double { bits: double().spec_product(self.bits, other.bits) }
    }

    /// `self * other`.
    #[verifier::when_used_as_spec(spec_times)]
    pub fn times(self, other: Double) -> (r: Double)
        ensures
            r == self.spec_times(other),
    {
        reveal(Double::spec_times);
        Double { bits: Format { prec: 53, unit: 1074 }.product(self.bits, other.bits) }
    }

    #[verifier::opaque]
    pub open spec fn spec_over(self, other: Double) -> Double {
        Double { bits: double().spec_quotient(self.bits, other.bits) }
    }

    /// `self / other`.
    #[verifier::when_used_as_spec(spec_over)]
    pub fn over(self, other: Double) -> (r: Double)
        ensures
            r == self.spec_over(other),
    {
        reveal(Double::spec_over);
        Double { bits: Format { prec: 53, unit: 1074 }.quotient(self.bits, other.bits) }
    }

    #[verifier::opaque]
    pub open spec fn spec_less(self, other: Double) -> bool {
        double().spec_less(self.bits, other.bits)
    }

    /// `self < other`, which is false where either is not a number.
    #[verifier::when_used_as_spec(spec_less)]
    pub fn less(self, other: Double) -> (r: bool)
        ensures
            r == self.spec_less(other),
    {
        reveal(Double::spec_less);
        Format { prec: 53, unit: 1074 }.less(self.bits, other.bits)
    }

    #[verifier::opaque]
    pub open spec fn spec_is_nan(self) -> bool {
        double().is_nan(self.bits)
    }

    /// Whether `self` is not a number.
    #[verifier::when_used_as_spec(spec_is_nan)]
    pub fn is_nan(self) -> (r: bool)
        ensures
            r == self.spec_is_nan(),
    {
        reveal(Double::spec_is_nan);
        let format = Format { prec: 53, unit: 1074 };
        let (_, mag) = format.split(self.bits);
        mag > format.top()
    }

    #[verifier::opaque]
    pub open spec fn spec_is_finite(self) -> bool {
        double().is_finite(self.bits)
    }

    /// Whether `self` is a number and not infinite.
    #[verifier::when_used_as_spec(spec_is_finite)]
    pub fn is_finite(self) -> (r: bool)
        ensures
            r == self.spec_is_finite(),
    {
        reveal(Double::spec_is_finite);
        let format = Format { prec: 53, unit: 1074 };
        let (_, mag) = format.split(self.bits);
        mag < format.top()
    }

    pub open spec fn spec_at_most(self, other: Double) -> bool {
        !self.spec_is_nan() && !other.spec_is_nan() && !other.spec_less(self)
    }

    /// `self <= other`, which is false where either is not a number.
    #[verifier::when_used_as_spec(spec_at_most)]
    pub fn at_most(self, other: Double) -> (r: bool)
        ensures
            r == self.spec_at_most(other),
    {
        !self.is_nan() && !other.is_nan() && !other.less(self)
    }

    pub open spec fn spec_max(self, other: Double) -> Double {
        if self.spec_is_nan() || self.spec_less(other) {
            other
        } else {
            self
        }
    }

    /// The larger of the two, or the other one where one is not a number.
    #[verifier::when_used_as_spec(spec_max)]
    pub fn max(self, other: Double) -> (r: Double)
        ensures
            r == self.spec_max(other),
    {
        if self.is_nan() || self.less(other) {
            other
        } else {
            self
        }
    }

    pub open spec fn spec_min(self, other: Double) -> Double {
        if self.spec_is_nan() || other.spec_less(self) {
            other
        } else {
            self
        }
    }

    /// The smaller of the two, or the other one where one is not a number.
    #[verifier::when_used_as_spec(spec_min)]
    pub fn min(self, other: Double) -> (r: Double)
        ensures
            r == self.spec_min(other),
    {
        if self.is_nan() || other.less(self) {
            other
        } else {
            self
        }
    }

    #[verifier::opaque]
    pub open spec fn spec_from_u64(n: u64) -> Double {
        Double { bits: double().spec_from_int(n as nat) }
    }

    /// The value nearest to `n`.
    #[verifier::when_used_as_spec(spec_from_u64)]
    pub fn from_u64(n: u64) -> (r: Double)
        ensures
            r == Double::spec_from_u64(n),
    {
        reveal(Double::spec_from_u64);
        Double { bits: Format { prec: 53, unit: 1074 }.from_int(n) }
    }

    #[verifier::opaque]
    pub open spec fn spec_to_u64(self) -> u64 {
        let bits = self.bits;
        if double().is_nan(bits) || double().neg(bits) {
            0
        } else if double().is_inf(bits) {
            u64::MAX
        } else {
            whole::saturated(double().whole(double().mag(bits), code::Whole::Trunc))
        }
    }

    /// `self` without its fraction: 0 below zero and for "not a number", the
    /// largest integer above it.
    #[verifier::when_used_as_spec(spec_to_u64)]
    pub fn to_u64(self) -> (r: u64)
        ensures
            r == self.spec_to_u64(),
    {
        reveal(Double::spec_to_u64);
        let format = Format { prec: 53, unit: 1074 };
        let (neg, mag) = format.split(self.bits);
        let top = format.top();
        if mag > top || neg {
            0
        } else if mag == top {
            u64::MAX
        } else {
            format.to_whole(mag, code::Whole::Trunc)
        }
    }

    pub open spec fn spec_to_u32(self) -> u32 {
        let n = self.spec_to_u64();
        if n > u32::MAX {
            u32::MAX
        } else {
            n as u32
        }
    }

    /// `self` without its fraction, held to the range of the result.
    #[verifier::when_used_as_spec(spec_to_u32)]
    pub fn to_u32(self) -> (r: u32)
        ensures
            r == self.spec_to_u32(),
    {
        let n = self.to_u64();
        if n > u32::MAX as u64 {
            u32::MAX
        } else {
            n as u32
        }
    }

    #[verifier::opaque]
    pub open spec fn spec_to_single(self) -> Single {
        Single { bits: double().spec_convert(single(), self.bits) as u32 }
    }

    /// The same value as a [`Single`], rounded where it has to be.
    #[verifier::when_used_as_spec(spec_to_single)]
    pub fn to_single(self) -> (r: Single)
        ensures
            r == self.spec_to_single(),
    {
        reveal(Double::spec_to_single);
        Single {
            bits: Format { prec: 53, unit: 1074 }.convert(
                Format { prec: 24, unit: 149 },
                self.bits,
            ) as u32,
        }
    }
}

} // verus!
