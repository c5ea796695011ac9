//! Binary32 values held as their bit patterns: layout, classification and order.

use vstd::prelude::*;

verus! {

/// The bit that holds the sign.
pub const SIGN_BIT: u32 = 0x8000_0000;

/// The magnitude bits of an infinity; every larger magnitude is a NaN.
pub const INFINITY_BITS: u32 = 0x7f80_0000;

/// The NaN that every operation of this library returns when it returns one.
pub const NAN_BITS: u32 = 0x7fc0_0000;

/// The weight of the implicit leading bit of a normal significand, 2^23.
pub const HIDDEN_BIT: u32 = 0x0080_0000;

/// An IEEE 754 binary32 number, held as its bit pattern.
///
/// A finite magnitude is a whole number of units of 2^-149, the smallest
/// positive value: `significand() * 2^shift()` units.
#[derive(Clone, Copy, Debug)]
pub struct Scalar {
    pub bits: u32,
}

impl Scalar {
    /// The bits without the sign.
    pub open spec fn magnitude(self) -> nat {
        (self.bits % 0x8000_0000) as nat
    }

    pub open spec fn is_negative(self) -> bool {
        self.bits >= 0x8000_0000
    }

    pub open spec fn is_nan(self) -> bool {
        self.magnitude() > 0x7f80_0000
    }

    pub open spec fn is_infinite(self) -> bool {
        self.magnitude() == 0x7f80_0000
    }

    pub open spec fn is_finite(self) -> bool {
        self.magnitude() < 0x7f80_0000
    }

    pub open spec fn is_zero(self) -> bool {
        self.magnitude() == 0
    }

    /// The exponent field.
    pub open spec fn exponent(self) -> nat {
        self.magnitude() / 0x80_0000
    }

    /// The significand of a finite value, with the implicit bit of a normal one.
    pub open spec fn significand(self) -> nat {
        if self.exponent() == 0 {
            self.magnitude() % 0x80_0000
        } else {
            self.magnitude() % 0x80_0000 + 0x80_0000
        }
    }

    /// The power of two, in units of 2^-149, that the significand of a finite
    /// value is scaled by.
    pub open spec fn shift(self) -> nat {
        if self.exponent() == 0 {
            0
        } else {
            (self.exponent() - 1) as nat
        }
    }

    /// The value with the given sign and magnitude bits.
    pub open spec fn compose(negative: bool, magnitude: u32) -> Scalar {
        Scalar { bits: if negative { (magnitude + 0x8000_0000) as u32 } else { magnitude } }
    }

    /// The place of a value that is no NaN in the order of the numbers: the
    /// magnitude bits, negated for a negative value. Both zeros have key 0.
    pub open spec fn key(self) -> int {
        if self.is_negative() {
            -(self.magnitude() as int)
        } else {
            self.magnitude() as int
        }
    }

    /// `self < rhs` as IEEE 754 orders them: false where either is a NaN.
    pub open spec fn less(self, rhs: Scalar) -> bool {
        !self.is_nan() && !rhs.is_nan() && self.key() < rhs.key()
    }

    /// `self == rhs` as IEEE 754 compares them: the zeros are equal, a NaN
    /// equals nothing.
    pub open spec fn same(self, rhs: Scalar) -> bool {
        !self.is_nan() && !rhs.is_nan() && self.key() == rhs.key()
    }

    /// The smaller of two values; where one is a NaN, the other.
    pub open spec fn lesser(self, rhs: Scalar) -> Scalar {
        if self.is_nan() {
            rhs
        } else if rhs.is_nan() {
            self
        } else if rhs.key() < self.key() || (rhs.key() == self.key() && rhs.is_negative()) {
            rhs
        } else {
            self
        }
    }

    /// The larger of two values; where one is a NaN, the other.
    pub open spec fn greater(self, rhs: Scalar) -> Scalar {
        if self.is_nan() {
            rhs
        } else if rhs.is_nan() {
            self
        } else if rhs.key() > self.key() || (rhs.key() == self.key() && !rhs.is_negative()) {
            rhs
        } else {
            self
        }
    }

    pub fn from_bits(bits: u32) -> (r: Scalar)
        ensures
            r.bits == bits,
    {
        Scalar { bits }
    }

    pub fn to_bits(self) -> (r: u32)
        ensures
            r == self.bits,
    {
        self.bits
    }

    /// Positive zero.
    pub fn zero() -> (r: Scalar)
        ensures
            r.bits == 0,
    {
        Scalar { bits: 0 }
    }

    /// The number one.
    pub fn one() -> (r: Scalar)
        ensures
            r.bits == 0x3f80_0000,
    {
        Scalar { bits: 0x3f80_0000 }
    }

    /// Positive infinity.
    pub fn infinity() -> (r: Scalar)
        ensures
            r.bits == 0x7f80_0000,
    {
        Scalar { bits: INFINITY_BITS }
    }

    pub fn nan() -> (r: Scalar)
        ensures
            r.bits == 0x7fc0_0000,
    {
        Scalar { bits: NAN_BITS }
    }

    pub fn abs_bits(self) -> (r: u32)
        ensures
            r == self.magnitude(),
    {
        self.bits % SIGN_BIT
    }

    pub fn sign_negative(self) -> (r: bool)
        ensures
            r == self.is_negative(),
    {
        self.bits >= SIGN_BIT
    }

    pub fn nan_test(self) -> (r: bool)
        ensures
            r == self.is_nan(),
    {
        self.abs_bits() > INFINITY_BITS
    }

    pub fn infinite_test(self) -> (r: bool)
        ensures
            r == self.is_infinite(),
    {
        self.abs_bits() == INFINITY_BITS
    }

    pub fn zero_test(self) -> (r: bool)
        ensures
            r == self.is_zero(),
    {
        self.abs_bits() == 0
    }

    /// Splits a finite value into significand and shift.
    pub fn parts(self) -> (r: (u32, u32))
        requires
            self.is_finite(),
        ensures
            r.0 == self.significand(),
            r.1 == self.shift(),
            r.0 < 0x100_0000,
            r.1 <= 253,
            r.1 > 0 ==> r.0 >= 0x80_0000,
    {
        let m: u32 = self.abs_bits();
        let e: u32 = m / HIDDEN_BIT;
        let f: u32 = m % HIDDEN_BIT;
        if e == 0 {
            (f, 0)
        } else {
            (f + HIDDEN_BIT, e - 1)
        }
    }

    /// Puts a sign on magnitude bits.
    pub fn with_sign(negative: bool, magnitude: u32) -> (r: Scalar)
        requires
            magnitude < 0x8000_0000,
        ensures
            r == Scalar::compose(negative, magnitude),
            r.magnitude() == magnitude,
            r.is_negative() == negative,
    {
        if negative {
            Scalar { bits: magnitude + SIGN_BIT }
        } else {
            Scalar { bits: magnitude }
        }
    }

    /// The value with the opposite sign (of a NaN too).
    pub fn negated(self) -> (r: Scalar)
        ensures
            r == Scalar::compose(!self.is_negative(), self.magnitude() as u32),
    {
        Scalar::with_sign(!self.sign_negative(), self.abs_bits())
    }

    fn order_key(self) -> (r: i64)
        ensures
            r == self.key(),
    {
        let m: i64 = self.abs_bits() as i64;
        if self.sign_negative() {
            -m
        } else {
            m
        }
    }

    /// `self < rhs`.
    pub fn lt(self, rhs: Scalar) -> (r: bool)
        ensures
            r == self.less(rhs),
    {
        !self.nan_test() && !rhs.nan_test() && self.order_key() < rhs.order_key()
    }

    /// `self > rhs`.
    pub fn gt(self, rhs: Scalar) -> (r: bool)
        ensures
            r == rhs.less(self),
    {
        rhs.lt(self)
    }

    /// `self == rhs`, as numbers.
    pub fn equals(self, rhs: Scalar) -> (r: bool)
        ensures
            r == self.same(rhs),
    {
        !self.nan_test() && !rhs.nan_test() && self.order_key() == rhs.order_key()
    }

    /// The smaller of the two.
    pub fn min(self, rhs: Scalar) -> (r: Scalar)
        ensures
            r == self.lesser(rhs),
    {
        if self.nan_test() {
            rhs
        } else if rhs.nan_test() {
            self
        } else {
            let a: i64 = self.order_key();
            let b: i64 = rhs.order_key();
            if b < a || (b == a && rhs.sign_negative()) {
                rhs
            } else {
                self
            }
        }
    }

    /// The larger of the two.
    pub fn max(self, rhs: Scalar) -> (r: Scalar)
        ensures
            r == self.greater(rhs),
    {
        if self.nan_test() {
            rhs
        } else if rhs.nan_test() {
            self
        } else {
            let a: i64 = self.order_key();
            let b: i64 = rhs.order_key();
            if b > a || (b == a && !rhs.sign_negative()) {
                rhs
            } else {
                self
            }
        }
    }
}

} // verus!
