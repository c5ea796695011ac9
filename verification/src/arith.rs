//! Products, quotients and conversions of binary32 values, correctly rounded.

use vstd::prelude::*;
use vstd::arithmetic::power2::{pow2, lemma2_to64, lemma_pow2_adds, lemma_pow2_pos};
use crate::rounding::{round, round_magnitude, Tail};
use crate::scalar::{Scalar, INFINITY_BITS};

verus! {

/// Where `num / den` lies above its whole part, from the remainder.
pub open spec fn ratio_tail(remainder: nat, den: nat) -> Tail {
    if remainder == 0 {
        Tail::Exact
    } else if 2 * remainder < den {
        Tail::BelowHalf
    } else if 2 * remainder == den {
        Tail::Half
    } else {
        Tail::AboveHalf
    }
}

impl Scalar {
    /// `self * rhs`: the exact product, rounded to nearest, ties to even.
    /// Infinity times zero is a NaN.
    #[verifier::opaque]
    pub open spec fn product(self, rhs: Scalar) -> Scalar {
        let negative = self.is_negative() != rhs.is_negative();
        if self.is_nan() || rhs.is_nan() {
            Scalar { bits: 0x7fc0_0000 }
        } else if self.is_infinite() || rhs.is_infinite() {
            if self.is_zero() || rhs.is_zero() {
                Scalar { bits: 0x7fc0_0000 }
            } else {
                Scalar::compose(negative, 0x7f80_0000)
            }
        } else {
            Scalar::compose(
                negative,
                round(
                    self.significand() * rhs.significand(),
                    self.shift() + rhs.shift() - 149,
                    Tail::Exact,
                ),
            )
        }
    }

    /// `self / rhs`: the quotient of the significands to 64 binary places with
    /// the place of what is left, rounded to nearest, ties to even. Zero by
    /// zero and infinity by infinity are NaNs; another value by zero is an
    /// infinity.
    #[verifier::opaque]
    pub open spec fn quotient(self, rhs: Scalar) -> Scalar {
        let negative = self.is_negative() != rhs.is_negative();
        if self.is_nan() || rhs.is_nan() {
            Scalar { bits: 0x7fc0_0000 }
        } else if self.is_infinite() {
            if rhs.is_infinite() {
                Scalar { bits: 0x7fc0_0000 }
            } else {
                Scalar::compose(negative, 0x7f80_0000)
            }
        } else if rhs.is_infinite() {
            Scalar::compose(negative, 0)
        } else if rhs.is_zero() {
            if self.is_zero() {
                Scalar { bits: 0x7fc0_0000 }
            } else {
                Scalar::compose(negative, 0x7f80_0000)
            }
        } else {
            let num = self.significand() * 0x1_0000_0000_0000_0000;
            let den = rhs.significand();
            Scalar::compose(
                negative,
                round(
                    num / den,
                    self.shift() - rhs.shift() + 85,
                    ratio_tail(num % den, den),
                ),
            )
        }
    }

    /// The whole number `n` as a value: exact below 2^24, rounded above.
    #[verifier::opaque]
    pub open spec fn of_integer(n: u32) -> Scalar {
        Scalar { bits: round(n as nat, 149, Tail::Exact) }
    }

    /// The whole part of the value, kept within 0 to 255: 0 for a NaN and
    /// for every negative value.
    #[verifier::opaque]
    pub open spec fn clamped_byte(self) -> u8 {
        if self.is_nan() || self.is_negative() {
            0
        } else if self.is_infinite() {
            255
        } else {
            let whole = self.significand() * pow2(self.shift()) / pow2(149);
            if whole >= 255 {
                255
            } else {
                whole as u8
            }
        }
    }

    /// `self * rhs`.
    pub fn mul(self, rhs: Scalar) -> (r: Scalar)
        ensures
            r == self.product(rhs),
    {
        reveal(Scalar::product);
        let negative: bool = self.sign_negative() != rhs.sign_negative();
        if self.nan_test() || rhs.nan_test() {
            Scalar::nan()
        } else if self.infinite_test() || rhs.infinite_test() {
            if self.zero_test() || rhs.zero_test() {
                Scalar::nan()
            } else {
                Scalar::with_sign(negative, INFINITY_BITS)
            }
        } else {
            let (ma, ja) = self.parts();
            let (mb, jb) = rhs.parts();
            assert(ma * mb <= 0x100_0000 * 0x100_0000) by (nonlinear_arith)
                requires
                    ma < 0x100_0000,
                    mb < 0x100_0000,
            ;
            let sig: u128 = (ma as u128) * (mb as u128);
            let shift: i32 = ja as i32 + jb as i32 - 149;
            Scalar::with_sign(negative, round_magnitude(sig, shift, Tail::Exact))
        }
    }

    /// `self / rhs`.
    pub fn div(self, rhs: Scalar) -> (r: Scalar)
        ensures
            r == self.quotient(rhs),
    {
        reveal(Scalar::quotient);
        let negative: bool = self.sign_negative() != rhs.sign_negative();
        if self.nan_test() || rhs.nan_test() {
            Scalar::nan()
        } else if self.infinite_test() {
            if rhs.infinite_test() {
                Scalar::nan()
            } else {
                Scalar::with_sign(negative, INFINITY_BITS)
            }
        } else if rhs.infinite_test() {
            Scalar::with_sign(negative, 0)
        } else if rhs.zero_test() {
            if self.zero_test() {
                Scalar::nan()
            } else {
                Scalar::with_sign(negative, INFINITY_BITS)
            }
        } else {
            let (ma, ja) = self.parts();
            let (mb, jb) = rhs.parts();
            let num: u128 = (ma as u128) * 0x1_0000_0000_0000_0000u128;
            let den: u128 = mb as u128;
            let whole: u128 = num / den;
            let left: u128 = num % den;
            let tail: Tail = if left == 0 {
                Tail::Exact
            } else if 2 * left < den {
                Tail::BelowHalf
            } else if 2 * left == den {
                Tail::Half
            } else {
                Tail::AboveHalf
            };
            let shift: i32 = ja as i32 - jb as i32 + 85;
            Scalar::with_sign(negative, round_magnitude(whole, shift, tail))
        }
    }

    /// The value of a whole number, as a cast gives it.
    pub fn from_u32(n: u32) -> (r: Scalar)
        ensures
            r == Scalar::of_integer(n),
    {
        reveal(Scalar::of_integer);
        Scalar { bits: round_magnitude(n as u128, 149, Tail::Exact) }
    }

    /// The value as a byte, as a saturating cast gives it.
    pub fn to_u8(self) -> (r: u8)
        ensures
            r == self.clamped_byte(),
    {
        reveal(Scalar::clamped_byte);
        if self.nan_test() || self.sign_negative() {
            0
        } else if self.infinite_test() {
            255
        } else {
            let (m, j) = self.parts();
            proof {
                lemma2_to64();
                lemma_pow2_pos(j as nat);
                lemma_pow2_pos(149);
            }
            if j >= 149 {
                proof {
                    lemma_pow2_adds(149, (j - 149) as nat);
                    lemma_pow2_pos((j - 149) as nat);
                    let p = pow2(149) as int;
                    let q = pow2((j - 149) as nat) as int;
                    let mm = m as int;
                    assert(mm * (p * q) / p >= 255) by (nonlinear_arith)
                        requires
                            mm >= 0x80_0000,
                            p > 0,
                            q >= 1,
                    ;
                }
                255
            } else {
                let k: u32 = 149 - j;
                proof {
                    lemma_pow2_adds(j as nat, k as nat);
                    lemma_pow2_pos(k as nat);
                    let p = pow2(j as nat) as int;
                    let q = pow2(k as nat) as int;
                    let mm = m as int;
                    assert(mm * p / (p * q) == mm / q) by (nonlinear_arith)
                        requires
                            mm >= 0,
                            p > 0,
                            q > 0,
                    ;
                }
                if k >= 24 {
                    proof {
                        lemma_pow2_adds(24, (k - 24) as nat);
                        lemma_pow2_pos((k - 24) as nat);
                        let q = pow2(k as nat) as int;
                        let q1 = pow2((k - 24) as nat) as int;
                        let mm = m as int;
                        assert(q >= 0x100_0000) by (nonlinear_arith)
                            requires
                                q == 0x100_0000 * q1,
                                q1 >= 1,
                        ;
                        assert(mm / q == 0) by (nonlinear_arith)
                            requires
                                0 <= mm < 0x100_0000,
                                q >= 0x100_0000,
                        ;
                    }
                    0
                } else {
                    proof {
                        vstd::bits::lemma_u32_shr_is_div(m, k);
                    }
                    let whole: u32 = m >> k;
                    if whole >= 255 {
                        255
                    } else {
                        whole as u8
                    }
                }
            }
        }
    }
}

} // verus!
