//! Sums and differences of binary32 values, correctly rounded.

use vstd::prelude::*;
use vstd::arithmetic::power2::{pow2, lemma2_to64, lemma_pow2_adds, lemma_pow2_pos,
    lemma_pow2_strictly_increases};
use crate::rounding::{lemma_cut_is_place, lemma_narrow_cut, lemma_round_scaled, round,
    round_magnitude, Tail};
use crate::scalar::Scalar;

verus! {

/// 2^count.
fn power_of_two(count: u32) -> (r: u64)
    requires
        count < 64,
    ensures
        r == pow2(count as nat),
{
    proof {
        vstd::bits::lemma_u64_pow2_no_overflow(count as nat);
        vstd::bits::lemma_u64_shl_is_mul(1, count as u64);
    }
    1u64 << (count as u64)
}

/// `high * 2^gap + low` where the two terms have the same sign, else
/// `high * 2^gap - low`.
pub open spec fn aligned(high: nat, low: nat, gap: nat, alike: bool) -> int {
    if alike {
        (high * pow2(gap) + low) as int
    } else {
        high * pow2(gap) - low
    }
}

/// The sum of two signed magnitudes, the larger first, is the aligned sum or
/// difference of the significands with the sign of the larger.
proof fn lemma_signed_total(
    high: nat,
    low: nat,
    gap: nat,
    base: nat,
    negative: bool,
    low_negative: bool,
)
    requires
        high * pow2(gap) >= low,
    ensures
        ({
            let a = high * pow2(gap + base);
            let b = low * pow2(base);
            let n = aligned(high, low, gap, negative == low_negative);
            let total = (if negative { -a } else { a as int }) + (if low_negative { -b } else { b as int });
            &&& n >= 0
            &&& high * pow2(gap) * pow2(base) == a
            &&& (n == 0 <==> total == 0)
            &&& total == if negative { -(n * pow2(base)) } else { n * pow2(base) }
        }),
{
    let p = pow2(gap) as int;
    let q = pow2(base) as int;
    let h = high as int;
    let l = low as int;
    lemma_pow2_adds(gap, base);
    lemma_pow2_pos(base);
    assert(h * (p * q) == h * p * q) by (nonlinear_arith);
    assert((h * p + l) * q == h * p * q + l * q) by (nonlinear_arith);
    assert((h * p - l) * q == h * p * q - l * q) by (nonlinear_arith);
    let n = aligned(high, low, gap, negative == low_negative);
    assert(n == 0 <==> n * q == 0) by (nonlinear_arith)
        requires
            q > 0,
    ;
}

/// With more than 32 bits between the two, the smaller term only says on
/// which side of the larger the sum lies.
proof fn lemma_far_sum(high: nat, low: nat, gap: nat, base: nat, alike: bool)
    requires
        0x80_0000 <= high < 0x100_0000,
        low < 0x100_0000,
        gap > 32,
    ensures
        aligned(high, low, gap, alike) > 0,
        round((aligned(high, low, gap, alike) * pow2(base)) as nat, 0, Tail::Exact) == round(
            if low == 0 || alike { 8 * high } else { (8 * high - 1) as nat },
            base + gap - 3,
            if low == 0 { Tail::Exact } else if alike { Tail::BelowHalf } else { Tail::AboveHalf },
        ),
{
    lemma2_to64();
    let count = (gap - 3) as nat;
    let unit = pow2(count) as int;
    let h = high as int;
    let l = low as int;
    lemma_pow2_adds(3, count);
    lemma_pow2_strictly_increases(25, count);
    vstd::arithmetic::power2::lemma_pow2_unfold(count);
    assert(h * (8 * unit) == (8 * h) * unit) by (nonlinear_arith);
    assert((8 * h) * unit == (8 * h - 1) * unit + unit) by (nonlinear_arith);
    assert((8 * h - 1) * unit >= 0x80_0000) by (nonlinear_arith)
        requires
            8 * h - 1 >= 0x80_0000,
            unit >= 1,
    ;
    let n = aligned(high, low, gap, alike);
    let (top, rest): (int, int) = if low == 0 || alike { (8 * h, l) } else { (8 * h - 1, unit - l) };
    assert(n == top * unit + rest);
    assert(top * unit >= 0x80_0000) by (nonlinear_arith)
        requires
            top >= 0x80_0000,
            unit >= 1,
    ;
    lemma_round_scaled(n as nat, base);
    lemma_narrow_cut(top as nat, rest as nat, count, base as int, Tail::Exact);
    lemma_cut_is_place(rest as nat, count, Tail::Exact);
}

/// Whether `high * 2^gap ± low` is zero, and the magnitude bits of that
/// number of units of `2^base`, rounded.
fn magnitude_of_sum(high: u32, low: u32, gap: u32, base: u32, alike: bool) -> (r: (bool, u32))
    requires
        high < 0x100_0000,
        low < 0x100_0000,
        gap + base <= 253,
        gap > 0 ==> high >= 0x80_0000,
        high * pow2(gap as nat) >= low,
    ensures
        r.0 == (aligned(high as nat, low as nat, gap as nat, alike) == 0),
        r.1 == round(
            (aligned(high as nat, low as nat, gap as nat, alike) * pow2(base as nat)) as nat,
            0,
            Tail::Exact,
        ),
        r.1 <= 0x7f80_0000,
{
    if gap <= 32 {
        let scale: u64 = power_of_two(gap);
        proof {
            lemma2_to64();
            if gap < 32 {
                lemma_pow2_strictly_increases(gap as nat, 32);
            }
            assert(high * scale <= 0x100_0000 * 0x1_0000_0000) by (nonlinear_arith)
                requires
                    high < 0x100_0000,
                    scale <= 0x1_0000_0000,
            ;
        }
        let wide: u64 = (high as u64) * scale;
        let sig: u64 = if alike { wide + low as u64 } else { wide - low as u64 };
        proof {
            lemma_round_scaled(sig as nat, base as nat);
        }
        (sig == 0, round_magnitude(sig as u128, base as i32, Tail::Exact))
    } else {
        proof {
            lemma_far_sum(high as nat, low as nat, gap as nat, base as nat, alike);
        }
        let shift: i32 = (base + gap - 3) as i32;
        if low == 0 {
            (false, round_magnitude((high as u128) * 8, shift, Tail::Exact))
        } else if alike {
            (false, round_magnitude((high as u128) * 8, shift, Tail::BelowHalf))
        } else {
            (false, round_magnitude((high as u128) * 8 - 1, shift, Tail::AboveHalf))
        }
    }
}

impl Scalar {
    /// The finite value as a whole number of units of 2^-149.
    pub open spec fn units(self) -> int {
        if self.is_negative() {
            -(self.significand() * pow2(self.shift()))
        } else {
            (self.significand() * pow2(self.shift())) as int
        }
    }

    /// `self + rhs`: the exact sum, rounded to nearest, ties to even. A sum
    /// that is zero is negative only where both terms are; infinities of
    /// opposite signs give a NaN.
    #[verifier::opaque]
    pub open spec fn sum(self, rhs: Scalar) -> Scalar {
        if self.is_nan() || rhs.is_nan() {
            Scalar { bits: 0x7fc0_0000 }
        } else if self.is_infinite() {
            if rhs.is_infinite() && self.is_negative() != rhs.is_negative() {
                Scalar { bits: 0x7fc0_0000 }
            } else {
                self
            }
        } else if rhs.is_infinite() {
            rhs
        } else {
            let total = self.units() + rhs.units();
            if total == 0 {
                Scalar::compose(self.is_negative() && rhs.is_negative(), 0)
            } else if total < 0 {
                Scalar::compose(true, round((-total) as nat, 0, Tail::Exact))
            } else {
                Scalar::compose(false, round(total as nat, 0, Tail::Exact))
            }
        }
    }

    /// `self - rhs`: the sum of `self` and `rhs` with its sign turned.
    pub open spec fn difference(self, rhs: Scalar) -> Scalar {
        self.sum(Scalar::compose(!rhs.is_negative(), rhs.magnitude() as u32))
    }

    /// The larger magnitude bits belong to the larger magnitude.
    proof fn lemma_magnitudes_ordered(self, rhs: Scalar)
        requires
            self.is_finite(),
            rhs.is_finite(),
            self.magnitude() >= rhs.magnitude(),
        ensures
            self.shift() >= rhs.shift(),
            self.significand() * pow2((self.shift() - rhs.shift()) as nat) >= rhs.significand(),
            self.shift() > rhs.shift() ==> self.significand() >= 0x80_0000,
    {
        lemma2_to64();
        let d = (self.shift() - rhs.shift()) as nat;
        let m = self.significand() as int;
        let p = pow2(d) as int;
        lemma_pow2_pos(d);
        if d > 0 {
            lemma_pow2_strictly_increases(0, d);
            assert(m * p >= 0x100_0000) by (nonlinear_arith)
                requires
                    m >= 0x80_0000,
                    p >= 2,
            ;
        } else {
            assert(m * p == m) by (nonlinear_arith)
                requires
                    p == 1,
            ;
        }
    }

    /// `large + small`, where both are finite and `large` has the larger
    /// magnitude bits.
    fn add_ordered(large: Scalar, small: Scalar) -> (r: Scalar)
        requires
            large.is_finite(),
            small.is_finite(),
            large.magnitude() >= small.magnitude(),
        ensures
            r == large.sum(small),
    {
        reveal(Scalar::sum);
        let (ma, ja) = large.parts();
        let (mb, jb) = small.parts();
        let negative: bool = large.sign_negative();
        let alike: bool = negative == small.sign_negative();
        proof {
            large.lemma_magnitudes_ordered(small);
            lemma_signed_total(
                ma as nat,
                mb as nat,
                (ja - jb) as nat,
                jb as nat,
                negative,
                small.is_negative(),
            );
        }
        let (nothing, bits) = magnitude_of_sum(ma, mb, ja - jb, jb, alike);
        if nothing {
            Scalar::with_sign(negative && small.sign_negative(), 0)
        } else {
            Scalar::with_sign(negative, bits)
        }
    }

    /// `self + rhs`.
    pub fn add(self, rhs: Scalar) -> (r: Scalar)
        ensures
            r == self.sum(rhs),
    {
        reveal(Scalar::sum);
        if self.nan_test() || rhs.nan_test() {
            Scalar::nan()
        } else if self.infinite_test() {
            if rhs.infinite_test() && self.sign_negative() != rhs.sign_negative() {
                Scalar::nan()
            } else {
                self
            }
        } else if rhs.infinite_test() {
            rhs
        } else if self.abs_bits() < rhs.abs_bits() {
            Scalar::add_ordered(rhs, self)
        } else {
            Scalar::add_ordered(self, rhs)
        }
    }

    /// `self - rhs`.
    pub fn sub(self, rhs: Scalar) -> (r: Scalar)
        ensures
            r == self.difference(rhs),
    {
        self.add(rhs.negated())
    }
}

} // verus!
