//! Cases in which binary32 arithmetic is exact.

use vstd::prelude::*;
use vstd::arithmetic::power2::{pow2, lemma2_to64};
use crate::rounding::{lemma_cut_is_place, lemma_narrow_cut, lemma_round_zero, round, Tail};
use crate::scalar::Scalar;
use crate::scene::ONE;

verus! {

/// The significand and the shift of a finite value name the value itself.
pub proof fn lemma_round_of_parts(x: Scalar)
    requires
        x.is_finite(),
    ensures
        round(x.significand(), x.shift() as int, Tail::Exact) == x.magnitude(),
{
}

/// A value that is no NaN stays the same when it is multiplied by one.
pub proof fn lemma_times_one(x: Scalar)
    requires
        !x.is_nan(),
    ensures
        x.product(Scalar { bits: ONE }) == x,
        (Scalar { bits: ONE }).product(x) == x,
{
    reveal(Scalar::product);
    let one = Scalar { bits: ONE };
    assert(one.significand() == 0x80_0000 && one.shift() == 126 && !one.is_negative());
    if x.is_finite() {
        lemma2_to64();
        let sig = x.significand();
        assert(sig * one.significand() == one.significand() * sig) by (nonlinear_arith);
        lemma_narrow_cut(sig, 0, 23, x.shift() - 23, Tail::Exact);
        lemma_cut_is_place(0, 23, Tail::Exact);
        assert(sig * 0x80_0000 >= 0x80_0000 || sig == 0) by (nonlinear_arith);
        if sig == 0 {
            assert(sig * 0x80_0000 == 0);
            lemma_round_zero(x.shift() - 23);
        }
    }
}

/// A finite value times zero is zero.
pub proof fn lemma_times_zero(x: Scalar, zero: Scalar)
    requires
        x.is_finite(),
        zero.is_zero(),
    ensures
        x.product(zero).is_zero(),
        zero.product(x).is_zero(),
{
    reveal(Scalar::product);
    assert(x.significand() * 0 == 0) by (nonlinear_arith);
    assert(0 * x.significand() == 0) by (nonlinear_arith);
    lemma_round_zero(x.shift() + zero.shift() - 149);
    lemma_round_zero(zero.shift() + x.shift() - 149);
}

/// Zeros sum to a zero.
pub proof fn lemma_sum_of_zeros(a: Scalar, b: Scalar)
    requires
        a.is_zero(),
        b.is_zero(),
    ensures
        a.sum(b).is_zero(),
{
    reveal(Scalar::sum);
    assert(0 * pow2(0) == 0) by (nonlinear_arith);
}

/// A NaN among the operands makes the result a NaN.
pub proof fn lemma_nan_spreads(a: Scalar, b: Scalar)
    requires
        a.is_nan() || b.is_nan(),
    ensures
        a.product(b).is_nan(),
        a.quotient(b).is_nan(),
        a.sum(b).is_nan(),
        a.difference(b).is_nan(),
{
    reveal(Scalar::product);
    reveal(Scalar::quotient);
    reveal(Scalar::sum);
}

/// Neither a NaN nor a value below zero has a root.
pub proof fn lemma_no_root(x: Scalar)
    requires
        x.is_nan() || x.less(Scalar { bits: 0 }),
    ensures
        x.root().is_nan(),
{
    reveal(Scalar::root);
}

/// The product does not depend on the order of its factors.
pub proof fn lemma_product_commutes(a: Scalar, b: Scalar)
    ensures
        a.product(b) == b.product(a),
{
    reveal(Scalar::product);
    assert(a.significand() * b.significand() == b.significand() * a.significand()) by (nonlinear_arith);
}

/// The sum does not depend on the order of its terms.
pub proof fn lemma_sum_commutes(a: Scalar, b: Scalar)
    ensures
        a.sum(b) == b.sum(a),
{
    reveal(Scalar::sum);
    if a.is_infinite() && b.is_infinite() && a.is_negative() == b.is_negative() {
        assert(a.bits == b.bits);
    }
}

} // verus!
