//! Square roots of binary32 values, correctly rounded.

use vstd::prelude::*;
use crate::rounding::{round, round_magnitude, Tail};
use crate::scalar::Scalar;

verus! {

/// `root` is the whole part of the square root of `n`.
pub open spec fn is_whole_root(n: nat, root: nat) -> bool {
    root * root <= n < (root + 1) * (root + 1)
}

/// The whole part of the square root of `n`.
pub open spec fn whole_root(n: nat) -> nat {
    choose|root: nat| is_whole_root(n, root)
}

/// Where the square root of `n` lies above its whole part `root`: it is never
/// at a half, and below one as long as `n` is at most `root * (root + 1)`.
pub open spec fn root_tail(n: nat, root: nat) -> Tail {
    if n == root * root {
        Tail::Exact
    } else if n - root * root <= root {
        Tail::BelowHalf
    } else {
        Tail::AboveHalf
    }
}

/// A number has one whole root.
pub proof fn lemma_whole_root_unique(n: nat, a: nat, b: nat)
    requires
        is_whole_root(n, a),
        is_whole_root(n, b),
    ensures
        a == b,
{
    if a < b {
        assert((a + 1) * (a + 1) <= b * b) by (nonlinear_arith)
            requires
                a + 1 <= b,
        ;
    }
    if b < a {
        assert((b + 1) * (b + 1) <= a * a) by (nonlinear_arith)
            requires
                b + 1 <= a,
        ;
    }
}

/// Every number has a whole root.
pub proof fn lemma_whole_root_exists(n: nat)
    ensures
        is_whole_root(n, whole_root(n)),
    decreases n,
{
    if n == 0 {
        assert(0nat * 0nat == 0 && (0nat + 1) * (0nat + 1) == 1) by (nonlinear_arith);
        assert(is_whole_root(0, 0));
    } else {
        lemma_whole_root_exists((n - 1) as nat);
        let before = whole_root((n - 1) as nat);
        if (before + 1) * (before + 1) <= n {
            assert((before + 2) * (before + 2) > (before + 1) * (before + 1)) by (nonlinear_arith);
            assert(is_whole_root(n, before + 1));
        } else {
            assert(is_whole_root(n, before));
        }
    }
}

/// The whole part of the square root.
pub fn integer_root(n: u128) -> (r: u128)
    ensures
        r == whole_root(n as nat),
        is_whole_root(n as nat, r as nat),
        r < 0x1_0000_0000_0000_0000,
{
    let mut low: u128 = 0;
    let mut high: u128 = 0x1_0000_0000_0000_0000;
    assert(n < 0x1_0000_0000_0000_0000 * 0x1_0000_0000_0000_0000);
    while high - low > 1
        invariant
            low < high <= 0x1_0000_0000_0000_0000,
            low * low <= n < high * high,
        decreases high - low,
    {
        let mid: u128 = low + (high - low) / 2;
        assert(mid * mid <= 0xffff_ffff_ffff_ffff * 0xffff_ffff_ffff_ffff) by (nonlinear_arith)
            requires
                mid <= 0xffff_ffff_ffff_ffff,
        ;
        if mid * mid <= n {
            low = mid;
        } else {
            high = mid;
        }
    }
    proof {
        assert(is_whole_root(n as nat, low as nat));
        lemma_whole_root_unique(n as nat, low as nat, whole_root(n as nat));
    }
    low
}

impl Scalar {
    /// The square root: of the significand at 50 or 51 more binary places, so
    /// that an even power of two is left, the whole root with the place of the
    /// rest, rounded to nearest. A zero is its own root; below zero there is
    /// none, and the result a NaN.
    #[verifier::opaque]
    pub open spec fn root(self) -> Scalar {
        if self.is_nan() {
            Scalar { bits: 0x7fc0_0000 }
        } else if self.is_zero() {
            self
        } else if self.is_negative() {
            Scalar { bits: 0x7fc0_0000 }
        } else if self.is_infinite() {
            self
        } else {
            let even = self.shift() % 2 == 0;
            let n = if even {
                self.significand() * 0x8_0000_0000_0000
            } else {
                self.significand() * 0x4_0000_0000_0000
            };
            let shift: int = if even {
                (self.shift() / 2 + 49) as int
            } else {
                (self.shift() - 1) / 2 + 50
            };
            Scalar { bits: round(whole_root(n), shift, root_tail(n, whole_root(n))) }
        }
    }

    /// The square root.
    pub fn sqrt(self) -> (r: Scalar)
        ensures
            r == self.root(),
    {
        reveal(Scalar::root);
        if self.nan_test() {
            Scalar::nan()
        } else if self.zero_test() {
            self
        } else if self.sign_negative() {
            Scalar::nan()
        } else if self.infinite_test() {
            self
        } else {
            let (m, j) = self.parts();
            let even: bool = j % 2 == 0;
            let n: u128 = if even {
                (m as u128) * 0x8_0000_0000_0000
            } else {
                (m as u128) * 0x4_0000_0000_0000
            };
            let shift: u32 = if even { j / 2 + 49 } else { (j - 1) / 2 + 50 };
            let root: u128 = integer_root(n);
            let square: u128 = root * root;
            let tail: Tail = if n == square {
                Tail::Exact
            } else if n - square <= root {
                Tail::BelowHalf
            } else {
                Tail::AboveHalf
            };
            Scalar { bits: round_magnitude(root, shift as i32, tail) }
        }
    }
}

} // verus!
