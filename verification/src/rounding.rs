//! Rounding to nearest, ties to even: from an exact magnitude to binary32 bits.

use vstd::prelude::*;
use vstd::arithmetic::power2::{pow2, lemma2_to64, lemma_pow2_pos, lemma_pow2_unfold};

verus! {

/// Where a magnitude lies between two neighbouring whole numbers: what has
/// been cut off below the last bit that is kept.
#[derive(Clone, Copy, Debug, PartialEq, Eq, Structural)]
pub enum Tail {
    /// Nothing: the magnitude is the whole number.
    Exact,
    /// Above the whole number, by less than a half.
    BelowHalf,
    /// A half above the whole number.
    Half,
    /// More than a half above the whole number.
    AboveHalf,
}

/// The tail after the lowest kept bit has been cut off as well.
pub open spec fn push(bit: nat, tail: Tail) -> Tail {
    if bit == 0 {
        if tail == Tail::Exact {
            Tail::Exact
        } else {
            Tail::BelowHalf
        }
    } else {
        if tail == Tail::Exact {
            Tail::Half
        } else {
            Tail::AboveHalf
        }
    }
}

/// Whether `sig` with this tail goes up to `sig + 1`: above a half always, at
/// a half when that makes it even.
pub open spec fn goes_up(sig: nat, tail: Tail) -> bool {
    tail == Tail::AboveHalf || (tail == Tail::Half && sig % 2 == 1)
}

/// The magnitude bits for a significand below 2^24 at a shift that is not
/// negative: rounded by the tail, and infinity where the format ends.
pub open spec fn pack(sig: nat, shift: int, tail: Tail) -> u32 {
    let bits = shift * 0x80_0000 + sig + if goes_up(sig, tail) { 1int } else { 0int };
    if bits >= 0x7f80_0000 {
        0x7f80_0000u32
    } else {
        bits as u32
    }
}

/// Rounds `(sig + tail) * 2^shift` units: halves the significand, one bit at a
/// time, while it has more than 24 bits or the shift is negative.
pub open spec fn round_narrow(sig: nat, shift: int, tail: Tail) -> u32
    decreases sig + (if shift < 0 { -shift } else { 0 }),
{
    if shift < 0 || sig >= 0x100_0000 {
        round_narrow(sig / 2, shift + 1, push(sig % 2, tail))
    } else {
        pack(sig, shift, tail)
    }
}

/// The magnitude bits nearest to `(sig + tail) * 2^shift` units of 2^-149,
/// ties to even. A significand of fewer than 24 bits is first doubled while
/// the shift is positive, which is exact where the tail is.
pub open spec fn round(sig: nat, shift: int, tail: Tail) -> u32
    decreases shift,
{
    if shift > 0 && sig < 0x80_0000 {
        round(sig * 2, shift - 1, tail)
    } else {
        round_narrow(sig, shift, tail)
    }
}

/// At a shift of 255 or more every magnitude rounds to infinity.
pub proof fn lemma_narrow_overflows(sig: nat, shift: int, tail: Tail)
    requires
        shift >= 255,
    ensures
        round_narrow(sig, shift, tail) == 0x7f80_0000,
    decreases sig + (if shift < 0 { -shift } else { 0 }),
{
    if sig >= 0x100_0000 {
        lemma_narrow_overflows(sig / 2, shift + 1, push(sig % 2, tail));
    }
}

/// The tail after the lowest `count` kept bits, which are `low`, have been
/// cut off as well, the lowest first.
pub open spec fn cut(low: nat, count: nat, tail: Tail) -> Tail
    decreases count,
{
    if count == 0 {
        tail
    } else {
        cut(low / 2, (count - 1) as nat, push(low % 2, tail))
    }
}

/// Where `low + tail` lies among the multiples of `2^count`: at one, below
/// the middle between two, at the middle, or above it.
pub open spec fn place(low: nat, count: nat, tail: Tail) -> Tail {
    let half = pow2((count - 1) as nat);
    if low == 0 {
        if tail == Tail::Exact {
            Tail::Exact
        } else {
            Tail::BelowHalf
        }
    } else if low < half {
        Tail::BelowHalf
    } else if low == half {
        if tail == Tail::Exact {
            Tail::Half
        } else {
            Tail::AboveHalf
        }
    } else {
        Tail::AboveHalf
    }
}

/// Cutting bits off one at a time finds the place of what was cut off.
pub proof fn lemma_cut_is_place(low: nat, count: nat, tail: Tail)
    requires
        count >= 1,
        low < pow2(count),
    ensures
        cut(low, count, tail) == place(low, count, tail),
    decreases count,
{
    lemma2_to64();
    lemma_pow2_unfold(count);
    if count == 1 {
        assert(cut(low / 2, 0, push(low % 2, tail)) == push(low % 2, tail));
    } else {
        lemma_pow2_unfold((count - 1) as nat);
        lemma_pow2_pos((count - 2) as nat);
        lemma_cut_is_place(low / 2, (count - 1) as nat, push(low % 2, tail));
    }
}

/// Doubling the significand and lowering the shift by one names the same
/// magnitude.
pub proof fn lemma_round_double(sig: nat, shift: int)
    requires
        shift >= 0,
    ensures
        round(2 * sig, shift, Tail::Exact) == round(sig, shift + 1, Tail::Exact),
{
    if sig < 0x80_0000 {
        assert(sig * 2 == 2 * sig);
    } else {
        assert((2 * sig) / 2 == sig);
        assert((2 * sig) % 2 == 0);
    }
}

/// A whole number of units may be written with any part of its powers of two
/// in the shift.
pub proof fn lemma_round_scaled(sig: nat, count: nat)
    ensures
        round(sig * pow2(count), 0, Tail::Exact) == round(sig, count as int, Tail::Exact),
    decreases count,
{
    lemma2_to64();
    if count > 0 {
        lemma_pow2_unfold(count);
        let rest = pow2((count - 1) as nat);
        assert(sig * (2 * rest) == (2 * sig) * rest) by (nonlinear_arith);
        assert(sig * pow2(count) == (2 * sig) * rest);
        lemma_round_scaled(2 * sig, (count - 1) as nat);
        lemma_round_double(sig, count - 1);
    } else {
        assert(sig * pow2(0) == sig) by (nonlinear_arith)
            requires
                pow2(0) == 1,
        ;
    }
}

/// Of a significand of 24 bits or more above `count` low bits, or one that
/// stays below the smallest shift without them, rounding sees the high bits
/// and the place of the low ones.
pub proof fn lemma_narrow_cut(high: nat, low: nat, count: nat, shift: int, tail: Tail)
    requires
        high >= 0x80_0000 || shift + count <= 0,
        low < pow2(count),
    ensures
        round_narrow(high * pow2(count) + low, shift, tail) == round_narrow(
            high,
            shift + count,
            cut(low, count, tail),
        ),
    decreases count,
{
    lemma2_to64();
    if count > 0 {
        lemma_pow2_unfold(count);
        let rest = pow2((count - 1) as nat);
        let n = high * pow2(count) + low;
        assert(high * (2 * rest) == 2 * (high * rest)) by (nonlinear_arith);
        assert(high >= 0x80_0000 ==> high * rest >= 0x80_0000) by (nonlinear_arith)
            requires
                rest >= 1,
        ;
        assert(n == 2 * (high * rest) + low);
        assert(n / 2 == high * rest + low / 2);
        assert(n % 2 == low % 2);
        assert(n >= 0x100_0000 || shift < 0);
        lemma_narrow_cut(high, low / 2, (count - 1) as nat, shift + 1, push(low % 2, tail));
        assert(round_narrow(n, shift, tail) == round_narrow(n / 2, shift + 1, push(n % 2, tail)));
    } else {
        assert(high * pow2(0) == high) by (nonlinear_arith)
            requires
                pow2(0) == 1,
        ;
    }
}

/// Nothing rounds to zero, at every shift.
pub proof fn lemma_round_zero(shift: int)
    ensures
        round(0, shift, Tail::Exact) == 0,
        shift <= 0 ==> round_narrow(0, shift, Tail::Exact) == 0,
    decreases (if shift < 0 { -shift } else { shift }),
{
    if shift > 0 {
        assert(0nat * 2 == 0);
        lemma_round_zero(shift - 1);
    } else if shift < 0 {
        lemma_round_zero(shift + 1);
    }
}

/// The tail after one more bit is cut off.
pub fn push_bit(bit: u128, tail: Tail) -> (r: Tail)
    ensures
        r == push(bit as nat, tail),
{
    if bit == 0 {
        match tail {
            Tail::Exact => Tail::Exact,
            _ => Tail::BelowHalf,
        }
    } else {
        match tail {
            Tail::Exact => Tail::Half,
            _ => Tail::AboveHalf,
        }
    }
}

/// Rounds `(sig + tail) * 2^shift` units to magnitude bits.
pub fn round_magnitude(sig: u128, shift: i32, tail: Tail) -> (r: u32)
    ensures
        r == round(sig as nat, shift as int, tail),
        r <= 0x7f80_0000,
{
    let mut s: u128 = sig;
    let mut j: i32 = shift;
    let mut t: Tail = tail;
    while j > 0 && s < 0x80_0000
        invariant
            round(s as nat, j as int, t) == round(sig as nat, shift as int, tail),
        decreases j,
    {
        s = s * 2;
        j = j - 1;
    }
    while j < 0 || s >= 0x100_0000
        invariant
            round_narrow(s as nat, j as int, t) == round(sig as nat, shift as int, tail),
        decreases s + (if j < 0 { -j } else { 0 }),
    {
        if j >= 255 {
            proof {
                lemma_narrow_overflows(s as nat, j as int, t);
            }
            return 0x7f80_0000;
        }
        t = push_bit(s % 2, t);
        s = s / 2;
        j = j + 1;
    }
    if j >= 255 {
        0x7f80_0000
    } else {
        let up: u128 = match t {
            Tail::AboveHalf => 1,
            Tail::Half => s % 2,
            _ => 0,
        };
        let bits: u128 = (j as u128) * 0x80_0000 + s + up;
        if bits >= 0x7f80_0000 {
            0x7f80_0000
        } else {
            bits as u32
        }
    }
}

} // verus!
