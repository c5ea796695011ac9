//! What rounding means: the result is the nearest value the format has, and
//! of two that are as near the one with the even significand.

use vstd::prelude::*;
use vstd::arithmetic::power2::{pow2, lemma2_to64, lemma_pow2_pos, lemma_pow2_unfold,
    lemma_pow2_strictly_increases};
use crate::arith::ratio_tail;
use crate::rounding::{goes_up, pack, push, round, round_narrow};

verus! {

/// The magnitude that finite magnitude bits stand for, in units of 2^-149.
pub open spec fn units_of(bits: nat) -> nat {
    if bits / 0x80_0000 == 0 {
        bits % 0x80_0000
    } else {
        (bits % 0x80_0000 + 0x80_0000) * pow2((bits / 0x80_0000 - 1) as nat)
    }
}

/// How far the magnitude of `bits` is from `num / den` units, times `den`.
pub open spec fn gap(bits: nat, num: nat, den: nat) -> nat {
    let at = units_of(bits) * den;
    if at >= num {
        (at - num) as nat
    } else {
        (num - at) as nat
    }
}

/// No finite magnitude is nearer to `num / den` units than that of `bits`,
/// and if another is as near, `bits` is even.
pub open spec fn is_nearest(bits: nat, num: nat, den: nat) -> bool {
    forall|other: nat|
        other < 0x7f80_0000 ==> {
            &&& gap(bits, num, den) <= #[trigger] gap(other, num, den)
            &&& (gap(bits, num, den) == gap(other, num, den) && other != bits ==> bits % 2 == 0)
        }
}

/// The numerator of `(sig + rest / den) * 2^shift` over `denominator`.
pub open spec fn numerator(sig: nat, shift: int, rest: nat, den: nat) -> nat {
    (sig * den + rest) * pow2((if shift > 0 { shift } else { 0 }) as nat)
}

/// The denominator that goes with `numerator`.
pub open spec fn denominator(shift: int, den: nat) -> nat {
    den * pow2((if shift < 0 { -shift } else { 0 }) as nat)
}

/// Larger magnitude bits stand for a larger magnitude.
pub proof fn lemma_units_increase(a: nat, b: nat)
    requires
        a < b,
    ensures
        units_of(a) < units_of(b),
{
    lemma2_to64();
    let ea = a / 0x80_0000;
    let eb = b / 0x80_0000;
    let fa = (a % 0x80_0000) as int;
    let fb = (b % 0x80_0000) as int;
    if eb > 0 {
        let pb = pow2((eb - 1) as nat) as int;
        lemma_pow2_pos((eb - 1) as nat);
        assert((fb + 0x80_0000) * pb >= 0x80_0000 * pb) by (nonlinear_arith)
            requires
                fb >= 0,
                pb > 0,
        ;
        assert(0x80_0000 * pb >= 0x80_0000) by (nonlinear_arith)
            requires
                pb >= 1,
        ;
        if ea == eb {
            assert((fa + 0x80_0000) * pb < (fb + 0x80_0000) * pb) by (nonlinear_arith)
                requires
                    fa < fb,
                    pb > 0,
            ;
        } else if ea > 0 {
            let pa = pow2((ea - 1) as nat) as int;
            lemma_pow2_pos((ea - 1) as nat);
            lemma_pow2_unfold(ea);
            if ea < eb - 1 {
                lemma_pow2_strictly_increases(ea, (eb - 1) as nat);
            }
            assert((fa + 0x80_0000) * pa < 0x100_0000 * pa) by (nonlinear_arith)
                requires
                    fa < 0x80_0000,
                    pa > 0,
            ;
            assert(0x100_0000 * pa == 0x80_0000 * (2 * pa)) by (nonlinear_arith);
            assert(0x80_0000 * (2 * pa) <= 0x80_0000 * pb) by (nonlinear_arith)
                requires
                    2 * pa <= pb,
            ;
        }
    }
}

/// A significand of at most 2^24 at its shift, as bits, stands for the
/// significand times the power of two.
pub proof fn lemma_units_of_packed(sig: nat, shift: nat)
    requires
        sig <= 0x100_0000,
        sig >= 0x80_0000 || shift == 0,
    ensures
        units_of(shift * 0x80_0000 + sig) == sig * pow2(shift),
{
    lemma2_to64();
    let bits = shift * 0x80_0000 + sig;
    let p = pow2(shift) as int;
    if sig < 0x80_0000 {
        assert(bits / 0x80_0000 == 0 && bits % 0x80_0000 == sig);
        assert(sig * p == sig) by (nonlinear_arith)
            requires
                p == 1,
        ;
    } else if sig < 0x100_0000 {
        assert(bits == (shift + 1) * 0x80_0000 + (sig - 0x80_0000));
        assert(bits / 0x80_0000 == shift + 1 && bits % 0x80_0000 == sig - 0x80_0000) by {
            vstd::arithmetic::div_mod::lemma_fundamental_div_mod_converse(
                bits as int,
                0x80_0000,
                (shift + 1) as int,
                (sig - 0x80_0000) as int,
            );
        }
    } else {
        assert(bits == (shift + 2) * 0x80_0000);
        assert(bits / 0x80_0000 == shift + 2 && bits % 0x80_0000 == 0) by {
            vstd::arithmetic::div_mod::lemma_fundamental_div_mod_converse(
                bits as int,
                0x80_0000,
                (shift + 2) as int,
                0,
            );
        }
        lemma_pow2_unfold(shift + 1);
        assert(0x80_0000 * (2 * p) == 0x100_0000 * p) by (nonlinear_arith);
    }
}

/// Rounding a significand that fits, by what is left over `den`, gives the
/// nearest magnitude.
pub proof fn lemma_pack_is_nearest(sig: nat, shift: int, rest: nat, den: nat)
    requires
        sig < 0x100_0000,
        shift >= 0,
        sig >= 0x80_0000 || shift == 0,
        rest < den,
        pack(sig, shift, ratio_tail(rest, den)) < 0x7f80_0000,
    ensures
        is_nearest(
            pack(sig, shift, ratio_tail(rest, den)) as nat,
            (sig * den + rest) * pow2(shift as nat),
            den,
        ),
{
    let tail = ratio_tail(rest, den);
    let p = pow2(shift as nat) as int;
    let below = (shift * 0x80_0000 + sig) as nat;
    let above = below + 1;
    let r = pack(sig, shift, tail) as nat;
    let num = ((sig * den + rest) * pow2(shift as nat)) as int;
    let d = den as int;
    let s = sig as int;
    let t = rest as int;
    lemma_pow2_pos(shift as nat);
    lemma_units_of_packed(sig, shift as nat);
    lemma_units_of_packed(sig + 1, shift as nat);
    assert(above == shift * 0x80_0000 + (sig + 1));
    let low = units_of(below) as int;
    let high = units_of(above) as int;
    assert(low == s * p);
    assert(high == (s + 1) * p);
    assert(num == low * d + t * p) by (nonlinear_arith)
        requires
            num == (s * d + t) * p,
            low == s * p,
    ;
    assert(high * d == low * d + d * p) by (nonlinear_arith)
        requires
            high == (s + 1) * p,
            low == s * p,
    ;
    assert(t * p < d * p) by (nonlinear_arith)
        requires
            t < d,
            p > 0,
    ;
    assert(t * p >= 0) by (nonlinear_arith)
        requires
            t >= 0,
            p > 0,
    ;
    assert(gap(below, num as nat, den) == t * p);
    assert(gap(above, num as nat, den) == d * p - t * p);
    assert(2 * t < d ==> t * p < d * p - t * p) by (nonlinear_arith)
        requires
            p > 0,
    ;
    assert(2 * t > d ==> t * p > d * p - t * p) by (nonlinear_arith)
        requires
            p > 0,
    ;
    assert(2 * t == d ==> t * p == d * p - t * p) by (nonlinear_arith);
    assert(r == if goes_up(sig, tail) { above } else { below });
    assert(below % 2 == sig % 2);
    assert forall|other: nat| other < 0x7f80_0000 implies {
        &&& gap(r, num as nat, den) <= #[trigger] gap(other, num as nat, den)
        &&& (gap(r, num as nat, den) == gap(other, num as nat, den) && other != r ==> r % 2 == 0)
    } by {
        let u = units_of(other) as int;
        if other < below {
            lemma_units_increase(other, below);
            assert(u * d < low * d) by (nonlinear_arith)
                requires
                    u < low,
                    d > 0,
            ;
            assert(gap(other, num as nat, den) > t * p);
        } else if other > above {
            lemma_units_increase(above, other);
            assert(u * d > high * d) by (nonlinear_arith)
                requires
                    u > high,
                    d > 0,
            ;
            assert(gap(other, num as nat, den) > d * p - t * p);
        }
    }
}

/// Twice the numerator over twice the denominator is the same number.
pub proof fn lemma_nearest_halved(bits: nat, num: nat, den: nat)
    requires
        is_nearest(bits, 2 * num, 2 * den),
    ensures
        is_nearest(bits, num, den),
{
    assert forall|other: nat| other < 0x7f80_0000 implies {
        &&& gap(bits, num, den) <= #[trigger] gap(other, num, den)
        &&& (gap(bits, num, den) == gap(other, num, den) && other != bits ==> bits % 2 == 0)
    } by {
        lemma_gap_doubles(bits, num, den);
        lemma_gap_doubles(other, num, den);
        assert(gap(bits, 2 * num, 2 * den) <= gap(other, 2 * num, 2 * den));
    }
}

/// The gap to twice the numerator over twice the denominator is twice the gap.
pub proof fn lemma_gap_doubles(bits: nat, num: nat, den: nat)
    ensures
        gap(bits, 2 * num, 2 * den) == 2 * gap(bits, num, den),
{
    let u = units_of(bits) as int;
    let d = den as int;
    assert(u * (2 * d) == 2 * (u * d)) by (nonlinear_arith);
}

/// Halving the significand bit by bit ends at the nearest magnitude to
/// `(sig + rest / den) * 2^shift` units.
pub proof fn lemma_narrow_is_nearest(sig: nat, shift: int, rest: nat, den: nat)
    requires
        rest < den,
        sig >= 0x80_0000 || shift <= 0,
        round_narrow(sig, shift, ratio_tail(rest, den)) < 0x7f80_0000,
    ensures
        is_nearest(
            round_narrow(sig, shift, ratio_tail(rest, den)) as nat,
            numerator(sig, shift, rest, den),
            denominator(shift, den),
        ),
    decreases sig + (if shift < 0 { -shift } else { 0 }),
{
    lemma2_to64();
    let tail = ratio_tail(rest, den);
    let d = den as int;
    let s = sig as int;
    let t = rest as int;
    if shift < 0 || sig >= 0x100_0000 {
        let half = sig / 2;
        let bit = sig % 2;
        let rest2 = bit * den + rest;
        let den2 = 2 * den;
        assert(bit == 0 || bit == 1);
        assert(bit * d == if bit == 0 { 0 } else { d }) by (nonlinear_arith)
            requires
                bit == 0 || bit == 1,
        ;
        assert(push(bit, tail) == ratio_tail(rest2, den2));
        lemma_narrow_is_nearest(half, shift + 1, rest2, den2);
        let r = round_narrow(sig, shift, tail) as nat;
        assert(half as int * (2 * d) + bit * d + t == s * d + t) by (nonlinear_arith)
            requires
                s == 2 * half + bit,
        ;
        if shift < 0 {
            let q = pow2((-shift - 1) as nat) as int;
            lemma_pow2_unfold((-shift) as nat);
            assert((2 * d) * q == d * (2 * q)) by (nonlinear_arith);
            assert(denominator(shift + 1, den2) == denominator(shift, den));
            assert(numerator(half, shift + 1, rest2, den2) == numerator(sig, shift, rest, den));
        } else {
            let q = pow2(shift as nat) as int;
            lemma_pow2_unfold((shift + 1) as nat);
            assert((s * d + t) * (2 * q) == 2 * ((s * d + t) * q)) by (nonlinear_arith);
            assert((2 * d) * 1 == 2 * (d * 1)) by (nonlinear_arith);
            assert(denominator(shift + 1, den2) == 2 * denominator(shift, den));
            assert(numerator(half, shift + 1, rest2, den2) == 2 * numerator(sig, shift, rest, den));
            lemma_nearest_halved(r, numerator(sig, shift, rest, den), denominator(shift, den));
        }
    } else {
        lemma_pack_is_nearest(sig, shift, rest, den);
        assert(d * 1 == d) by (nonlinear_arith);
    }
}

/// Rounding gives the nearest magnitude that the format has to
/// `(sig + rest / den) * 2^shift` units, ties to even, as long as it is
/// finite. A significand under 24 bits at a shift above zero has nothing
/// left over.
pub proof fn lemma_round_is_nearest(sig: nat, shift: int, rest: nat, den: nat)
    requires
        rest < den,
        rest == 0 || sig >= 0x80_0000 || shift <= 0,
        round(sig, shift, ratio_tail(rest, den)) < 0x7f80_0000,
    ensures
        is_nearest(
            round(sig, shift, ratio_tail(rest, den)) as nat,
            numerator(sig, shift, rest, den),
            denominator(shift, den),
        ),
    decreases shift,
{
    if shift > 0 && sig < 0x80_0000 {
        lemma_round_is_nearest(sig * 2, shift - 1, 0, den);
        let q = pow2((shift - 1) as nat) as int;
        let d = den as int;
        let s = sig as int;
        lemma_pow2_unfold(shift as nat);
        assert((s * 2 * d + 0) * q == (s * d + 0) * (2 * q)) by (nonlinear_arith);
    } else {
        lemma_narrow_is_nearest(sig, shift, rest, den);
    }
}

/// Whether `num / den` units are at least halfway from the largest finite
/// magnitude, `(2^24 - 1) * 2^253` units, to the double of 2^253 more.
pub open spec fn is_beyond(num: nat, den: nat) -> bool {
    2 * num >= 0x1ff_ffff * pow2(253) * den
}

/// Rounding a significand that fits gives infinity from halfway above the
/// largest finite magnitude on.
pub proof fn lemma_pack_overflows(sig: nat, shift: int, rest: nat, den: nat)
    requires
        sig < 0x100_0000,
        shift >= 0,
        sig >= 0x80_0000 || shift == 0,
        rest < den,
    ensures
        pack(sig, shift, ratio_tail(rest, den)) == 0x7f80_0000 <==> is_beyond(
            (sig * den + rest) * pow2(shift as nat),
            den,
        ),
{
    lemma2_to64();
    let p = pow2(shift as nat) as int;
    let top = pow2(253) as int;
    let d = den as int;
    let s = sig as int;
    let t = rest as int;
    let x = s * d + t;
    lemma_pow2_pos(253);
    assert(0 <= s * d && s * d <= x && x < (s + 1) * d) by (nonlinear_arith)
        requires
            x == s * d + t,
            0 <= t < d,
            s >= 0,
    ;
    assert(s >= 0x80_0000 ==> s * d >= 0x80_0000 * d) by (nonlinear_arith)
        requires
            d > 0,
    ;
    assert((s + 1) * d <= 0x100_0000 * d) by (nonlinear_arith)
        requires
            s + 1 <= 0x100_0000,
            d > 0,
    ;
    if shift >= 254 {
        lemma_pow2_unfold(254);
        if shift > 254 {
            lemma_pow2_strictly_increases(254, shift as nat);
        }
        assert(2 * (x * p) >= 0x1ff_ffff * top * d) by (nonlinear_arith)
            requires
                x >= 0x80_0000 * d,
                p >= 2 * top,
                d > 0,
                top > 0,
        ;
    } else if shift == 253 {
        assert(0x1ff_ffff * top * d == (0x1ff_ffff * d) * top) by (nonlinear_arith);
        assert(2 * (x * top) == (2 * x) * top) by (nonlinear_arith);
        assert((2 * x >= 0x1ff_ffff * d) <==> ((2 * x) * top >= (0x1ff_ffff * d) * top)) by (nonlinear_arith)
            requires
                top > 0,
        ;
        if sig == 0xff_ffff {
            assert(s * d == 0xff_ffff * d);
        } else {
            assert(x < 0xff_ffff * d) by (nonlinear_arith)
                requires
                    x < (s + 1) * d,
                    s + 1 <= 0xff_ffff,
                    d > 0,
            ;
        }
    } else {
        if shift < 252 {
            lemma_pow2_strictly_increases(shift as nat, 252);
        }
        lemma_pow2_unfold(253);
        lemma_pow2_pos(shift as nat);
        assert(2 * (x * p) < 0x1ff_ffff * top * d) by (nonlinear_arith)
            requires
                0 <= x < 0x100_0000 * d,
                0 < 2 * p <= top,
                d > 0,
        ;
    }
}

/// Doubling numerator and denominator does not move the number.
pub proof fn lemma_beyond_halved(num: nat, den: nat)
    ensures
        is_beyond(2 * num, 2 * den) == is_beyond(num, den),
{
    let top = pow2(253) as int;
    assert(0x1ff_ffff * top * (2 * den) == 2 * (0x1ff_ffff * top * den)) by (nonlinear_arith);
}

/// Halving the significand bit by bit ends at infinity from halfway above
/// the largest finite magnitude on.
pub proof fn lemma_narrow_overflows_beyond(sig: nat, shift: int, rest: nat, den: nat)
    requires
        rest < den,
        sig >= 0x80_0000 || shift <= 0,
    ensures
        round_narrow(sig, shift, ratio_tail(rest, den)) == 0x7f80_0000 <==> is_beyond(
            numerator(sig, shift, rest, den),
            denominator(shift, den),
        ),
    decreases sig + (if shift < 0 { -shift } else { 0 }),
{
    lemma2_to64();
    let tail = ratio_tail(rest, den);
    let d = den as int;
    let s = sig as int;
    let t = rest as int;
    if shift < 0 || sig >= 0x100_0000 {
        let half = sig / 2;
        let bit = sig % 2;
        let rest2 = bit * den + rest;
        let den2 = 2 * den;
        assert(bit * d == if bit == 0 { 0 } else { d }) by (nonlinear_arith)
            requires
                bit == 0 || bit == 1,
        ;
        assert(push(bit, tail) == ratio_tail(rest2, den2));
        lemma_narrow_overflows_beyond(half, shift + 1, rest2, den2);
        assert(half as int * (2 * d) + bit * d + t == s * d + t) by (nonlinear_arith)
            requires
                s == 2 * half + bit,
        ;
        if shift < 0 {
            let q = pow2((-shift - 1) as nat) as int;
            lemma_pow2_unfold((-shift) as nat);
            assert((2 * d) * q == d * (2 * q)) by (nonlinear_arith);
            assert(denominator(shift + 1, den2) == denominator(shift, den));
            assert(numerator(half, shift + 1, rest2, den2) == numerator(sig, shift, rest, den));
        } else {
            let q = pow2(shift as nat) as int;
            lemma_pow2_unfold((shift + 1) as nat);
            assert((s * d + t) * (2 * q) == 2 * ((s * d + t) * q)) by (nonlinear_arith);
            assert((2 * d) * 1 == 2 * (d * 1)) by (nonlinear_arith);
            assert(denominator(shift + 1, den2) == 2 * denominator(shift, den));
            assert(numerator(half, shift + 1, rest2, den2) == 2 * numerator(sig, shift, rest, den));
            lemma_beyond_halved(numerator(sig, shift, rest, den), denominator(shift, den));
        }
    } else {
        lemma_pack_overflows(sig, shift, rest, den);
        assert(d * 1 == d) by (nonlinear_arith);
    }
}

/// Rounding gives infinity where `(sig + rest / den) * 2^shift` units are at
/// least halfway above the largest finite magnitude, and nowhere else.
pub proof fn lemma_round_overflows(sig: nat, shift: int, rest: nat, den: nat)
    requires
        rest < den,
        rest == 0 || sig >= 0x80_0000 || shift <= 0,
    ensures
        round(sig, shift, ratio_tail(rest, den)) == 0x7f80_0000 <==> is_beyond(
            numerator(sig, shift, rest, den),
            denominator(shift, den),
        ),
    decreases shift,
{
    if shift > 0 && sig < 0x80_0000 {
        lemma_round_overflows(sig * 2, shift - 1, 0, den);
        let q = pow2((shift - 1) as nat) as int;
        let d = den as int;
        let s = sig as int;
        lemma_pow2_unfold(shift as nat);
        assert((s * 2 * d + 0) * q == (s * d + 0) * (2 * q)) by (nonlinear_arith);
    } else {
        lemma_narrow_overflows_beyond(sig, shift, rest, den);
    }
}

} // verus!
