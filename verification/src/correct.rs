//! Sums, products and quotients are correctly rounded: no value of the
//! format is nearer to the exact result.

use vstd::prelude::*;
use vstd::arithmetic::power2::{pow2, lemma2_to64, lemma_pow2_adds, lemma_pow2_pos};
use crate::nearest::{gap, is_nearest, lemma_round_is_nearest, lemma_round_overflows, lemma_units_increase,
    units_of};
use crate::arith::ratio_tail;
use crate::root::{lemma_whole_root_exists, root_tail, whole_root};
use crate::rounding::{lemma_round_zero, push, round, round_narrow, Tail};
use crate::scalar::Scalar;

verus! {

/// How far apart two numbers are.
pub open spec fn apart(x: int, y: int) -> nat {
    if x >= y {
        (x - y) as nat
    } else {
        (y - x) as nat
    }
}

/// The number with the given sign and magnitude.
pub open spec fn signed(negative: bool, magnitude: nat) -> int {
    if negative {
        -(magnitude as int)
    } else {
        magnitude as int
    }
}

/// Rounding never gives more than infinity.
pub proof fn lemma_round_bounded(sig: nat, shift: int, tail: Tail)
    ensures
        round(sig, shift, tail) <= 0x7f80_0000,
    decreases shift,
{
    if shift > 0 && sig < 0x80_0000 {
        lemma_round_bounded(sig * 2, shift - 1, tail);
    } else {
        lemma_narrow_bounded(sig, shift, tail);
    }
}

/// Halving never ends above infinity.
pub proof fn lemma_narrow_bounded(sig: nat, shift: int, tail: Tail)
    ensures
        round_narrow(sig, shift, tail) <= 0x7f80_0000,
    decreases sig + (if shift < 0 { -shift } else { 0 }),
{
    if shift < 0 || sig >= 0x100_0000 {
        lemma_narrow_bounded(sig / 2, shift + 1, push(sig % 2, tail));
    }
}

/// A finite value is its significand times the power of two of its shift,
/// with its sign.
pub proof fn lemma_units_of_magnitude(x: Scalar)
    requires
        x.is_finite(),
    ensures
        x.units() == signed(x.is_negative(), units_of(x.magnitude())),
        units_of(x.magnitude()) == x.significand() * pow2(x.shift()),
{
    lemma2_to64();
    assert(x.significand() * 1 == x.significand()) by (nonlinear_arith);
}

/// Among finite values the order of the bit patterns is the order of the
/// numbers.
pub proof fn lemma_less_is_smaller(a: Scalar, b: Scalar)
    requires
        a.is_finite(),
        b.is_finite(),
    ensures
        a.less(b) <==> a.units() < b.units(),
        a.same(b) <==> a.units() == b.units(),
{
    lemma_units_of_magnitude(a);
    lemma_units_of_magnitude(b);
    assert(units_of(0) == 0);
    if a.magnitude() < b.magnitude() {
        lemma_units_increase(a.magnitude(), b.magnitude());
    }
    if b.magnitude() < a.magnitude() {
        lemma_units_increase(b.magnitude(), a.magnitude());
    }
    if 0 < a.magnitude() {
        lemma_units_increase(0, a.magnitude());
    }
    if 0 < b.magnitude() {
        lemma_units_increase(0, b.magnitude());
    }
}

/// The nearest magnitude with the sign of the target is the nearest value:
/// no value of either sign is nearer.
pub proof fn lemma_nearest_with_sign(r: Scalar, other: Scalar, num: nat, den: nat, negative: bool)
    requires
        r.is_finite(),
        other.is_finite(),
        den > 0,
        is_nearest(r.magnitude(), num, den),
        r.is_negative() == negative || r.is_zero(),
    ensures
        apart(r.units() * den, signed(negative, num)) <= apart(other.units() * den, signed(negative, num)),
{
    lemma_units_of_magnitude(r);
    lemma_units_of_magnitude(other);
    let d = den as int;
    let n = num as int;
    let u = units_of(r.magnitude()) as int;
    let v = units_of(other.magnitude()) as int;
    assert(gap(r.magnitude(), num, den) <= gap(other.magnitude(), num, den));
    assert(gap(r.magnitude(), num, den) <= gap(0, num, den));
    assert(units_of(0) == 0);
    assert(0 * d == 0);
    assert((-u) * d == -(u * d)) by (nonlinear_arith);
    assert((-v) * d == -(v * d)) by (nonlinear_arith);
    assert(u * d >= 0 && v * d >= 0) by (nonlinear_arith)
        requires
            u >= 0,
            v >= 0,
            d > 0,
    ;
    if r.is_zero() {
        assert(u == 0);
        assert(u * d == 0);
    }
}

/// The sum of two finite values, where it is finite, is a value of the
/// format nearest to their exact sum.
pub proof fn lemma_sum_is_nearest(a: Scalar, b: Scalar, other: Scalar)
    requires
        a.is_finite(),
        b.is_finite(),
        other.is_finite(),
        a.sum(b).is_finite(),
    ensures
        apart(a.sum(b).units(), a.units() + b.units()) <= apart(other.units(), a.units() + b.units()),
{
    reveal(Scalar::sum);
    lemma2_to64();
    let total = a.units() + b.units();
    let r = a.sum(b);
    let size: nat = if total < 0 { (-total) as nat } else { total as nat };
    lemma_round_bounded(size, 0, Tail::Exact);
    if total == 0 {
        lemma_units_of_magnitude(r);
        assert(r.units() == 0);
    } else {
        lemma_round_is_nearest(size, 0, 0, 1);
        assert((size * 1 + 0) * 1 == size) by (nonlinear_arith);
        assert(r.magnitude() == round(size, 0, Tail::Exact));
        lemma_nearest_with_sign(r, other, size, 1, total < 0);
        assert(r.units() * 1 == r.units()) by (nonlinear_arith);
        assert(other.units() * 1 == other.units()) by (nonlinear_arith);
    }
}

/// The sum of two finite values is an infinity where the exact sum is at
/// least halfway above the largest finite magnitude, and nowhere else.
pub proof fn lemma_sum_overflows(a: Scalar, b: Scalar)
    requires
        a.is_finite(),
        b.is_finite(),
    ensures
        a.sum(b).is_infinite() <==> 2 * apart(a.units() + b.units(), 0) >= 0x1ff_ffff * pow2(253),
        !a.sum(b).is_nan(),
{
    reveal(Scalar::sum);
    lemma2_to64();
    let total = a.units() + b.units();
    let size: nat = if total < 0 { (-total) as nat } else { total as nat };
    lemma_round_bounded(size, 0, Tail::Exact);
    lemma_round_overflows(size, 0, 0, 1);
    lemma_pow2_pos(253);
    assert((size * 1 + 0) * 1 == size) by (nonlinear_arith);
    assert(0x1ff_ffff * pow2(253) * 1 == 0x1ff_ffff * pow2(253)) by (nonlinear_arith);
}

/// The product of two finite values is an infinity where the exact product
/// is at least halfway above the largest finite magnitude, and nowhere else.
/// Both sides are in units of 2^-298.
pub proof fn lemma_product_overflows(a: Scalar, b: Scalar)
    requires
        a.is_finite(),
        b.is_finite(),
    ensures
        a.product(b).is_infinite() <==> 2 * apart(a.units() * b.units(), 0) >= 0x1ff_ffff * pow2(253)
            * pow2(149),
        !a.product(b).is_nan(),
{
    reveal(Scalar::product);
    lemma2_to64();
    let ma = a.significand() as int;
    let mb = b.significand() as int;
    let pa = pow2(a.shift()) as int;
    let pb = pow2(b.shift()) as int;
    let shift = a.shift() + b.shift() - 149;
    let sig = a.significand() * b.significand();
    lemma_round_bounded(sig, shift, Tail::Exact);
    lemma_round_overflows(sig, shift, 0, 1);
    let up = pow2((if shift > 0 { shift } else { 0 }) as nat) as int;
    let down = pow2((if shift < 0 { -shift } else { 0 }) as nat) as int;
    let scale: int = if shift >= 0 { pow2(149) as int } else { pow2(a.shift() + b.shift()) as int };
    lemma_pow2_pos(149);
    lemma_pow2_pos(a.shift() + b.shift());
    lemma_pow2_adds(a.shift(), b.shift());
    if shift >= 0 {
        lemma_pow2_adds(shift as nat, 149);
    } else {
        lemma_pow2_adds((-shift) as nat, a.shift() + b.shift());
    }
    assert(pow2(a.shift() + b.shift()) == pa * pb);
    if shift >= 0 {
        assert((shift as nat) + 149 == a.shift() + b.shift());
        assert(up == pow2(shift as nat));
        assert(pow2((shift as nat) + 149) == pow2(shift as nat) * pow2(149));
        assert(pow2((shift as nat) + 149) == pow2(a.shift() + b.shift()));
        assert(up * scale == pa * pb) by (nonlinear_arith)
            requires
                up == pow2(shift as nat),
                scale == pow2(149),
                pow2(shift as nat) * pow2(149) == pa * pb,
        ;
        assert(down == 1);
    } else {
        assert(up == 1);
        assert(up * scale == pa * pb) by (nonlinear_arith)
            requires
                up == 1,
                scale == pa * pb,
        ;
        assert(((-shift) as nat) + (a.shift() + b.shift()) == 149);
        assert(down * scale == pow2(149));
    }
    let edge = 0x1ff_ffff * pow2(253);
    let size = apart(a.units() * b.units(), 0) as int;
    assert(size == ma * mb * (pa * pb)) by (nonlinear_arith)
        requires
            size == if a.units() * b.units() >= 0 { a.units() * b.units() } else { -(a.units() * b.units()) },
            a.units() == ma * pa || a.units() == -(ma * pa),
            b.units() == mb * pb || b.units() == -(mb * pb),
            ma >= 0,
            mb >= 0,
            pa >= 0,
            pb >= 0,
    ;
    assert((sig * 1 + 0) * up == sig * up) by (nonlinear_arith);
    assert(1 * down == down);
    assert((2 * (sig * up) >= edge * down) <==> (2 * (sig * up) * scale >= edge * down * scale))
        by (nonlinear_arith)
        requires
            scale > 0,
    ;
    assert(2 * (sig * up) * scale == 2 * size) by (nonlinear_arith)
        requires
            size == ma * mb * (pa * pb),
            sig == ma * mb,
            up * scale == pa * pb,
    ;
    assert(edge * down * scale == edge * pow2(149)) by (nonlinear_arith)
        requires
            down * scale == pow2(149),
    ;
}

/// Scaling both numbers scales how far apart they are.
pub proof fn lemma_apart_scaled(x: int, y: int, scale: nat)
    ensures
        apart(x * scale, y * scale) == apart(x, y) * scale,
{
    let c = scale as int;
    assert(x >= y ==> x * c >= y * c) by (nonlinear_arith)
        requires
            c >= 0,
    ;
    assert(x < y ==> x * c <= y * c) by (nonlinear_arith)
        requires
            c >= 0,
    ;
    assert((x - y) * c == x * c - y * c) by (nonlinear_arith);
    assert((y - x) * c == y * c - x * c) by (nonlinear_arith);
}

/// The product of two finite values, where it is finite, is a value of the
/// format nearest to their exact product. Both sides are in units of 2^-298.
pub proof fn lemma_product_is_nearest(a: Scalar, b: Scalar, other: Scalar)
    requires
        a.is_finite(),
        b.is_finite(),
        other.is_finite(),
        a.product(b).is_finite(),
    ensures
        apart(a.product(b).units() * pow2(149), a.units() * b.units()) <= apart(
            other.units() * pow2(149),
            a.units() * b.units(),
        ),
{
    reveal(Scalar::product);
    lemma2_to64();
    let r = a.product(b);
    let negative = a.is_negative() != b.is_negative();
    let ma = a.significand() as int;
    let mb = b.significand() as int;
    let pa = pow2(a.shift()) as int;
    let pb = pow2(b.shift()) as int;
    let shift = a.shift() + b.shift() - 149;
    let sig = a.significand() * b.significand();
    lemma_round_bounded(sig, shift, Tail::Exact);
    lemma_round_is_nearest(sig, shift, 0, 1);
    let up = pow2((if shift > 0 { shift } else { 0 }) as nat);
    let down = pow2((if shift < 0 { -shift } else { 0 }) as nat);
    lemma_pow2_pos((if shift < 0 { -shift } else { 0 }) as nat);
    assert((sig * 1 + 0) * up == sig * up) by (nonlinear_arith);
    assert(1 * down == down);
    assert(r.magnitude() == round(sig, shift, Tail::Exact));
    if sig == 0 {
        lemma_round_zero(shift);
    }
    lemma_nearest_with_sign(r, other, sig * up, down, negative);
    // both sides, scaled to units of 2^-298
    let scale: nat = if shift >= 0 { pow2(149) } else { pow2(a.shift() + b.shift()) };
    lemma_pow2_adds(a.shift(), b.shift());
    if shift >= 0 {
        lemma_pow2_adds(shift as nat, 149);
    } else {
        lemma_pow2_adds((-shift) as nat, a.shift() + b.shift());
    }
    let target = signed(negative, sig * up);
    assert(target * scale == a.units() * b.units()) by (nonlinear_arith)
        requires
            target == if negative { -(ma * mb * up) } else { ma * mb * up },
            a.units() == if a.is_negative() { -(ma * pa) } else { ma * pa },
            b.units() == if b.is_negative() { -(mb * pb) } else { mb * pb },
            negative == (a.is_negative() != b.is_negative()),
            up * scale == pa * pb,
    ;
    assert(r.units() * down * scale == r.units() * pow2(149)) by (nonlinear_arith)
        requires
            down * scale == pow2(149),
    ;
    assert(other.units() * down * scale == other.units() * pow2(149)) by (nonlinear_arith)
        requires
            down * scale == pow2(149),
    ;
    lemma_apart_scaled(r.units() * down, target, scale);
    lemma_apart_scaled(other.units() * down, target, scale);
    assert(apart(r.units() * down, target) * scale <= apart(other.units() * down, target) * scale)
        by (nonlinear_arith)
        requires
            apart(r.units() * down, target) <= apart(other.units() * down, target),
    ;
}

/// Turning both signs leaves two numbers as far apart.
pub proof fn lemma_apart_negated(x: int, y: int)
    ensures
        apart(-x, -y) == apart(x, y),
{
}

/// The quotient of two finite values, where the divisor is not zero and the
/// quotient finite, is a value of the format nearest to the exact quotient:
/// times the divisor, no value is nearer to the dividend. Both sides are in
/// units of 2^-298.
pub proof fn lemma_quotient_is_nearest(a: Scalar, b: Scalar, other: Scalar)
    requires
        a.is_finite(),
        b.is_finite(),
        !b.is_zero(),
        other.is_finite(),
        a.quotient(b).is_finite(),
    ensures
        apart(a.quotient(b).units() * b.units(), a.units() * pow2(149)) <= apart(
            other.units() * b.units(),
            a.units() * pow2(149),
        ),
{
    reveal(Scalar::quotient);
    lemma2_to64();
    let r = a.quotient(b);
    let negative = a.is_negative() != b.is_negative();
    let ma = a.significand() as int;
    let mb = b.significand() as int;
    let pa = pow2(a.shift()) as int;
    let pb = pow2(b.shift()) as int;
    let shift = a.shift() - b.shift() + 85;
    let num = a.significand() * 0x1_0000_0000_0000_0000;
    let den = b.significand();
    let whole = num / den;
    let rest = num % den;
    assert(den > 0);
    assert(whole * den + rest == num) by {
        vstd::arithmetic::div_mod::lemma_fundamental_div_mod(num as int, den as int);
        assert(den * whole == whole * den) by (nonlinear_arith);
    }
    if ma > 0 {
        assert(whole >= 0x80_0000) by (nonlinear_arith)
            requires
                whole * den + rest == ma * 0x1_0000_0000_0000_0000,
                ma >= 1,
                0 < den < 0x100_0000,
                rest < den,
        ;
    } else {
        assert(num == 0);
        assert(rest == 0);
    }
    lemma_round_bounded(whole, shift, ratio_tail(rest, den));
    lemma_round_is_nearest(whole, shift, rest, den);
    let up = pow2((if shift > 0 { shift } else { 0 }) as nat);
    let down = pow2((if shift < 0 { -shift } else { 0 }) as nat);
    lemma_pow2_pos((if shift < 0 { -shift } else { 0 }) as nat);
    lemma_pow2_pos(b.shift());
    assert(den * down > 0) by (nonlinear_arith)
        requires
            den > 0,
            down > 0,
    ;
    assert(r.magnitude() == round(whole, shift, ratio_tail(rest, den)));
    if ma == 0 {
        assert(whole == 0);
        lemma_round_zero(shift);
    }
    lemma_nearest_with_sign(r, other, num * up, den * down, negative);
    let scale: nat = if shift >= 0 { pow2(b.shift()) } else { pow2((a.shift() + 85) as nat) };
    if shift >= 0 {
        lemma_pow2_adds(64, shift as nat);
        lemma_pow2_adds((64 + shift) as nat, b.shift());
        lemma_pow2_adds(a.shift(), 149);
    } else {
        lemma_pow2_adds((-shift) as nat, (a.shift() + 85) as nat);
        lemma_pow2_adds(64, (a.shift() + 85) as nat);
        lemma_pow2_adds(a.shift(), 149);
    }
    let target = signed(negative, num * up);
    let width = (den * down) as int;
    assert(width * scale == mb * pb) by (nonlinear_arith)
        requires
            width == mb * down,
            down * scale == pb,
    ;
    assert(num * up * scale == ma * pa * pow2(149)) by (nonlinear_arith)
        requires
            num == ma * 0x1_0000_0000_0000_0000,
            0x1_0000_0000_0000_0000 * up * scale == pa * pow2(149),
    ;
    lemma_apart_scaled(r.units() * width, target, scale);
    lemma_apart_scaled(other.units() * width, target, scale);
    assert(apart(r.units() * width, target) * scale <= apart(other.units() * width, target) * scale)
        by (nonlinear_arith)
        requires
            apart(r.units() * width, target) <= apart(other.units() * width, target),
    ;
    let size = mb * pb;
    assert(r.units() * width * scale == r.units() * size) by (nonlinear_arith)
        requires
            width * scale == size,
    ;
    assert(other.units() * width * scale == other.units() * size) by (nonlinear_arith)
        requires
            width * scale == size,
    ;
    let goal = a.units() * pow2(149);
    assert(target * scale == if b.is_negative() { -goal } else { goal }) by (nonlinear_arith)
        requires
            target == if negative { -(num * up) } else { (num * up) as int },
            num * up * scale == ma * pa * pow2(149),
            a.units() == if a.is_negative() { -(ma * pa) } else { ma * pa },
            negative == (a.is_negative() != b.is_negative()),
            goal == a.units() * pow2(149),
    ;
    if b.is_negative() {
        assert(b.units() == -size);
        assert(r.units() * b.units() == -(r.units() * size)) by (nonlinear_arith)
            requires
                b.units() == -size,
        ;
        assert(other.units() * b.units() == -(other.units() * size)) by (nonlinear_arith)
            requires
                b.units() == -size,
        ;
        lemma_apart_negated(r.units() * size, -goal);
        lemma_apart_negated(other.units() * size, -goal);
    } else {
        assert(b.units() == size);
    }
}

/// A whole number becomes a value of the format nearest to it.
pub proof fn lemma_of_integer_is_nearest(n: u32, other: Scalar)
    requires
        other.is_finite(),
    ensures
        Scalar::of_integer(n).is_finite(),
        !Scalar::of_integer(n).is_negative(),
        apart(Scalar::of_integer(n).units(), n * pow2(149)) <= apart(other.units(), n * pow2(149)),
{
    reveal(Scalar::of_integer);
    lemma2_to64();
    let r = Scalar::of_integer(n);
    lemma_round_bounded(n as nat, 149, Tail::Exact);
    lemma_whole_number_is_finite(n);
    lemma_round_is_nearest(n as nat, 149, 0, 1);
    assert((n * 1 + 0) * pow2(149) == n * pow2(149)) by (nonlinear_arith);
    lemma_nearest_with_sign(r, other, (n * pow2(149)) as nat, 1, false);
    assert(r.units() * 1 == r.units()) by (nonlinear_arith);
    assert(other.units() * 1 == other.units()) by (nonlinear_arith);
}

/// No whole number of 32 bits reaches infinity.
pub proof fn lemma_whole_number_is_finite(n: u32)
    ensures
        round(n as nat, 149, Tail::Exact) < 0x7f80_0000,
{
    lemma_grows_below(n as nat, 149);
}

/// A significand under 2^32 at a shift of at most 149 stays finite.
proof fn lemma_grows_below(sig: nat, shift: int)
    requires
        sig < 0x1_0000_0000,
        0 <= shift <= 149,
    ensures
        round(sig, shift, Tail::Exact) < 0x7f80_0000,
    decreases shift,
{
    if shift > 0 && sig < 0x80_0000 {
        lemma_grows_below(sig * 2, shift - 1);
    } else {
        lemma2_to64();
        lemma_narrows_below(sig, shift, Tail::Exact, 8);
    }
}

/// A significand of at most `spare` bits over 24, at a shift that is as much
/// under 250, stays finite.
proof fn lemma_narrows_below(sig: nat, shift: int, tail: Tail, spare: nat)
    requires
        sig < 0x100_0000 * pow2(spare),
        0 <= shift,
        shift + spare <= 250,
    ensures
        round_narrow(sig, shift, tail) < 0x7f80_0000,
    decreases spare,
{
    lemma2_to64();
    if sig >= 0x100_0000 {
        assert(spare > 0);
        vstd::arithmetic::power2::lemma_pow2_unfold(spare);
        lemma_narrows_below(sig / 2, shift + 1, push(sig % 2, tail), (spare - 1) as nat);
    }
}

/// With `bits` as near to `num / den` as `other`, the middle between the two
/// lies on the far side of `num / den`, and so of every number on its near
/// side; `square` is the square of such a number.
proof fn lemma_middle_beyond(u: int, v: int, num: int, den: int, square: int)
    requires
        u >= 0,
        v >= 0,
        num >= 0,
        den > 0,
        square >= 0,
        apart(u * den, num) <= apart(v * den, num),
    ensures
        v > u && num * num >= square * (den * den) ==> (u + v) * (u + v) >= 4 * square,
        v < u && num * num <= square * (den * den) ==> (u + v) * (u + v) <= 4 * square,
{
    let x = u * den;
    let y = v * den;
    let w = (u + v) * den;
    assert(w == x + y) by (nonlinear_arith)
        requires
            w == (u + v) * den,
            x == u * den,
            y == v * den,
    ;
    assert(v > u ==> y > x) by (nonlinear_arith)
        requires
            den > 0,
            x == u * den,
            y == v * den,
    ;
    assert(v < u ==> y < x) by (nonlinear_arith)
        requires
            den > 0,
            x == u * den,
            y == v * den,
    ;
    assert(x >= 0 && y >= 0) by (nonlinear_arith)
        requires
            u >= 0,
            v >= 0,
            den > 0,
            x == u * den,
            y == v * den,
    ;
    let both = (u + v) * (u + v);
    let dd = den * den;
    assert(w * w == both * dd) by (nonlinear_arith)
        requires
            w == (u + v) * den,
            both == (u + v) * (u + v),
            dd == den * den,
    ;
    assert(dd > 0) by (nonlinear_arith)
        requires
            den > 0,
            dd == den * den,
    ;
    if v > u && num * num >= square * dd {
        assert(w >= 2 * num);
        assert(w * w >= 4 * (num * num)) by (nonlinear_arith)
            requires
                w >= 2 * num,
                num >= 0,
        ;
        assert(both >= 4 * square) by (nonlinear_arith)
            requires
                both * dd >= 4 * (square * dd),
                dd > 0,
        ;
    }
    if v < u && num * num <= square * dd {
        assert(w <= 2 * num);
        assert(w * w <= 4 * (num * num)) by (nonlinear_arith)
            requires
                0 <= w <= 2 * num,
        ;
        assert(both <= 4 * square) by (nonlinear_arith)
            requires
                both * dd <= 4 * (square * dd),
                dd > 0,
        ;
    }
}

/// The root of a finite value that is not negative is a value of the format
/// nearest to the exact root: between it and any other value, the middle lies
/// beyond the exact root. The squares are in units of 2^-298.
pub proof fn lemma_root_is_nearest(a: Scalar, other: Scalar)
    requires
        a.is_finite(),
        !a.is_negative(),
        other.is_finite(),
        !other.is_negative(),
    ensures
        a.root().is_finite(),
        !a.root().is_negative(),
        ({
            let u = a.root().units();
            let v = other.units();
            let square = a.units() * pow2(149);
            &&& v > u ==> (u + v) * (u + v) >= 4 * square
            &&& v < u ==> (u + v) * (u + v) <= 4 * square
        }),
{
    reveal(Scalar::root);
    lemma2_to64();
    lemma_units_of_magnitude(a);
    lemma_units_of_magnitude(other);
    let v = other.units();
    let square = a.units() * pow2(149);
    if a.is_zero() {
        assert(a.units() == 0);
        assert(square == 0) by (nonlinear_arith)
            requires
                a.units() == 0,
                square == a.units() * pow2(149),
        ;
        assert(v * v >= 0) by (nonlinear_arith);
    } else {
        let m = a.significand() as int;
        let j = a.shift() as int;
        let even = j % 2 == 0;
        let n: nat = if even {
            a.significand() * 0x8_0000_0000_0000
        } else {
            a.significand() * 0x4_0000_0000_0000
        };
        let shift: int = if even { j / 2 + 49 } else { (j - 1) / 2 + 50 };
        let root = whole_root(n);
        lemma_whole_root_exists(n);
        let s = root as int;
        let q = s * s;
        let tail = root_tail(n, root);
        let r = a.root();
        assert(r.bits == round(root, shift, tail));
        // the root has at most 38 bits and stays finite
        assert(s < 0x40_0000_0000) by (nonlinear_arith)
            requires
                s * s <= n,
                n < 0x1000_0000_0000_0000_0000,
        ;
        assert(m >= 1);
        assert(s + 1 <= 0x200_0000 ==> (s + 1) * (s + 1) <= 0x200_0000 * 0x200_0000) by (nonlinear_arith)
            requires
                s >= 0,
        ;
        assert(s >= 0x200_0000);
        lemma_narrows_below(root, shift, tail, 14);
        lemma_units_of_magnitude(r);
        let u = r.units();
        let p = pow2(shift as nat) as int;
        lemma_pow2_pos(shift as nat);
        // the square of the exact root, in units of 2^-298
        let k: nat = if even { 51 } else { 50 };
        let pk = pow2(k) as int;
        let pp = pow2((2 * shift) as nat) as int;
        lemma_pow2_adds(shift as nat, shift as nat);
        assert(pp == p * p);
        lemma_pow2_adds(k, (2 * shift) as nat);
        lemma_pow2_adds(a.shift(), 149);
        assert(k + 2 * shift == a.shift() + 149);
        assert(pow2(a.shift()) * pow2(149) == pk * pp);
        vstd::arithmetic::power2::lemma2_to64_rest();
        assert(n == m * pk);
        assert(square == n * (p * p)) by (nonlinear_arith)
            requires
                square == m * pow2(a.shift()) * pow2(149),
                pow2(a.shift()) * pow2(149) == pk * pp,
                pp == p * p,
                n == m * pk,
        ;
        // two fractions around the exact root that round as it does
        let (rest_low, den_low, rest_high, den_high): (int, int, int, int) = if n == q {
            (0, 1, 0, 1)
        } else if n - q <= s {
            (1, 2 * s + 1, 4 * s + 1, 8 * s + 4)
        } else {
            (4 * s + 3, 8 * s + 4, 2 * s + 1, 2 * s + 2)
        };
        assert(ratio_tail(rest_low as nat, den_low as nat) == tail);
        assert(ratio_tail(rest_high as nat, den_high as nat) == tail);
        let top_low = s * den_low + rest_low;
        let top_high = s * den_high + rest_high;
        assert((s + 1) * (s + 1) == q + 2 * s + 1) by (nonlinear_arith)
            requires
                q == s * s,
        ;
        assert(top_low * top_low <= n * (den_low * den_low) && top_high * top_high >= n * (den_high
            * den_high)) by {
            lemma_root_between(s, q, n as int);
        }
        lemma_round_is_nearest(root, shift, rest_low as nat, den_low as nat);
        lemma_round_is_nearest(root, shift, rest_high as nat, den_high as nat);
        assert(den_low * 1 == den_low && den_high * 1 == den_high);
        assert(gap(r.magnitude(), (top_low * p) as nat, den_low as nat) <= gap(
            other.magnitude(),
            (top_low * p) as nat,
            den_low as nat,
        ));
        assert(gap(r.magnitude(), (top_high * p) as nat, den_high as nat) <= gap(
            other.magnitude(),
            (top_high * p) as nat,
            den_high as nat,
        ));
        assert((top_low * p) * (top_low * p) <= square * (den_low * den_low)) by (nonlinear_arith)
            requires
                top_low * top_low <= n * (den_low * den_low),
                square == n * (p * p),
                p > 0,
                top_low >= 0,
        ;
        assert((top_high * p) * (top_high * p) >= square * (den_high * den_high)) by (nonlinear_arith)
            requires
                top_high * top_high >= n * (den_high * den_high),
                square == n * (p * p),
                p > 0,
                top_high >= 0,
        ;
        assert(top_low * p >= 0 && top_high * p >= 0) by (nonlinear_arith)
            requires
                top_low >= 0,
                top_high >= 0,
                p > 0,
        ;
        assert(square >= 0) by (nonlinear_arith)
            requires
                square == n * (p * p),
                p > 0,
        ;
        lemma_middle_beyond(u, v, top_low * p, den_low, square);
        lemma_middle_beyond(u, v, top_high * p, den_high, square);
    }
}

/// Around the root of `n`, whose whole part is `s` with square `q`, lie the
/// fractions that the proof above uses: one at most the root, one at least.
proof fn lemma_root_between(s: int, q: int, n: int)
    requires
        s >= 1,
        q == s * s,
        q <= n <= q + 2 * s,
    ensures
        n == q ==> (s * 1 + 0) * (s * 1 + 0) == n * (1 * 1),
        q < n <= q + s ==> {
            &&& (s * (2 * s + 1) + 1) * (s * (2 * s + 1) + 1) <= n * ((2 * s + 1) * (2 * s + 1))
            &&& (s * (8 * s + 4) + (4 * s + 1)) * (s * (8 * s + 4) + (4 * s + 1)) >= n * ((8 * s + 4) * (8
                * s + 4))
        },
        q + s < n ==> {
            &&& (s * (8 * s + 4) + (4 * s + 3)) * (s * (8 * s + 4) + (4 * s + 3)) <= n * ((8 * s + 4) * (8
                * s + 4))
            &&& (s * (2 * s + 2) + (2 * s + 1)) * (s * (2 * s + 2) + (2 * s + 1)) >= n * ((2 * s + 2) * (2
                * s + 2))
        },
{
    assert(s * 1 + 0 == s);
    assert(1 * 1 == 1);
    // the four numerators and the squares of the denominators, over s and q
    assert(s * (2 * s + 1) + 1 == 2 * q + s + 1) by (nonlinear_arith)
        requires
            q == s * s,
    ;
    assert((2 * s + 1) * (2 * s + 1) == 4 * q + 4 * s + 1) by (nonlinear_arith)
        requires
            q == s * s,
    ;
    assert(s * (8 * s + 4) + (4 * s + 1) == 8 * q + 8 * s + 1) by (nonlinear_arith)
        requires
            q == s * s,
    ;
    assert(s * (8 * s + 4) + (4 * s + 3) == 8 * q + 8 * s + 3) by (nonlinear_arith)
        requires
            q == s * s,
    ;
    assert((8 * s + 4) * (8 * s + 4) == 64 * q + 64 * s + 16) by (nonlinear_arith)
        requires
            q == s * s,
    ;
    assert(s * (2 * s + 2) + (2 * s + 1) == 2 * q + 4 * s + 1) by (nonlinear_arith)
        requires
            q == s * s,
    ;
    assert((2 * s + 2) * (2 * s + 2) == 4 * q + 8 * s + 4) by (nonlinear_arith)
        requires
            q == s * s,
    ;
    let qq = q * q;
    let qs = q * s;
    if q < n <= q + s {
        assert((2 * q + s + 1) * (2 * q + s + 1) == 4 * qq + 4 * qs + q + 4 * q + 2 * s + 1)
            by (nonlinear_arith)
            requires
                qq == q * q,
                qs == q * s,
                q == s * s,
        ;
        assert((q + 1) * (4 * q + 4 * s + 1) == 4 * qq + 4 * qs + q + 4 * q + 4 * s + 1) by (nonlinear_arith)
            requires
                qq == q * q,
                qs == q * s,
        ;
        assert(n * (4 * q + 4 * s + 1) >= (q + 1) * (4 * q + 4 * s + 1)) by (nonlinear_arith)
            requires
                n >= q + 1,
                4 * q + 4 * s + 1 >= 0,
        ;
        assert((8 * q + 8 * s + 1) * (8 * q + 8 * s + 1) == 64 * qq + 128 * qs + 64 * q + 16 * q + 16 * s
            + 1) by (nonlinear_arith)
            requires
                qq == q * q,
                qs == q * s,
                q == s * s,
        ;
        assert((q + s) * (64 * q + 64 * s + 16) == 64 * qq + 128 * qs + 64 * q + 16 * q + 16 * s)
            by (nonlinear_arith)
            requires
                qq == q * q,
                qs == q * s,
                q == s * s,
        ;
        assert(n * (64 * q + 64 * s + 16) <= (q + s) * (64 * q + 64 * s + 16)) by (nonlinear_arith)
            requires
                n <= q + s,
                64 * q + 64 * s + 16 >= 0,
        ;
    }
    if q + s < n {
        assert((8 * q + 8 * s + 3) * (8 * q + 8 * s + 3) == 64 * qq + 128 * qs + 64 * q + 48 * q + 48 * s
            + 9) by (nonlinear_arith)
            requires
                qq == q * q,
                qs == q * s,
                q == s * s,
        ;
        assert((q + s + 1) * (64 * q + 64 * s + 16) == 64 * qq + 128 * qs + 64 * q + 80 * q + 80 * s + 16)
            by (nonlinear_arith)
            requires
                qq == q * q,
                qs == q * s,
                q == s * s,
        ;
        assert(n * (64 * q + 64 * s + 16) >= (q + s + 1) * (64 * q + 64 * s + 16)) by (nonlinear_arith)
            requires
                n >= q + s + 1,
                64 * q + 64 * s + 16 >= 0,
        ;
        assert((2 * q + 4 * s + 1) * (2 * q + 4 * s + 1) == 4 * qq + 16 * qs + 16 * q + 4 * q + 8 * s + 1)
            by (nonlinear_arith)
            requires
                qq == q * q,
                qs == q * s,
                q == s * s,
        ;
        assert((q + 2 * s) * (4 * q + 8 * s + 4) == 4 * qq + 16 * qs + 16 * q + 4 * q + 8 * s)
            by (nonlinear_arith)
            requires
                qq == q * q,
                qs == q * s,
                q == s * s,
        ;
        assert(n * (4 * q + 8 * s + 4) <= (q + 2 * s) * (4 * q + 8 * s + 4)) by (nonlinear_arith)
            requires
                n <= q + 2 * s,
                4 * q + 8 * s + 4 >= 0,
        ;
    }
}

} // verus!
