//! What the binary32 operations return, in exact terms.
//!
//! No number is nearer to the exact result than the one that an operation
//! returns. Beyond the range of the numbers the result is infinite, and NaN
//! comes of what has no result.

use vstd::prelude::*;
use vstd::arithmetic::div_mod::{lemma_fundamental_div_mod, lemma_mod_pos_bound};
use vstd::arithmetic::power2::{pow2, lemma2_to64, lemma_pow2_adds, lemma_pow2_pos, lemma_pow2_strictly_increases, lemma_pow2_unfold};
use vstd::std_specs::cmp::PartialEqSpec;
use crate::arithmetic::{floor_sqrt, lemma_floor_sqrt, lemma_pattern, lemma_signed_product, rounded, signed_value};
use crate::binary32::{BYTE_MIDDLE_BITS, Binary32, HALF_BITS, HUNDRED_BITS, INFINITY_BITS, MILLI_BITS, NEG_INFINITY_BITS, NEG_ZERO_BITS, ONE_AND_A_HALF_BITS, ONE_BITS, TINY_NORM_BITS, excess_bits, lemma_magnitude_order, lemma_round24, lemma_whole_range, round24, whole};
use crate::geometry::{about, absolute, lemma_rounded_value};
use crate::precision::{law_rounding_is_to_nearest, law_rounding_keeps_order, lemma_no_number_between, lemma_root_value, lemma_round_relative, lemma_round_whole, lemma_rounded_parts};

verus! {

/// Nothing is nearer to a quotient than what it rounds to, also with a sign.
proof fn lemma_nearest(n: nat, d: nat, negative: bool, r: Binary32, c: Binary32)
    requires
        d > 0,
        c.finite(),
        r.units() == signed_value(negative, round24(n, d)),
    ensures
        absolute(r.units() * d - signed_value(negative, n)) <= absolute(c.units() * d - signed_value(negative, n)),
{
    law_rounding_is_to_nearest(n, d, c);
    let (x, y) = (round24(n, d) as int, c.abs_units() as int);
    assert((-x) * d == -(x * d) && (-y) * d == -(y * d)) by (nonlinear_arith);
    assert(y * d >= 0) by (nonlinear_arith)
        requires y >= 0, d > 0;
}

/// No number is nearer to the exact sum than the rounded one.
pub proof fn law_sum_is_nearest(a: Binary32, b: Binary32, c: Binary32)
    requires
        a.finite(),
        b.finite(),
        c.finite(),
        absolute(a.units() + b.units()) < pow2(275),
    ensures
        a.sum(b).finite(),
        absolute(a.sum(b).units() - (a.units() + b.units())) <= absolute(c.units() - (a.units() + b.units())),
{
    reveal(Binary32::sum);
    let s = a.units() + b.units();
    lemma2_to64();
    if s == 0 {
        let zero = Binary32 { bits: 0 };
        assert(zero.signed(true).units() == 0 && zero.signed(false).units() == 0);
    } else {
        lemma_rounded_value(absolute(s) as nat, 1, s < 0);
        lemma_nearest(absolute(s) as nat, 1, s < 0, a.sum(b), c);
    }
}

/// No number is nearer to the exact difference than the rounded one.
pub proof fn law_difference_is_nearest(a: Binary32, b: Binary32, c: Binary32)
    requires
        a.finite(),
        b.finite(),
        c.finite(),
        absolute(a.units() - b.units()) < pow2(275),
    ensures
        a.difference(b).finite(),
        absolute(a.difference(b).units() - (a.units() - b.units())) <= absolute(c.units() - (a.units() - b.units())),
{
    let minus = b.signed(!b.sign_bit());
    assert(minus.magnitude() == b.magnitude());
    assert(minus.units() == -b.units());
    law_sum_is_nearest(a, minus, c);
}

/// No number is nearer to the exact product than the rounded one.
pub proof fn law_product_is_nearest(a: Binary32, b: Binary32, c: Binary32)
    requires
        a.finite(),
        b.finite(),
        c.finite(),
        absolute(a.units() * b.units()) < pow2(275) * pow2(149),
    ensures
        a.product(b).finite(),
        absolute(a.product(b).units() * pow2(149) - a.units() * b.units()) <= absolute(
            c.units() * pow2(149) - a.units() * b.units(),
        ),
{
    reveal(Binary32::product);
    lemma_pow2_pos(149);
    lemma_signed_product(a, b);
    let n = a.abs_units() * b.abs_units();
    assert(n >= 0) by (nonlinear_arith)
        requires n == a.abs_units() * b.abs_units(), a.abs_units() >= 0, b.abs_units() >= 0;
    let negative = a.sign_bit() != b.sign_bit();
    lemma_rounded_value(n, pow2(149), negative);
    lemma_nearest(n, pow2(149), negative, a.product(b), c);
}

/// No number is nearer to the exact quotient than the rounded one.
pub proof fn law_quotient_is_nearest(a: Binary32, b: Binary32, c: Binary32)
    requires
        a.finite(),
        b.finite(),
        c.finite(),
        0 < b.units(),
        absolute(a.units() * pow2(149)) < pow2(275) * b.units(),
    ensures
        a.quotient(b).finite(),
        absolute(a.quotient(b).units() * b.units() - a.units() * pow2(149)) <= absolute(
            c.units() * b.units() - a.units() * pow2(149),
        ),
{
    reveal(Binary32::quotient);
    lemma_pow2_pos(149);
    let (u, p) = (a.abs_units() as int, pow2(149) as int);
    assert((-u) * p == -(u * p)) by (nonlinear_arith);
    assert(u * p >= 0) by (nonlinear_arith)
        requires u >= 0, p > 0;
    lemma2_to64();
    assert(!b.zero());
    let n = a.abs_units() * pow2(149);
    lemma_rounded_value(n, b.abs_units(), a.sign_bit());
    lemma_nearest(n, b.abs_units(), a.sign_bit(), a.quotient(b), c);
}

/// No number is nearer to the exact product plus the term than what both come to
/// when rounded once.
pub proof fn law_fused_is_nearest(a: Binary32, b: Binary32, t: Binary32, c: Binary32)
    requires
        a.finite(),
        b.finite(),
        t.finite(),
        c.finite(),
        absolute(a.units() * b.units() + t.units() * pow2(149)) < pow2(275) * pow2(149),
    ensures
        a.fused(b, t).finite(),
        ({
            let exact = a.units() * b.units() + t.units() * pow2(149);
            absolute(a.fused(b, t).units() * pow2(149) - exact) <= absolute(c.units() * pow2(149) - exact)
        }),
{
    reveal(Binary32::fused);
    let one = pow2(149);
    lemma_pow2_pos(149);
    let s = a.units() * b.units() + t.units() * one;
    lemma2_to64();
    if s == 0 {
        let zero = Binary32 { bits: 0 };
        assert(zero.signed(true).units() == 0 && zero.signed(false).units() == 0);
        assert(0 * one == 0);
    } else {
        lemma_rounded_value(absolute(s) as nat, one, s < 0);
        lemma_nearest(absolute(s) as nat, one, s < 0, a.fused(b, t), c);
    }
}

/// A number too small to be told from zero has no digits.
proof fn lemma_zero_units(b: Binary32)
    ensures
        b.zero() <==> b.abs_units() == 0,
        b.zero() ==> b.finite(),
        b.infinite() ==> !b.finite() && !b.nan(),
        b.finite() <==> !b.nan() && !b.infinite(),
{
    lemma2_to64();
    if b.exponent() > 0 {
        lemma_pow2_pos((b.exponent() - 1) as nat);
        let (f, p) = (0x80_0000 + b.fraction(), pow2((b.exponent() - 1) as nat));
        assert(f * p > 0) by (nonlinear_arith)
            requires f > 0, p > 0;
    }
}

/// What has a NaN among its arguments is NaN.
pub proof fn law_nan_stays(a: Binary32, b: Binary32, c: Binary32)
    requires
        a.nan(),
    ensures
        a.sum(b).nan() && b.sum(a).nan(),
        a.difference(b).nan() && b.difference(a).nan(),
        a.product(b).nan() && b.product(a).nan(),
        a.quotient(b).nan() && b.quotient(a).nan(),
        a.fused(b, c).nan() && b.fused(a, c).nan() && b.fused(c, a).nan(),
        a.root().nan(),
{
    reveal(Binary32::sum);
    reveal(Binary32::product);
    reveal(Binary32::quotient);
    reveal(Binary32::fused);
    reveal(Binary32::root);
    let x = a.signed(!a.sign_bit());
    assert(x.magnitude() == a.magnitude());
}

/// Sums with an infinite term are infinite, with its sign. Infinities of different
/// signs have no sum.
pub proof fn law_sums_with_infinity(a: Binary32, b: Binary32)
    requires
        a.infinite(),
        !b.nan(),
    ensures
        b.finite() || a.sign_bit() == b.sign_bit() ==> a.sum(b) == a && b.sum(a) == a,
        b.infinite() && a.sign_bit() != b.sign_bit() ==> a.sum(b).nan() && b.sum(a).nan(),
{
    reveal(Binary32::sum);
    lemma_zero_units(a);
    lemma_zero_units(b);
}

/// Products with an infinite factor are infinite, with the sign of a product. There
/// is no product of infinity and zero. Quotients are the other way round.
pub proof fn law_products_with_infinity(a: Binary32, b: Binary32)
    requires
        a.infinite(),
        !b.nan(),
    ensures
        b.zero() ==> a.product(b).nan(),
        !b.zero() ==> a.product(b).infinite() && a.product(b).sign_bit() == (a.sign_bit() != b.sign_bit()),
        b.infinite() ==> a.quotient(b).nan(),
        !b.infinite() ==> a.quotient(b).infinite() && a.quotient(b).sign_bit() == (a.sign_bit() != b.sign_bit()),
        !b.infinite() ==> b.quotient(a).zero() && b.quotient(a).sign_bit() == (a.sign_bit() != b.sign_bit()),
{
    reveal(Binary32::product);
    reveal(Binary32::quotient);
    let inf = Binary32 { bits: INFINITY_BITS };
    assert(inf.signed(true).magnitude() == INFINITY_BITS && inf.signed(false).magnitude() == INFINITY_BITS);
    lemma_zero_units(a);
    lemma_zero_units(b);
}

/// A number over zero is infinite, and zero over zero is not a number.
pub proof fn law_quotients_by_zero(a: Binary32, b: Binary32)
    requires
        !a.nan(),
        b.zero(),
    ensures
        a.zero() ==> a.quotient(b).nan(),
        !a.zero() ==> a.quotient(b).infinite() && a.quotient(b).sign_bit() == (a.sign_bit() != b.sign_bit()),
{
    reveal(Binary32::quotient);
    let inf = Binary32 { bits: INFINITY_BITS };
    assert(inf.signed(true).magnitude() == INFINITY_BITS && inf.signed(false).magnitude() == INFINITY_BITS);
    lemma_zero_units(a);
    lemma_zero_units(b);
}

/// Only numbers that are not negative have a root; zero and infinity are their own.
pub proof fn law_roots_at_the_ends(a: Binary32)
    ensures
        a.zero() ==> a.root() == a,
        a.infinite() && !a.sign_bit() ==> a.root() == a,
        a.sign_bit() && !a.zero() ==> a.root().nan(),
{
    reveal(Binary32::root);
    lemma_zero_units(a);
}

/// A sum beyond the range of the numbers is infinite, with its sign.
pub proof fn law_sums_beyond_the_range(a: Binary32, b: Binary32)
    requires
        a.finite(),
        b.finite(),
        absolute(a.units() + b.units()) >= pow2(277),
    ensures
        a.sum(b) == (if a.units() + b.units() < 0 {
            Binary32 { bits: NEG_INFINITY_BITS }
        } else {
            Binary32 { bits: INFINITY_BITS }
        }),
{
    reveal(Binary32::sum);
    let n = absolute(a.units() + b.units()) as nat;
    lemma_beyond(n, 1);
    lemma_zero_units(a);
    lemma_zero_units(b);
    lemma_pow2_pos(277);
}

/// A product beyond the range of the numbers is infinite, with its sign.
pub proof fn law_products_beyond_the_range(a: Binary32, b: Binary32)
    requires
        a.finite(),
        b.finite(),
        absolute(a.units() * b.units()) >= pow2(277) * pow2(149),
    ensures
        a.product(b) == (if a.units() * b.units() < 0 {
            Binary32 { bits: NEG_INFINITY_BITS }
        } else {
            Binary32 { bits: INFINITY_BITS }
        }),
{
    reveal(Binary32::product);
    lemma_signed_product(a, b);
    lemma_pow2_pos(149);
    lemma_pow2_pos(277);
    let n = a.abs_units() * b.abs_units();
    assert(n >= 0) by (nonlinear_arith)
        requires n == a.abs_units() * b.abs_units(), a.abs_units() >= 0, b.abs_units() >= 0;
    assert(pow2(277) * pow2(149) > 0) by (nonlinear_arith)
        requires pow2(277) > 0, pow2(149) > 0;
    lemma_beyond(n, pow2(149));
    lemma_zero_units(a);
    lemma_zero_units(b);
}

/// From 2^128 on everything rounds to infinity.
proof fn lemma_beyond(n: nat, d: nat)
    requires
        d > 0,
        n >= pow2(277) * d,
    ensures
        rounded(n, d) == (Binary32 { bits: INFINITY_BITS }),
{
    lemma2_to64();
    lemma_pow2_adds(23, 254);
    lemma_pow2_pos(254);
    let (low, p, e) = (pow2(277) * d, pow2(254), pow2(277));
    assert(low == 0x80_0000 * (d * p) + 0) by (nonlinear_arith)
        requires low == e * d, e == 0x80_0000 * p;
    assert(d * p > 0) by (nonlinear_arith)
        requires d > 0, p > 0;
    lemma_round24(low, d, 254, 0x80_0000, 0);
    law_rounding_keeps_order(low, n, d);
}

/// A zero sum of two numbers is negative only if both are negative zeros.
pub proof fn law_sign_of_zero_sums(a: Binary32, b: Binary32)
    requires
        a.finite(),
        b.finite(),
        a.units() + b.units() == 0,
    ensures
        a.sum(b).zero(),
        a.sum(b).sign_bit() == (a.sign_bit() && b.sign_bit()),
{
    reveal(Binary32::sum);
    lemma_zero_units(a);
    lemma_zero_units(b);
    let zero = Binary32 { bits: 0 };
    assert(zero.signed(true).magnitude() == 0 && zero.signed(false).magnitude() == 0);
}

/// A whole number is off by at most one part in 2^24 as a binary32 number.
pub proof fn law_whole_numbers_are_about_exact(n: u32)
    ensures
        whole(n).finite(),
        about(whole(n).units(), n * pow2(149), n * pow2(149)),
{
    lemma_whole_range(n);
    lemma_round_whole(n as nat);
    lemma_pow2_pos(149);
    let (r, one) = (round24(n as nat, 1), pow2(149));
    assert(0x100_0000 * (r * one - n * one) <= n * one) by (nonlinear_arith)
        requires 0x100_0000 * r <= 0x100_0001 * n, one > 0;
    assert(0x100_0000 * (n * one - r * one) <= n * one) by (nonlinear_arith)
        requires 0xff_ffff * n <= 0x100_0000 * r, one > 0;
}

/// The named numbers are what their names say, or as near as a number comes to it.
pub proof fn law_named_numbers()
    ensures
        (Binary32 { bits: ONE_BITS }).units() == pow2(149),
        2 * (Binary32 { bits: HALF_BITS }).units() == pow2(149),
        2 * (Binary32 { bits: ONE_AND_A_HALF_BITS }).units() == 3 * pow2(149),
        (Binary32 { bits: HUNDRED_BITS }).units() == 100 * pow2(149),
        2 * (Binary32 { bits: BYTE_MIDDLE_BITS }).units() == 255 * pow2(149),
        about(1_000 * (Binary32 { bits: MILLI_BITS }).units(), pow2(149) as int, pow2(149) as int),
        about(1_000_000_000_000 * (Binary32 { bits: TINY_NORM_BITS }).units(), pow2(149) as int, pow2(149) as int),
        (Binary32 { bits: NEG_ZERO_BITS }).zero() && (Binary32 { bits: NEG_ZERO_BITS }).sign_bit(),
        (Binary32 { bits: INFINITY_BITS }).infinite() && !(Binary32 { bits: INFINITY_BITS }).sign_bit(),
        (Binary32 { bits: NEG_INFINITY_BITS }).infinite() && (Binary32 { bits: NEG_INFINITY_BITS }).sign_bit(),
{
    lemma2_to64();
    lemma_named(Binary32 { bits: ONE_BITS }, 127, 0x80_0000);
    lemma_named(Binary32 { bits: HALF_BITS }, 126, 0x80_0000);
    lemma_named(Binary32 { bits: ONE_AND_A_HALF_BITS }, 127, 0xc0_0000);
    lemma_named(Binary32 { bits: HUNDRED_BITS }, 133, 0xc8_0000);
    lemma_named(Binary32 { bits: BYTE_MIDDLE_BITS }, 133, 0xff_0000);
    lemma_named(Binary32 { bits: MILLI_BITS }, 117, 0x83_126f);
    lemma_named(Binary32 { bits: TINY_NORM_BITS }, 87, 0x8c_bccc);
    lemma_pow2_adds(23, 126);
    lemma_pow2_adds(1, 125);
    lemma_pow2_adds(17, 132);
    lemma_pow2_adds(33, 116);
    lemma_pow2_adds(1, 32);
    lemma_pow2_unfold(64);
    lemma_pow2_adds(63, 86);
    lemma_pow2_pos(86);
    assert(0x2_0000_0000 * pow2(116) == pow2(149));
    assert(0x8000_0000_0000_0000 * pow2(86) == pow2(149));
}

/// A number from its exponent and its 24 significant bits.
proof fn lemma_named(b: Binary32, exponent: nat, sig: nat)
    requires
        b.exponent() == exponent,
        exponent > 0,
        !b.sign_bit(),
        0x80_0000 + b.fraction() == sig,
    ensures
        b.units() == sig * pow2((exponent - 1) as nat),
{
}

/// Where two numbers are equally near to the exact quotient, the one with an even
/// bit pattern is taken.
pub proof fn law_ties_go_to_even(n: nat, d: nat, b: Binary32)
    requires
        d > 0,
        b.finite(),
        round24(n, d) < pow2(277),
        b.abs_units() != round24(n, d),
        absolute(b.abs_units() * d - n) == absolute(round24(n, d) * d - n),
    ensures
        rounded(n, d).bits % 2 == 0,
{
    let (r, u) = (round24(n, d), b.abs_units());
    let k = excess_bits(n / d);
    let p = pow2(k);
    lemma_rounded_parts(n, d);
    lemma_pow2_pos(k);
    let step = d * p;
    assert(step > 0) by (nonlinear_arith)
        requires step == d * p, d > 0, p > 0;
    lemma_fundamental_div_mod(n as int, step as int);
    lemma_mod_pos_bound(n as int, step as int);
    let (q, rest) = (n / step, n % step);
    let (low, high) = (q * p, (q + 1) * p);
    assert(low * d == step * q && high * d == step * q + step) by (nonlinear_arith)
        requires low == q * p, high == (q + 1) * p, step == d * p;
    lemma_no_number_between(b, k, q);
    assert(u * d != r * d) by (nonlinear_arith)
        requires u != r, d > 0;
    assert(u <= low ==> u * d <= low * d) by (nonlinear_arith)
        requires d > 0;
    assert(high <= u ==> high * d <= u * d) by (nonlinear_arith)
        requires d > 0;
    assert(low < high) by (nonlinear_arith)
        requires low == q * p, high == (q + 1) * p, p > 0;
    let sig: nat = if r == low {
        q
    } else {
        q + 1
    };
    assert(2 * rest == step);
    assert(sig % 2 == 0);
    assert(r == sig * p);
    lemma2_to64();
    lemma_pow2_adds(23, 254);
    if k >= 254 {
        if k > 254 {
            lemma_pow2_strictly_increases(254, k);
        }
        assert(sig * p >= 0x80_0000 * pow2(254)) by (nonlinear_arith)
            requires sig >= 0x80_0000, p >= pow2(254);
    }
    lemma_pattern(k, sig);
}

/// No number is nearer to the exact square root than the rounded one: half way to
/// any other number lies on the far side of the exact root. Numbers of more than 24
/// bits are even.
pub proof fn law_root_is_nearest(a: Binary32, c: Binary32)
    requires
        a.finite(),
        a.units() > 0,
        c.finite(),
        c.units() >= 0,
        c.abs_units() % 2 == 0,
    ensures
        a.root().finite(),
        a.root().units() > 0,
        ({
            let (r, u, m) = (a.root().units(), c.units(), 4 * (a.units() * pow2(149)));
            &&& u < r ==> (u + r) * (u + r) <= m
            &&& u > r ==> (u + r) * (u + r) >= m
        }),
{
    let (one, t) = (pow2(149), a.abs_units());
    lemma_zero_units(a);
    lemma_root_value(a);
    let m = t * one;
    let s = floor_sqrt(m);
    lemma_floor_sqrt(m);
    let b: nat = if s * s < m {
        1
    } else {
        0
    };
    let n = 2 * s + b;
    let (r, u) = (round24(n, 2), c.abs_units());
    lemma2_to64();
    lemma_pow2_pos(149);
    lemma_pow2_adds(74, 74);
    lemma_pow2_strictly_increases(148, 149);
    lemma_pow2_strictly_increases(25, 74);
    lemma_pow2_unfold(25);
    assert(m >= one) by (nonlinear_arith)
        requires m == t * one, t >= 1, one > 0;
    assert(s >= pow2(74)) by (nonlinear_arith)
        requires m < (s + 1) * (s + 1), m >= pow2(74) * pow2(74), s >= 0, pow2(74) > 0;
    assert(n / 2 == s);
    lemma_rounded_parts(n, 2);
    let k = excess_bits(s);
    assert(k > 0);
    lemma_pow2_unfold(k);
    let h = pow2((k - 1) as nat);
    let q = n / (2 * pow2(k));
    assert(q * (2 * h) == 2 * (q * h) && (q + 1) * (2 * h) == 2 * ((q + 1) * h)) by (nonlinear_arith);
    assert(r % 2 == 0);
    lemma_round_relative(n, 2);
    assert(r > 0);
    law_rounding_is_to_nearest(n, 2, c);
    let w = u + r;
    assert((s + 1) * (s + 1) == s * s + 2 * s + 1) by (nonlinear_arith);
    if u < r {
        assert(w <= 2 * s);
        assert(w * w <= 4 * (s * s)) by (nonlinear_arith)
            requires 0 <= w <= 2 * s;
    } else if u > r {
        if b == 0 {
            assert(w >= 2 * s);
            assert(w * w >= 4 * (s * s)) by (nonlinear_arith)
                requires w >= 2 * s, s >= 0;
        } else {
            assert(w >= 2 * s + 2);
            assert(w * w >= 4 * (s * s + 2 * s + 1)) by (nonlinear_arith)
                requires w >= 2 * s + 2, s >= 0;
        }
    }
}

/// Two numbers are equal by value if and only if both are numbers and have the same
/// value. So zeros are equal whatever their sign, and a NaN equals nothing.
pub proof fn law_equality_by_value(a: Binary32, b: Binary32)
    ensures
        a.eq_spec(&b) <==> !a.nan() && !b.nan() && a.units() == b.units(),
        a.zero() && b.zero() ==> a.eq_spec(&b),
        a.nan() ==> !a.eq_spec(&a),
{
    lemma_zero_units(a);
    lemma_zero_units(b);
}

/// One number is below another if and only if both are numbers and its value is the
/// smaller one. Infinity is above all finite numbers.
pub proof fn law_order_by_value(a: Binary32, b: Binary32)
    ensures
        a.below(b) <==> !a.nan() && !b.nan() && a.units() < b.units(),
        a.finite() && b.infinite() ==> (a.below(b) <==> !b.sign_bit()) && (b.below(a) <==> b.sign_bit()),
{
    lemma_zero_units(a);
    lemma_zero_units(b);
    if a.finite() && b.infinite() {
        lemma_magnitude_order(a, b);
    }
}

} // verus!
