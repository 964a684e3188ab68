//! How far rounding takes embeddings and their similarities from the exact values.
//!
//! Rounding to 24 bits changes a number by at most one part in 2^24. The lemmas
//! here follow that through the sum of squares, its root, the reciprocal and the
//! final products. Numbers are counted in units of 2^-149, so that one is 2^149
//! and its square 2^298.

use vstd::prelude::*;
use vstd::arithmetic::div_mod::{lemma_div_denominator, lemma_div_is_ordered, lemma_fundamental_div_mod, lemma_mod_pos_bound};
use vstd::arithmetic::power2::{pow2, lemma2_to64, lemma_pow2_adds, lemma_pow2_pos, lemma_pow2_strictly_increases, lemma_pow2_unfold};
use crate::arithmetic::{floor_sqrt, law_rounding_keeps_exact_values, lemma_floor_sqrt, lemma_round_bound, lemma_round_zero, lemma_rounded, lemma_signed_product, root_units, rounded};
use crate::binary32::{Binary32, INFINITY_BITS, NEG_ZERO_BITS, ONE_BITS, TINY_NORM_BITS};
use crate::binary32::{excess_bits, lemma_excess_range, lemma_magnitude_order, lemma_round24, lemma_with_units, round24};
use crate::embedder::{MOST_VALUES, all_finite, cosine, decoded, kept_in_range, law_negating_flips_the_similarity, law_similarity_is_symmetric, negated, norm, normalized, products, rounding_slack, similarity, total};
use crate::error::FaceIdErrorView;
use crate::tensor::ModelOutput;

verus! {

/// Rounding moves a number by at most half a step.
proof fn lemma_round_gap(n: nat, d: nat)
    requires
        d > 0,
    ensures
        2 * (round24(n, d) * d) <= 2 * n + d * pow2(excess_bits(n / d)),
        2 * n <= 2 * (round24(n, d) * d) + d * pow2(excess_bits(n / d)),
        excess_bits(n / d) == 0 && d == 1 ==> round24(n, d) == n,
{
    let p = pow2(excess_bits(n / d));
    let step = d * p;
    lemma_pow2_pos(excess_bits(n / d));
    lemma2_to64();
    assert(step > 0) by (nonlinear_arith)
        requires step == d * p, d > 0, p > 0;
    lemma_fundamental_div_mod(n as int, step as int);
    lemma_mod_pos_bound(n as int, step as int);
    let q = n / step;
    let r = n % step;
    let r24 = round24(n, d);
    assert(n == step * q + r);
    if r24 == q * p {
        assert(r24 * d == step * q) by (nonlinear_arith)
            requires r24 == q * p, step == d * p;
        if 2 * r > step || (2 * r == step && q % 2 == 1) {
            assert((q + 1) * p != q * p) by (nonlinear_arith)
                requires p > 0;
        }
    } else {
        assert(r24 * d == step * q + step) by (nonlinear_arith)
            requires r24 == (q + 1) * p, step == d * p;
    }
    if excess_bits(n / d) == 0 && d == 1 {
        assert(step == 1);
        assert(r == 0);
        assert(q * p == n) by (nonlinear_arith)
            requires p == 1, step == 1, n == step * q + r, r == 0;
    }
}

/// A quotient of at least 24 bits is rounded by at most one part in 2^24.
pub(crate) proof fn lemma_round_relative(n: nat, d: nat)
    requires
        d > 0,
        n >= 0x100_0000 * d,
    ensures
        0x100_0000 * (round24(n, d) * d) <= 0x100_0001 * n,
        0xff_ffff * n <= 0x100_0000 * (round24(n, d) * d),
{
    let m = n / d;
    let p = pow2(excess_bits(m));
    lemma_round_gap(n, d);
    lemma_excess_range(m);
    lemma_fundamental_div_mod(n as int, d as int);
    lemma_mod_pos_bound(n as int, d as int);
    assert(m >= 0x100_0000) by (nonlinear_arith)
        requires n == d * m + n % d, n % d < d, n >= 0x100_0000 * d, d > 0;
    assert(0x80_0000 * (d * p) <= n) by (nonlinear_arith)
        requires 0x80_0000 * p <= m, n == d * m + n % d, n % d >= 0, d > 0;
}

/// Any quotient is rounded by at most one part in 2^24 and one unit.
pub(crate) proof fn lemma_round_absolute(n: nat, d: nat)
    requires
        d > 0,
    ensures
        0x100_0000 * (round24(n, d) * d) <= 0x100_0001 * n + 0x100_0000 * d,
        0xff_ffff * n <= 0x100_0000 * (round24(n, d) * d) + 0x100_0000 * d,
{
    if n >= 0x100_0000 * d {
        lemma_round_relative(n, d);
    } else {
        lemma_round_gap(n, d);
        lemma2_to64();
        lemma_fundamental_div_mod(n as int, d as int);
        lemma_mod_pos_bound(n as int, d as int);
        let m = n / d;
        assert(m < 0x100_0000) by (nonlinear_arith)
            requires n == d * m + n % d, n % d >= 0, n < 0x100_0000 * d, d > 0;
        assert(d * pow2(0) == d) by (nonlinear_arith)
            requires pow2(0) == 1;
    }
}

/// A whole number of units is rounded by at most one part in 2^24.
pub(crate) proof fn lemma_round_whole(n: nat)
    ensures
        0x100_0000 * round24(n, 1) <= 0x100_0001 * n,
        0xff_ffff * n <= 0x100_0000 * round24(n, 1),
{
    assert(n / 1 == n);
    if n >= 0x100_0000 {
        lemma_round_relative(n, 1);
    } else {
        lemma_round_gap(n, 1);
    }
}

/// A number of 24 bits, followed by zeros, is not rounded.
pub(crate) proof fn lemma_round_exact(j: nat, s: nat)
    requires
        j < 0x100_0000,
    ensures
        round24(j * pow2(s), 1) == j * pow2(s),
{
    let n = j * pow2(s);
    let k = excess_bits(n);
    assert(n / 1 == n);
    lemma_round_gap(n, 1);
    if k > 0 {
        lemma_excess_range(n);
        lemma_pow2_pos(s);
        lemma_pow2_pos(k);
        let (p, step) = (pow2(s), pow2(k));
        assert(n < 0x100_0000 * p) by (nonlinear_arith)
            requires n == j * p, j < 0x100_0000, p > 0;
        if s < k {
            lemma_pow2_unfold(k);
            if s < k - 1 {
                lemma_pow2_strictly_increases(s, (k - 1) as nat);
            }
        }
        let rest = (s - k) as nat;
        lemma_pow2_adds(rest, k);
        let q = j * pow2(rest);
        assert(q * step == n) by (nonlinear_arith)
            requires q == j * pow2(rest), n == j * p, p == pow2(rest) * step;
        assert(0x80_0000 <= q < 0x100_0000) by (nonlinear_arith)
            requires 0x80_0000 * step <= q * step, q * step < 0x100_0000 * step, step > 0;
        assert(1 * step == step);
        lemma_round24(n, 1, k, q, 0);
    }
}

/// The absolute value of a finite product.
pub(crate) proof fn lemma_product_units(a: Binary32, b: Binary32)
    requires
        a.finite(),
        b.finite(),
    ensures
        a.product(b).finite() ==> a.product(b).abs_units() == round24(a.abs_units() * b.abs_units(), pow2(149)),
        round24(a.abs_units() * b.abs_units(), pow2(149)) < pow2(277) ==> a.product(b).finite(),
        a.product(b).sign_bit() == (a.sign_bit() != b.sign_bit()),
{
    reveal(Binary32::product);
    lemma_pow2_pos(149);
    let (n, d) = (a.abs_units() * b.abs_units(), pow2(149));
    lemma_rounded(n, d);
    let r = rounded(n, d);
    let negative = a.sign_bit() != b.sign_bit();
    assert(r.signed(negative).magnitude() == r.magnitude());
}

/// The value of a finite sum of two numbers that are not negative.
proof fn lemma_sum_units(a: Binary32, b: Binary32)
    requires
        a.sum(b).finite(),
        a.units() >= 0,
        b.units() >= 0,
    ensures
        a.finite(),
        b.finite(),
        a.sum(b).units() == round24((a.units() + b.units()) as nat, 1),
{
    reveal(Binary32::sum);
    let n = (a.units() + b.units()) as nat;
    lemma_rounded(n, 1);
    lemma2_to64();
    if n == 0 {
        lemma_round_zero(1);
    } else {
        let r = rounded(n, 1);
        assert(r.signed(false).magnitude() == r.magnitude());
    }
}

/// The sum of the exact squares, in units of 2^-298.
pub open spec fn squared_length(v: Seq<Binary32>) -> nat
    decreases v.len(),
{
    if v.len() == 0 {
        0
    } else {
        squared_length(v.drop_last()) + v.last().abs_units() * v.last().abs_units()
    }
}

/// `x` is off from `t` by at most `c` parts in 2^28, and by `c` times `p` more.
spec fn close(x: int, t: int, c: int, p: int) -> bool {
    &&& bounded(x, t, c, p)
    &&& 0x1000_0000 * t - c * t <= 0x1000_0000 * x + 0x1000_0000 * (c * p)
}

/// `x` exceeds `t` by at most `c` parts in 2^28, and by `c` times `p` more.
spec fn bounded(x: int, t: int, c: int, p: int) -> bool {
    0x1000_0000 * x <= 0x1000_0000 * t + c * t + 0x1000_0000 * (c * p)
}

proof fn lemma_bounded_step(x: int, t: int, c: int, p: int, q: int, s: int, next: int)
    requires
        bounded(x, t, c, p),
        16 <= c <= 0x200_0000,
        p >= 0,
        t >= 0,
        s >= 0,
        0x100_0000 * q <= 0x100_0001 * s + 0x100_0000 * p,
        0x100_0000 * next <= 0x100_0001 * (x + q),
    ensures
        bounded(next, t + s, c + 18, p),
{
    assert(c * (t + s) == c * t + c * s) by (nonlinear_arith);
    assert((c + 18) * (t + s) == c * (t + s) + 18 * (t + s)) by (nonlinear_arith);
    assert((c + 18) * p == c * p + 18 * p) by (nonlinear_arith);
    assert(16 * s <= c * s) by (nonlinear_arith)
        requires 16 <= c, s >= 0;
    assert(0 <= c * (t + s) <= 0x200_0000 * (t + s)) by (nonlinear_arith)
        requires 0 <= c <= 0x200_0000, t >= 0, s >= 0;
    assert(0 <= c * p <= 0x200_0000 * p) by (nonlinear_arith)
        requires 0 <= c <= 0x200_0000, p >= 0;
}

proof fn lemma_close_step(x: int, t: int, c: int, p: int, q: int, s: int, next: int)
    requires
        close(x, t, c, p),
        16 <= c <= 0x200_0000,
        p >= 0,
        t >= 0,
        s >= 0,
        x >= 0,
        q >= 0,
        0x100_0000 * q <= 0x100_0001 * s + 0x100_0000 * p,
        0xff_ffff * s <= 0x100_0000 * q + 0x100_0000 * p,
        0x100_0000 * next <= 0x100_0001 * (x + q),
        0xff_ffff * (x + q) <= 0x100_0000 * next,
    ensures
        close(next, t + s, c + 18, p),
{
    lemma_bounded_step(x, t, c, p, q, s, next);
    assert(c * (t + s) == c * t + c * s) by (nonlinear_arith);
    assert((c + 18) * (t + s) == c * (t + s) + 18 * (t + s)) by (nonlinear_arith);
    assert((c + 18) * p == c * p + 18 * p) by (nonlinear_arith);
    assert(16 * s <= c * s) by (nonlinear_arith)
        requires 16 <= c, s >= 0;
    assert(0 <= c * (t + s)) by (nonlinear_arith)
        requires 0 <= c, t >= 0, s >= 0;
    assert(0 <= c * p) by (nonlinear_arith)
        requires 0 <= c, p >= 0;
}

/// The rounded sum of squares is close to the exact one.
proof fn lemma_squares(v: Seq<Binary32>)
    requires
        all_finite(v),
        v.len() <= 0x10_0000,
        total(products(v, v)).finite(),
    ensures
        total(products(v, v)).units() >= 0,
        close(
            total(products(v, v)).units() * pow2(149),
            squared_length(v) as int,
            (18 * v.len() + 18) as int,
            pow2(149) as int,
        ),
    decreases v.len(),
{
    let one = pow2(149);
    lemma_pow2_pos(149);
    let terms = products(v, v);
    lemma2_to64();
    if v.len() == 0 {
        assert(total(terms).units() == 0);
        assert(0 * one == 0);
    } else {
        let front = v.drop_last();
        let last = v.last();
        assert(last == v[v.len() - 1]);
        assert(terms.drop_last() =~= products(front, front));
        assert(terms.last() == last.product(last));
        let a = total(terms.drop_last());
        let b = last.product(last);
        assert(a.sum(b).finite());
        assert(a.finite() && b.finite()) by {
            reveal(Binary32::sum);
        }
        assert forall|i: int| 0 <= i < front.len() implies (#[trigger] front[i]).finite() by {
            assert(v[i].finite());
        }
        lemma_squares(front);
        lemma_product_units(last, last);
        let square = last.abs_units() * last.abs_units();
        lemma_round_absolute(square, one);
        lemma_sum_units(a, b);
        lemma_round_whole((a.units() + b.units()) as nat);
        let x = a.units() * one;
        let q = b.units() * one;
        let next = total(terms).units() * one;
        let (ua, ub, un) = (a.units(), b.units(), total(terms).units());
        assert(x + q == (ua + ub) * one) by (nonlinear_arith)
            requires x == ua * one, q == ub * one;
        assert(0x100_0000 * next <= 0x100_0001 * (x + q) && 0xff_ffff * (x + q) <= 0x100_0000 * next)
            by (nonlinear_arith)
            requires
                x + q == (ua + ub) * one,
                next == un * one,
                0x100_0000 * un <= 0x100_0001 * (ua + ub),
                0xff_ffff * (ua + ub) <= 0x100_0000 * un,
                one > 0;
        assert(x >= 0 && q >= 0) by (nonlinear_arith)
            requires x == ua * one, q == ub * one, ua >= 0, ub >= 0, one > 0;
        lemma_close_step(
            x,
            squared_length(front) as int,
            (18 * front.len() + 18) as int,
            one as int,
            q,
            square as int,
            next,
        );
    }
}

/// The square of a rounded root is off by at most five parts in 2^24.
proof fn lemma_root_square(units: nat)
    requires
        root_units(units) >= 0x1000_0000,
    ensures
        ({
            let (r, m) = (root_units(units), units * pow2(149));
            &&& 0x100_0000 * (r * r) <= 0x100_0005 * m
            &&& 0xff_fffb * m <= 0x100_0000 * (r * r)
        }),
{
    let m = units * pow2(149);
    let s = floor_sqrt(m);
    lemma_floor_sqrt(m);
    let b: nat = if s * s < m {
        1
    } else {
        0
    };
    let n = 2 * s + b;
    let r = round24(n, 2);
    lemma_round_absolute(n, 2);
    lemma_round_relative(n, 2);
    assert((s + 1) * (s + 1) == s * s + 2 * s + 1) by (nonlinear_arith);
    assert(n * n == 4 * (s * s) + 4 * (s * b) + b * b) by (nonlinear_arith)
        requires n == 2 * s + b;
    assert(s * b == (if b == 1 { s } else { 0 }) && b * b == b) by (nonlinear_arith)
        requires b == 0 || b == 1;
    assert(0x100_0000 * s <= s * s) by (nonlinear_arith)
        requires s >= 0x100_0000;
    let low = 0x100_0000 * (r * 2);
    let high = 0x100_0001 * n;
    let base = 0xff_ffff * n;
    assert(low * low <= high * high && base * base <= low * low) by (nonlinear_arith)
        requires 0 <= base <= low <= high;
    assert(low * low == 0x4_0000_0000_0000 * (r * r)) by (nonlinear_arith)
        requires low == 0x100_0000 * (r * 2);
    assert(high * high == 0x1_0000_0200_0001 * (n * n)) by (nonlinear_arith)
        requires high == 0x100_0001 * n;
    assert(base * base == 0xffff_fe00_0001 * (n * n)) by (nonlinear_arith)
        requires base == 0xff_ffff * n;
}

/// The square of a number and its rounded reciprocal is close to one.
proof fn lemma_reciprocal_square(one: nat, r: nat)
    requires
        r > 0,
        one * one >= 0x100_0000 * r,
    ensures
        ({
            let (f, unit) = (round24(one * one, r), one * one);
            &&& f * r <= 2 * unit
            &&& 0x100_0000 * ((f * f) * (r * r)) <= 0x100_0003 * (unit * unit)
            &&& 0xff_fffd * (unit * unit) <= 0x100_0000 * ((f * f) * (r * r))
        }),
{
    let unit = one * one;
    let f = round24(unit, r);
    lemma_round_relative(unit, r);
    let low = 0x100_0000 * (f * r);
    let high = 0x100_0001 * unit;
    let base = 0xff_ffff * unit;
    assert(low * low <= high * high && base * base <= low * low) by (nonlinear_arith)
        requires 0 <= base <= low <= high;
    assert(low * low == 0x1_0000_0000_0000 * ((f * f) * (r * r))) by (nonlinear_arith)
        requires low == 0x100_0000 * (f * r);
    assert(high * high == 0x1_0000_0200_0001 * (unit * unit)) by (nonlinear_arith)
        requires high == 0x100_0001 * unit;
    assert(base * base == 0xffff_fe00_0001 * (unit * unit)) by (nonlinear_arith)
        requires base == 0xff_ffff * unit;
}

/// The square of `b` is close to the square of `a` times `f`, in units of `one`.
spec fn element_close(a: int, b: int, f: int, one: int) -> bool {
    &&& 0x1_0000_0000_0000 * ((one * one) * (b * b)) <= 0x1_0000_0200_0001 * ((f * f) * (a * a)) + 0x1_0000_0000_0000 * (
        32 * (one * one * one))
    &&& 0xffff_fe00_0001 * ((f * f) * (a * a)) <= 0x1_0000_0000_0000 * ((one * one) * (b * b)) + 0x1_0000_0000_0000 * (
        32 * (one * one * one))
}

/// A rounded product of a value and the factor.
proof fn lemma_element(a: nat, f: nat, one: nat)
    requires
        one >= 1,
        a * f <= 6 * (one * one),
    ensures
        round24(a * f, one) <= 8 * one,
        element_close(a as int, round24(a * f, one) as int, f as int, one as int),
{
    let z = a * f;
    let b = round24(z, one);
    let y = b * one;
    let unit = one * one;
    lemma_round_absolute(z, one);
    assert(unit >= one) by (nonlinear_arith)
        requires one >= 1, unit == one * one;
    assert(y <= 8 * unit);
    assert(b <= 8 * one) by (nonlinear_arith)
        requires b * one <= 8 * (one * one), one >= 1;
    let cube = one * one * one;
    assert(z * one <= 6 * cube && y * one <= 8 * cube && unit <= cube && one * unit == cube) by (nonlinear_arith)
        requires z <= 6 * unit, y <= 8 * unit, unit == one * one, cube == one * one * one, one >= 1;
    let (ly, hz) = (0x100_0000 * y, 0x100_0001 * z + 0x100_0000 * one);
    assert(ly * ly <= hz * hz) by (nonlinear_arith)
        requires 0 <= ly <= hz;
    assert(ly * ly == 0x1_0000_0000_0000 * (y * y)) by (nonlinear_arith)
        requires ly == 0x100_0000 * y;
    assert(hz * hz == 0x1_0000_0200_0001 * (z * z) + 0x2_0000_0200_0000 * (z * one) + 0x1_0000_0000_0000 * unit)
        by (nonlinear_arith)
        requires hz == 0x100_0001 * z + 0x100_0000 * one, unit == one * one;
    let (lz, hy) = (0xff_ffff * z, 0x100_0000 * y + 0x100_0000 * one);
    assert(lz * lz <= hy * hy) by (nonlinear_arith)
        requires 0 <= lz <= hy;
    assert(lz * lz == 0xffff_fe00_0001 * (z * z)) by (nonlinear_arith)
        requires lz == 0xff_ffff * z;
    assert(hy * hy == 0x1_0000_0000_0000 * (y * y) + 0x2_0000_0000_0000 * (y * one) + 0x1_0000_0000_0000 * unit)
        by (nonlinear_arith)
        requires hy == 0x100_0000 * y + 0x100_0000 * one, unit == one * one;
    assert(y * y == (one * one) * (b * b)) by (nonlinear_arith)
        requires y == b * one;
    assert(z * z == (f * f) * (a * a)) by (nonlinear_arith)
        requires z == a * f;
}

/// What holds of the squares of all elements holds of their sums.
proof fn lemma_elements(v: Seq<Binary32>, w: Seq<Binary32>, f: int, one: int)
    requires
        v.len() == w.len(),
        forall|i: int|
            0 <= i < v.len() ==> element_close(
                #[trigger] v[i].abs_units() as int,
                w[i].abs_units() as int,
                f,
                one,
            ),
    ensures
        ({
            let (t, l) = (squared_length(v), squared_length(w));
            let extra = 0x1_0000_0000_0000 * (v.len() * (32 * (one * one * one)));
            &&& 0x1_0000_0000_0000 * ((one * one) * l) <= 0x1_0000_0200_0001 * ((f * f) * t) + extra
            &&& 0xffff_fe00_0001 * ((f * f) * t) <= 0x1_0000_0000_0000 * ((one * one) * l) + extra
        }),
    decreases v.len(),
{
    let (unit, ff, cube) = (one * one, f * f, 32 * (one * one * one));
    if v.len() == 0 {
        assert(unit * 0 == 0 && ff * 0 == 0 && 0 * cube == 0) by (nonlinear_arith);
    } else {
        let n = v.len() - 1;
        let (a, b) = (v.last().abs_units(), w.last().abs_units());
        assert(element_close(v[n].abs_units() as int, w[n].abs_units() as int, f, one));
        assert forall|i: int| 0 <= i < n implies element_close(
            #[trigger] v.drop_last()[i].abs_units() as int,
            w.drop_last()[i].abs_units() as int,
            f,
            one,
        ) by {
            assert(element_close(v[i].abs_units() as int, w[i].abs_units() as int, f, one));
        }
        lemma_elements(v.drop_last(), w.drop_last(), f, one);
        let (t, l) = (squared_length(v.drop_last()), squared_length(w.drop_last()));
        assert(ff * (t + a * a) == ff * t + ff * (a * a)) by (nonlinear_arith);
        assert(unit * (l + b * b) == unit * l + unit * (b * b)) by (nonlinear_arith);
        assert((n + 1) * cube == n * cube + cube) by (nonlinear_arith);
    }
}

/// The errors of all steps, put together, for `k - 1` values.
proof fn lemma_combine(k: int, unit: int, z: int, y: int, x: int, l: int)
    requires
        1 <= k <= 0x10_0001,
        unit >= 0,
        z >= 0,
        y >= 0,
        l >= 0,
        0x100_0000 * x <= 0x100_0003 * unit,
        0xff_fffd * unit <= 0x100_0000 * x,
        0x100_0000 * x <= 0x100_0005 * y,
        0xff_fffb * y <= 0x100_0000 * x,
        0x1000_0000 * y <= 0x1000_0000 * z + (18 * k) * z + unit,
        0x1000_0000 * z - (18 * k) * z <= 0x1000_0000 * y + unit,
        0x1_0000_0000_0000 * l <= 0x1_0000_0200_0001 * z + unit,
        0xffff_fe00_0001 * z <= 0x1_0000_0000_0000 * l + unit,
    ensures
        0x1000_0000 * l <= 0x1000_0000 * unit + (21 * k + 190) * unit,
        0x1000_0000 * unit - (21 * k + 190) * unit <= 0x1000_0000 * l,
{
    assert(0x1000_0000 * y <= 0x1000_0081 * unit);
    assert(0xfff_ff7f * unit <= 0x1000_0000 * y);
    let m: int = 0x1000_0000;
    let (c, g) = (18 * k, 21 * k + 150);
    let ku = k * unit;
    assert(0 <= ku <= 0x10_0001 * unit) by (nonlinear_arith)
        requires ku == k * unit, 1 <= k <= 0x10_0001, unit >= 0;
    assert(g * unit == 21 * ku + 150 * unit) by (nonlinear_arith)
        requires g == 21 * k + 150, ku == k * unit;
    assert(m * z <= m * unit + g * unit) by {
        if m * z > m * unit + g * unit {
            assert((m - c) * (m * z) > (m - c) * (m * unit + g * unit)) by (nonlinear_arith)
                requires m * z > m * unit + g * unit, c < m;
            assert((m - c) * (m * z) == m * (m * z - c * z)) by (nonlinear_arith);
            assert((m - c) * (m * unit + g * unit) == ((m - c) * (m + g)) * unit) by (nonlinear_arith);
            assert((m - c) * (m + g) >= m * (m + 130)) by (nonlinear_arith)
                requires m == 0x1000_0000, g == 21 * k + 150, c == 18 * k, 1 <= k <= 0x10_0001;
            assert(((m - c) * (m + g)) * unit >= (m * (m + 130)) * unit) by (nonlinear_arith)
                requires (m - c) * (m + g) >= m * (m + 130), unit >= 0;
            assert(m * (m * z - c * z) <= m * ((m + 130) * unit)) by (nonlinear_arith)
                requires m * z - c * z <= (m + 130) * unit, m > 0;
            assert((m * (m + 130)) * unit == m * ((m + 130) * unit)) by (nonlinear_arith);
        }
    }
    assert(m * unit - (c + 130) * unit <= m * z) by {
        let h = c + 130;
        if m * z < m * unit - h * unit {
            assert((m + c) * (m * z) < (m + c) * (m * unit - h * unit)) by (nonlinear_arith)
                requires m * z < m * unit - h * unit, c > 0, m > 0;
            assert((m + c) * (m * z) == m * (m * z + c * z)) by (nonlinear_arith);
            assert((m + c) * (m * unit - h * unit) == ((m + c) * (m - h)) * unit) by (nonlinear_arith);
            assert((m + c) * (m - h) <= m * (m - 130)) by (nonlinear_arith)
                requires h == c + 130, c >= 1;
            assert(((m + c) * (m - h)) * unit <= (m * (m - 130)) * unit) by (nonlinear_arith)
                requires (m + c) * (m - h) <= m * (m - 130), unit >= 0;
            assert(m * ((m - 130) * unit) <= m * (m * z + c * z)) by (nonlinear_arith)
                requires (m - 130) * unit <= m * z + c * z, m > 0;
            assert((m * (m - 130)) * unit == m * ((m - 130) * unit)) by (nonlinear_arith);
        }
    }
    assert((c + 130) * unit == 18 * ku + 130 * unit && (21 * k + 190) * unit == 21 * ku + 190 * unit) by (nonlinear_arith)
        requires ku == k * unit, c == 18 * k;
}

proof fn lemma_finite_bound(b: Binary32)
    requires
        b.finite(),
    ensures
        b.abs_units() < pow2(277),
{
    let inf = Binary32 { bits: INFINITY_BITS };
    assert(inf.exponent() == 255 && inf.fraction() == 0);
    lemma2_to64();
    lemma_pow2_adds(23, 254);
    assert(inf.abs_units() == pow2(277));
    lemma_magnitude_order(b, inf);
}

/// The value of a root.
pub(crate) proof fn lemma_root_value(t: Binary32)
    requires
        t.finite(),
        !t.sign_bit(),
        !t.zero(),
    ensures
        t.root().finite(),
        !t.root().sign_bit(),
        t.root().abs_units() == root_units(t.abs_units()),
{
    reveal(Binary32::root);
    let m = t.abs_units() * pow2(149);
    let s = floor_sqrt(m);
    lemma_floor_sqrt(m);
    lemma_finite_bound(t);
    lemma_pow2_pos(149);
    lemma_pow2_adds(277, 149);
    lemma_pow2_adds(276, 276);
    lemma_pow2_strictly_increases(426, 552);
    let (u, one, e) = (t.abs_units(), pow2(149), pow2(276));
    assert(m < pow2(277) * one) by (nonlinear_arith)
        requires m == u * one, u < pow2(277), one > 0;
    assert(s < e) by (nonlinear_arith)
        requires s * s <= m, m < e * e;
    let n = 2 * s + (if s * s < m {
        1nat
    } else {
        0nat
    });
    assert(n / 2 == s);
    lemma_round_bound(n, 2, 277);
    lemma_rounded(n, 2);
    lemma_with_units(rounded(n, 2));
}

/// The root of a number is far below the square of one, counted in units.
proof fn lemma_root_below(units: nat, r: nat)
    requires
        units < pow2(277),
        0x100_0000 * (r * r) <= 0x100_0005 * (units * pow2(149)),
    ensures
        r < pow2(214),
{
    lemma_pow2_adds(277, 149);
    lemma_pow2_adds(214, 214);
    lemma_pow2_unfold(427);
    lemma_pow2_unfold(428);
    lemma_pow2_pos(149);
    let (one, e) = (pow2(149), pow2(214));
    assert(units * one < pow2(277) * one) by (nonlinear_arith)
        requires units < pow2(277), one > 0;
    assert(r < e) by (nonlinear_arith)
        requires r * r < e * e;
}

/// No element is longer than the whole.
proof fn lemma_element_below(v: Seq<Binary32>, i: int)
    requires
        0 <= i < v.len(),
    ensures
        v[i].abs_units() * v[i].abs_units() <= squared_length(v),
    decreases v.len(),
{
    let b = v.last().abs_units();
    assert(b * b >= 0) by (nonlinear_arith);
    if i < v.len() - 1 {
        lemma_element_below(v.drop_last(), i);
    }
}

/// The numbers that the bounds compare: one, the least length that is scaled,
/// and how far apart they are.
proof fn lemma_scales()
    ensures
        (Binary32 { bits: ONE_BITS }).finite(),
        (Binary32 { bits: ONE_BITS }).abs_units() == pow2(149),
        pow2(109) <= (Binary32 { bits: TINY_NORM_BITS }).units(),
        pow2(149) * pow2(149) == pow2(298),
        pow2(109) * pow2(109) == 0x20_0000_0000_0000_0000 * pow2(149),
        pow2(298) >= 0x100_0000 * pow2(214),
        pow2(149) >= 0x200_0000_0000_0000_0000,
        pow2(109) >= 0x1000_0000,
        pow2(152) == 8 * pow2(149),
        pow2(152) < pow2(277),
        pow2(420) == pow2(271) * pow2(149),
        2 * pow2(298) <= pow2(420),
        2 * pow2(298) < pow2(277) * pow2(109),
{
    let one = Binary32 { bits: ONE_BITS };
    let tiny = Binary32 { bits: TINY_NORM_BITS };
    lemma2_to64();
    assert(one.exponent() == 127 && one.fraction() == 0);
    lemma_pow2_adds(23, 126);
    assert(tiny.exponent() == 87 && tiny.fraction() == 0xc_bccc);
    lemma_pow2_pos(86);
    lemma_pow2_adds(23, 86);
    assert((tiny.exponent() - 1) as nat == 86);
    assert(tiny.abs_units() == 0x8c_bccc * pow2(86));
    lemma_pow2_adds(149, 149);
    lemma_pow2_adds(109, 109);
    lemma_pow2_adds(5, 64);
    lemma_pow2_adds(69, 149);
    lemma_pow2_adds(24, 214);
    lemma_pow2_strictly_increases(238, 298);
    lemma_pow2_adds(9, 64);
    lemma_pow2_strictly_increases(73, 149);
    lemma_pow2_strictly_increases(28, 109);
    lemma_pow2_adds(3, 149);
    lemma_pow2_strictly_increases(152, 277);
    lemma_pow2_adds(277, 109);
    lemma_pow2_adds(271, 149);
    lemma_pow2_unfold(299);
    lemma_pow2_strictly_increases(299, 420);
    lemma_pow2_strictly_increases(299, 386);
}

/// The reciprocal of a length, as the factor that a vector is scaled by.
proof fn lemma_factor(length: Binary32)
    requires
        length.finite(),
        pow2(109) <= length.units() < pow2(214),
    ensures
        ({
            let (factor, unit) = ((Binary32 { bits: ONE_BITS }).quotient(length), pow2(149) * pow2(149));
            &&& factor.finite()
            &&& !factor.sign_bit()
            &&& factor.abs_units() == round24(unit, length.abs_units())
        }),
{
    reveal(Binary32::quotient);
    lemma_scales();
    lemma_pow2_pos(109);
    let (one, r) = (pow2(149), length.abs_units());
    let unit = one * one;
    let f = round24(unit, r);
    assert(!length.zero()) by {
        lemma2_to64();
    }
    lemma_reciprocal_square(one, r);
    assert(f < pow2(277)) by (nonlinear_arith)
        requires f * r <= 2 * unit, r >= pow2(109), 2 * unit < pow2(277) * pow2(109), f >= 0, pow2(277) >= 0;
    lemma_rounded(unit, r);
    let q = rounded(unit, r);
    assert(q.signed(false).magnitude() == q.magnitude());
}

/// A vector that normalizing scales: it is finite, its length neither overflows
/// nor is next to nothing, and it has no more than 2^20 values.
pub open spec fn scalable(v: Seq<Binary32>) -> bool {
    &&& all_finite(v)
    &&& v.len() <= MOST_VALUES
    &&& norm(v).finite()
    &&& (Binary32 { bits: TINY_NORM_BITS }).below(norm(v))
}

/// What is known of the length of a vector and of its reciprocal.
proof fn lemma_norm(v: Seq<Binary32>)
    requires
        scalable(v),
    ensures
        ({
            let (r, one, squares) = (norm(v).abs_units(), pow2(149), squared_length(v));
            let x = total(products(v, v)).abs_units() * one;
            let factor = (Binary32 { bits: ONE_BITS }).quotient(norm(v));
            &&& pow2(109) <= r < pow2(214)
            &&& r * r >= 0x20_0000_0000_0000_0000 * one
            &&& close(x as int, squares as int, (18 * (v.len() + 1)) as int, one as int)
            &&& 0x100_0000 * (r * r) <= 0x100_0005 * x
            &&& 0xff_fffb * x <= 0x100_0000 * (r * r)
            &&& squares <= 8 * (r * r)
            &&& factor.finite()
            &&& !factor.sign_bit()
            &&& factor.abs_units() == round24(one * one, r)
        }),
{
    let t = total(products(v, v));
    let length = norm(v);
    lemma_scales();
    lemma_pow2_pos(109);
    lemma_pow2_pos(149);
    assert(t.finite() && !t.sign_bit() && !t.zero()) by {
        reveal(Binary32::root);
        lemma2_to64();
    }
    lemma_root_value(t);
    lemma_squares(v);
    let one = pow2(149);
    let r = length.abs_units();
    let c = 18 * (v.len() + 1);
    let squares = squared_length(v);
    lemma_root_square(t.abs_units());
    lemma_finite_bound(t);
    lemma_root_below(t.abs_units(), r);
    lemma_factor(length);
    let rr = r * r;
    assert(rr >= 0x20_0000_0000_0000_0000 * one) by (nonlinear_arith)
        requires rr == r * r, r >= pow2(109), pow2(109) * pow2(109) == 0x20_0000_0000_0000_0000 * one;
    assert(0 <= c * one <= 0x200_0000 * one && 0 <= c * squares <= 0x200_0000 * squares) by (nonlinear_arith)
        requires 0 <= c <= 0x200_0000, one >= 0, squares >= 0;
}

/// A normalized vector is finite and has length one, up to rounding: the square
/// of its length differs from one by at most `21 n + 220` parts in 2^28, for `n`
/// values.
pub proof fn law_normalized_vectors_are_about_one_long(v: Seq<Binary32>)
    requires
        scalable(v),
    ensures
        all_finite(normalized(v)),
        ({
            let (length, unit) = (squared_length(normalized(v)), pow2(298));
            &&& 0x1000_0000 * (length - unit) <= (21 * v.len() + 220) * unit
            &&& 0x1000_0000 * (unit - length) <= (21 * v.len() + 220) * unit
        }),
{
    let one = pow2(149);
    let unit = one * one;
    let r = norm(v).abs_units();
    let n = v.len();
    let k = (n + 1) as int;
    let x = total(products(v, v)).abs_units() * one;
    let squares = squared_length(v);
    lemma_norm(v);
    lemma_scales();
    lemma_pow2_pos(149);
    lemma_reciprocal_square(one, r);
    let factor = (Binary32 { bits: ONE_BITS }).quotient(norm(v));
    let f = factor.abs_units();
    let rr = r * r;
    let w = normalized(v);
    assert forall|i: int| 0 <= i < n implies element_close(
        #[trigger] v[i].abs_units() as int,
        w[i].abs_units() as int,
        f as int,
        one as int,
    ) by {
        lemma_element_below(v, i);
        lemma_scaled_element(v[i], factor, r, squares);
    }
    assert forall|i: int| 0 <= i < n implies (#[trigger] w[i]).finite() by {
        lemma_element_below(v, i);
        lemma_scaled_element(v[i], factor, r, squares);
    }
    lemma_elements(v, w, f as int, one as int);
    lemma_scale_all(f as int, r as int, x as int, squares as int, 18 * k, one as int, n as int);
    let whole = unit * unit;
    let scaled = unit * squared_length(w);
    let ff = f * f;
    lemma_combine(k, whole as int, (ff * squares) as int, (ff * x) as int, (ff * rr) as int, scaled as int);
    let l = squared_length(w);
    let g = 21 * n + 220;
    assert((21 * k + 190) * whole <= g * whole) by (nonlinear_arith)
        requires 21 * k + 190 <= g, whole >= 0;
    assert(0x1000_0000 * (l - unit) <= g * unit && 0x1000_0000 * (unit - l) <= g * unit) by (nonlinear_arith)
        requires
            0x1000_0000 * (unit * l) <= 0x1000_0000 * (unit * unit) + g * (unit * unit),
            0x1000_0000 * (unit * unit) - g * (unit * unit) <= 0x1000_0000 * (unit * l),
            unit > 0;
}

/// One element of a vector, scaled.
proof fn lemma_scaled_element(a: Binary32, factor: Binary32, r: nat, squares: nat)
    requires
        a.finite(),
        factor.finite(),
        factor.abs_units() * r <= 2 * (pow2(149) * pow2(149)),
        a.abs_units() * a.abs_units() <= squares,
        squares <= 8 * (r * r),
        r > 0,
    ensures
        a.product(factor).finite(),
        element_close(
            a.abs_units() as int,
            a.product(factor).abs_units() as int,
            factor.abs_units() as int,
            pow2(149) as int,
        ),
{
    lemma_scales();
    lemma_pow2_pos(149);
    let (u, f, one) = (a.abs_units(), factor.abs_units(), pow2(149));
    let unit = one * one;
    assert(u <= 3 * r) by (nonlinear_arith)
        requires u * u <= 8 * (r * r), r > 0;
    assert(u * f <= 6 * unit) by (nonlinear_arith)
        requires u <= 3 * r, f * r <= 2 * unit, f >= 0;
    lemma_element(u, f, one);
    lemma_product_units(a, factor);
}

/// The closeness of the sums of squares, scaled by the square of the factor.
proof fn lemma_scale_all(f: int, r: int, x: int, squares: int, c: int, one: int, n: int)
    requires
        close(x, squares, c, one),
        0x100_0000 * (r * r) <= 0x100_0005 * x,
        0xff_fffb * x <= 0x100_0000 * (r * r),
        r * r >= 0x20_0000_0000_0000_0000 * one,
        0 <= f * r <= 2 * (one * one),
        1 <= c <= 0x200_0000,
        0 <= n <= 0x10_0000,
        one >= 0x200_0000_0000_0000_0000,
        squares >= 0,
        x >= 0,
    ensures
        ({
            let (ff, whole) = (f * f, (one * one) * (one * one));
            &&& 0x100_0000 * (ff * (r * r)) <= 0x100_0005 * (ff * x)
            &&& 0xff_fffb * (ff * x) <= 0x100_0000 * (ff * (r * r))
            &&& 0x1000_0000 * (ff * x) <= 0x1000_0000 * (ff * squares) + c * (ff * squares) + whole
            &&& 0x1000_0000 * (ff * squares) - c * (ff * squares) <= 0x1000_0000 * (ff * x) + whole
            &&& 0x1_0000_0000_0000 * (n * (32 * (one * one * one))) <= whole
            &&& 0 <= ff * squares
            &&& 0 <= ff * x
        }),
{
    let ff = f * f;
    let rr = r * r;
    let unit = one * one;
    let whole = unit * unit;
    assert(ff >= 0) by (nonlinear_arith)
        requires ff == f * f;
    assert(0x100_0000 * (ff * rr) <= 0x100_0005 * (ff * x) && 0xff_fffb * (ff * x) <= 0x100_0000 * (ff * rr))
        by (nonlinear_arith)
        requires 0x100_0000 * rr <= 0x100_0005 * x, 0xff_fffb * x <= 0x100_0000 * rr, ff >= 0;
    let (ct, cp) = (c * squares, c * one);
    assert(0x1000_0000 * (ff * x) <= 0x1000_0000 * (ff * squares) + ff * ct + 0x1000_0000 * (ff * cp)) by (nonlinear_arith)
        requires 0x1000_0000 * x <= 0x1000_0000 * squares + ct + 0x1000_0000 * cp, ff >= 0;
    assert(0x1000_0000 * (ff * squares) - ff * ct <= 0x1000_0000 * (ff * x) + 0x1000_0000 * (ff * cp)) by (nonlinear_arith)
        requires 0x1000_0000 * squares - ct <= 0x1000_0000 * x + 0x1000_0000 * cp, ff >= 0;
    assert(ff * ct == c * (ff * squares)) by (nonlinear_arith)
        requires ct == c * squares;
    assert(4 * (0x1000_0000 * cp) <= rr) by (nonlinear_arith)
        requires cp == c * one, c <= 0x200_0000, rr >= 0x20_0000_0000_0000_0000 * one, one >= 0;
    assert(ff * (4 * (0x1000_0000 * cp)) <= ff * rr) by (nonlinear_arith)
        requires 4 * (0x1000_0000 * cp) <= rr, ff >= 0;
    assert(ff * (4 * (0x1000_0000 * cp)) == 4 * (0x1000_0000 * (ff * cp))) by (nonlinear_arith);
    let fr = f * r;
    assert(fr * fr <= (2 * unit) * (2 * unit)) by (nonlinear_arith)
        requires 0 <= fr <= 2 * unit;
    assert((2 * unit) * (2 * unit) == 4 * whole) by (nonlinear_arith)
        requires whole == unit * unit;
    assert(fr * fr == ff * rr) by (nonlinear_arith)
        requires fr == f * r, ff == f * f, rr == r * r;
    let cube = one * one * one;
    assert(cube >= 0) by (nonlinear_arith)
        requires cube == one * one * one, one >= 0;
    assert(n * (32 * cube) <= 0x200_0000 * cube) by (nonlinear_arith)
        requires n <= 0x10_0000, cube >= 0;
    assert(0x200_0000_0000_0000_0000 * cube <= one * cube) by (nonlinear_arith)
        requires one >= 0x200_0000_0000_0000_0000, cube >= 0;
    assert(one * cube == whole) by (nonlinear_arith)
        requires cube == one * one * one, whole == (one * one) * (one * one);
    assert(0 <= ff * squares && 0 <= ff * x) by (nonlinear_arith)
        requires ff >= 0, squares >= 0, x >= 0;
}

/// The products of the absolute values at the same places, added up exactly.
spec fn overlap(a: Seq<Binary32>, b: Seq<Binary32>) -> nat
    decreases a.len(),
{
    if a.len() == 0 {
        0
    } else {
        overlap(a.drop_last(), b.drop_last()) + a.last().abs_units() * b.last().abs_units()
    }
}

/// Two vectors overlap by no more than the mean of their squared lengths.
proof fn lemma_overlap(a: Seq<Binary32>, b: Seq<Binary32>)
    requires
        a.len() == b.len(),
    ensures
        2 * overlap(a, b) <= squared_length(a) + squared_length(b),
    decreases a.len(),
{
    if a.len() > 0 {
        lemma_overlap(a.drop_last(), b.drop_last());
        let (x, y) = (a.last().abs_units(), b.last().abs_units());
        assert(2 * (x * y) <= x * x + y * y) by (nonlinear_arith);
    }
}

/// The value of a sum of finite numbers.
pub(crate) proof fn lemma_signed_sum_units(a: Binary32, b: Binary32, n: nat)
    requires
        a.finite(),
        b.finite(),
        n == a.units() + b.units() || n == -(a.units() + b.units()),
        n < pow2(276),
    ensures
        a.sum(b).finite(),
        a.sum(b).abs_units() == round24(n, 1),
        n > 0 ==> a.sum(b).sign_bit() == (a.units() + b.units() < 0),
{
    reveal(Binary32::sum);
    lemma2_to64();
    assert(n / 1 == n);
    lemma_round_bound(n, 1, 277);
    lemma_rounded(n, 1);
    if n == 0 {
        lemma_round_zero(1);
    } else {
        let r = rounded(n, 1);
        let negative = a.units() + b.units() < 0;
        assert(r.signed(negative).magnitude() == r.magnitude());
    }
}

/// The rounded sum of products is finite, and at most as large as the overlap
/// of the vectors, up to rounding.
proof fn lemma_dot(a: Seq<Binary32>, b: Seq<Binary32>)
    requires
        all_finite(a),
        all_finite(b),
        a.len() == b.len(),
        a.len() <= 0x10_0000,
        overlap(a, b) <= pow2(420),
    ensures
        total(products(a, b)).finite(),
        bounded(
            (total(products(a, b)).abs_units() * pow2(149)) as int,
            overlap(a, b) as int,
            (18 * a.len() + 18) as int,
            pow2(149) as int,
        ),
    decreases a.len(),
{
    let one = pow2(149);
    let most = pow2(271);
    lemma_scales();
    lemma_pow2_pos(149);
    lemma2_to64();
    let terms = products(a, b);
    if a.len() == 0 {
        assert(total(terms).abs_units() == 0);
        assert(0 * one == 0);
    } else {
        let (front_a, front_b) = (a.drop_last(), b.drop_last());
        let (last_a, last_b) = (a.last(), b.last());
        assert(last_a == a[a.len() - 1] && last_b == b[b.len() - 1]);
        assert(terms.drop_last() =~= products(front_a, front_b));
        assert forall|i: int| 0 <= i < front_a.len() implies (#[trigger] front_a[i]).finite() by {
            assert(a[i].finite());
        }
        assert forall|i: int| 0 <= i < front_b.len() implies (#[trigger] front_b[i]).finite() by {
            assert(b[i].finite());
        }
        let z = last_a.abs_units() * last_b.abs_units();
        assert(z >= 0) by (nonlinear_arith)
            requires z == last_a.abs_units() * last_b.abs_units();
        lemma_dot(front_a, front_b);
        lemma_product_units(last_a, last_b);
        lemma_round_absolute(z, one);
        lemma_pow2_strictly_increases(149, 271);
        lemma_pow2_adds(5, 271);
        lemma_pow2_strictly_increases(276, 277);
        let up = round24(z, one);
        assert(up <= 4 * most) by (nonlinear_arith)
            requires up * one <= 2 * (most * one) + one, one > 0, most >= 1;
        let s = total(terms.drop_last());
        let p = last_a.product(last_b);
        let us = s.abs_units();
        let (x, q) = (us * one, up * one);
        let d = overlap(front_a, front_b);
        let c = 18 * front_a.len() + 18;
        assert(0 <= c * d <= 0x200_0000 * d && 0 <= c * one <= 0x200_0000 * one) by (nonlinear_arith)
            requires 0 <= c <= 0x200_0000, d >= 0, one >= 0;
        assert(0x200_0000 * one <= most * one) by (nonlinear_arith)
            requires most >= 0x200_0000, one >= 0;
        assert(us <= 4 * most) by (nonlinear_arith)
            requires us * one <= 4 * (most * one), one > 0;
        let sum = s.units() + p.units();
        let n: nat = if sum < 0 {
            (-sum) as nat
        } else {
            sum as nat
        };
        assert(n <= us + up);
        assert(n < pow2(276));
        lemma_signed_sum_units(s, p, n);
        lemma_round_whole(n);
        let total_units = total(terms).abs_units();
        let next = total_units * one;
        assert(0x100_0000 * next <= 0x100_0001 * (x + q)) by (nonlinear_arith)
            requires
                next == total_units * one,
                x == us * one,
                q == up * one,
                0x100_0000 * total_units <= 0x100_0001 * n,
                n <= us + up,
                one > 0;
        lemma_bounded_step(x as int, d as int, c as int, one as int, q as int, z as int, next as int);
    }
}

/// The sum of products of two normalized vectors lies between -1 and 1, up to
/// rounding: it exceeds them by at most `41 n + 260` parts in 2^28, for `n` values.
pub proof fn law_similarity_is_at_most_about_one(u: Seq<Binary32>, v: Seq<Binary32>)
    requires
        scalable(u),
        scalable(v),
        u.len() == v.len(),
        u.len() > 0,
    ensures
        similarity(normalized(u), normalized(v)) is Ok,
        ({
            let s = similarity(normalized(u), normalized(v))->Ok_0;
            &&& s.finite()
            &&& 0x1000_0000 * s.abs_units() <= (0x1000_0000 + rounding_slack(u.len())) * pow2(149)
        }),
{
    let (a, b) = (normalized(u), normalized(v));
    law_normalized_vectors_are_about_one_long(u);
    law_normalized_vectors_are_about_one_long(v);
    lemma_overlap(a, b);
    lemma_scales();
    let one = pow2(149);
    let unit = one * one;
    let n = u.len();
    let d = overlap(a, b);
    lemma_slack(n as int, d as int, unit as int, one as int);
    lemma_dot(a, b);
    let s = total(products(a, b)).abs_units();
    let k = 41 * n + 260;
    assert(0x1000_0000 * s <= (0x1000_0000 + k) * one) by (nonlinear_arith)
        requires 0x1000_0000 * (s * one) <= 0x1000_0000 * (one * one) + k * (one * one), one > 0;
}

/// What the errors of a length near one and of a sum come to.
proof fn lemma_slack(n: int, d: int, unit: int, one: int)
    requires
        0 <= n <= 0x10_0000,
        0 <= d,
        0x1000_0000 * d <= 0x1000_0000 * unit + (21 * n + 220) * unit,
        unit == one * one,
        one >= 0x200_0000_0000_0000_0000,
    ensures
        ({
            let (g, c) = (21 * n + 220, 18 * n + 18);
            &&& d <= 2 * unit
            &&& g * unit + c * d + 0x1000_0000 * (c * one) <= (41 * n + 260) * unit
        }),
{
    let (g, c, nu) = (21 * n + 220, 18 * n + 18, n * unit);
    assert(unit >= 0 && 0 <= nu <= 0x10_0000 * unit) by (nonlinear_arith)
        requires unit == one * one, nu == n * unit, 0 <= n <= 0x10_0000;
    assert(g * unit == 21 * nu + 220 * unit) by (nonlinear_arith)
        requires g == 21 * n + 220, nu == n * unit;
    assert(10 * d <= 11 * unit);
    assert(10 * (c * d) <= 11 * (c * unit)) by (nonlinear_arith)
        requires 10 * d <= 11 * unit, c >= 0;
    assert(c * unit == 18 * nu + 18 * unit) by (nonlinear_arith)
        requires c == 18 * n + 18, nu == n * unit;
    assert(0x1000_0000 * (c * one) <= unit) by (nonlinear_arith)
        requires 0 <= c <= 0x200_0000, one >= 0x200_0000_0000_0000_0000, unit == one * one;
    assert((41 * n + 260) * unit == 41 * nu + 260 * unit) by (nonlinear_arith)
        requires nu == n * unit;
}

/// A normalized vector is as similar to itself as can be, up to rounding: by one
/// less at most `41 n + 260` parts in 2^28, for `n` values.
pub proof fn law_own_similarity_is_about_one(v: Seq<Binary32>)
    requires
        scalable(v),
        v.len() > 0,
    ensures
        similarity(normalized(v), normalized(v)) is Ok,
        ({
            let s = similarity(normalized(v), normalized(v))->Ok_0;
            0x1000_0000 * s.units() >= (0x1000_0000 - rounding_slack(v.len())) * pow2(149)
        }),
{
    let w = normalized(v);
    law_similarity_is_at_most_about_one(v, v);
    law_normalized_vectors_are_about_one_long(v);
    lemma_squares(w);
    lemma_scales();
    let one = pow2(149);
    let unit = one * one;
    let n = v.len();
    let t = squared_length(w);
    lemma_slack(n as int, t as int, unit as int, one as int);
    let s = total(products(w, w)).units();
    let k = 41 * n + 260;
    assert(0x1000_0000 * s >= (0x1000_0000 - k) * one) by (nonlinear_arith)
        requires 0x1000_0000 * (s * one) >= 0x1000_0000 * (one * one) - k * (one * one), one > 0;
}

/// The square of the rounded length is off from the exact one by at most
/// `18 n + 118` parts in 2^28.
proof fn lemma_norm_square(v: Seq<Binary32>)
    requires
        scalable(v),
    ensures
        ({
            let (rr, t, e) = (norm(v).abs_units() * norm(v).abs_units(), squared_length(v), 18 * v.len() + 118);
            &&& 0x1000_0000 * rr <= 0x1000_0000 * t + e * t
            &&& 0x1000_0000 * t - e * t <= 0x1000_0000 * rr
            &&& t <= 2 * rr
            &&& rr <= 2 * t
        }),
{
    lemma_norm(v);
    lemma_pow2_pos(149);
    let one = pow2(149);
    let r = norm(v).abs_units();
    let (rr, t) = (r * r, squared_length(v));
    let c = 18 * (v.len() + 1);
    let e = 18 * v.len() + 118;
    assert(0 <= c * one <= 0x200_0000 * one && 0 <= c * t <= 0x200_0000 * t) by (nonlinear_arith)
        requires 0 <= c <= 0x200_0000, one >= 0, t >= 0;
    assert(e * t == c * t + 100 * t) by (nonlinear_arith)
        requires e == c + 100;
}

/// The length of a vector, cut to whole units of 2^-149.
pub open spec fn exact_length(v: Seq<Binary32>) -> nat {
    floor_sqrt(squared_length(v))
}

/// Two numbers are as close as their squares.
proof fn lemma_roots_close(r: int, s: int, e: int)
    requires
        r >= 0,
        s > 0,
        e >= 0,
        0x1000_0000 * (r * r) <= 0x1000_0000 * (s * s) + e * (s * s),
        0x1000_0000 * (s * s) - e * (s * s) <= 0x1000_0000 * (r * r),
    ensures
        0x1000_0000 * (r - s) <= e * s,
        0x1000_0000 * (s - r) <= e * s,
{
    let es = e * s;
    assert(e * (s * s) == es * s) by (nonlinear_arith)
        requires es == e * s;
    assert(es >= 0) by (nonlinear_arith)
        requires es == e * s, e >= 0, s > 0;
    if 0x1000_0000 * (r - s) > es {
        assert(0x1000_0000 * (r * r) - 0x1000_0000 * (s * s) > es * s) by (nonlinear_arith)
            requires 0x1000_0000 * (r - s) > es, es >= 0, s > 0, r >= 0;
    }
    if 0x1000_0000 * (s - r) > es {
        assert(0x1000_0000 * (s * s) - 0x1000_0000 * (r * r) > es * s) by (nonlinear_arith)
            requires 0x1000_0000 * (s - r) > es, es >= 0, s > 0, r >= 0;
    }
}

/// A rounded product with a rounded reciprocal is close to a quotient.
proof fn lemma_ratio(a: nat, one: nat, r: nat)
    requires
        one > 0,
        r > 0,
        one * one >= 0x100_0000 * r,
    ensures
        ({
            let (b, q) = (round24(a * round24(one * one, r), one), a * one);
            &&& 0x1000_0000 * (b * r) <= 0x1000_0000 * q + 33 * q + 0x1000_0000 * r
            &&& 0x1000_0000 * q - 33 * q <= 0x1000_0000 * (b * r) + 0x1000_0000 * r
        }),
{
    let unit = one * one;
    let f = round24(unit, r);
    let z = a * f;
    let b = round24(z, one);
    let q = a * one;
    lemma_round_relative(unit, r);
    lemma_round_absolute(z, one);
    let (zr, bor, or, au) = (z * r, (b * one) * r, one * r, a * unit);
    assert(0x100_0000 * zr <= 0x100_0001 * au && 0xff_ffff * au <= 0x100_0000 * zr) by (nonlinear_arith)
        requires
            0x100_0000 * (f * r) <= 0x100_0001 * unit,
            0xff_ffff * unit <= 0x100_0000 * (f * r),
            zr == (a * f) * r,
            au == a * unit,
            a >= 0;
    assert(0x100_0000 * bor <= 0x100_0001 * zr + 0x100_0000 * or && 0xff_ffff * zr <= 0x100_0000 * bor + 0x100_0000 * or)
        by (nonlinear_arith)
        requires
            0x100_0000 * (b * one) <= 0x100_0001 * z + 0x100_0000 * one,
            0xff_ffff * z <= 0x100_0000 * (b * one) + 0x100_0000 * one,
            zr == z * r,
            bor == (b * one) * r,
            or == one * r,
            r > 0;
    assert(bor == (b * r) * one && au == q * one && or == r * one) by (nonlinear_arith)
        requires bor == (b * one) * r, au == a * (one * one), q == a * one, or == one * r;
    let br = b * r;
    assert(au >= 0) by (nonlinear_arith)
        requires au == a * unit, a >= 0, unit == one * one;
    assert(0x1000_0000 * bor <= 0x1000_0000 * au + 33 * au + 0x1000_0000 * or);
    assert(0x1000_0000 * au - 33 * au <= 0x1000_0000 * bor + 0x1000_0000 * or);
    assert(0x1000_0000 * br <= 0x1000_0000 * q + 33 * q + 0x1000_0000 * r) by (nonlinear_arith)
        requires 0x1000_0000 * (br * one) <= 0x1000_0000 * (q * one) + 33 * (q * one) + 0x1000_0000 * (r * one), one > 0;
    assert(0x1000_0000 * q - 33 * q <= 0x1000_0000 * br + 0x1000_0000 * r) by (nonlinear_arith)
        requires 0x1000_0000 * (q * one) - 33 * (q * one) <= 0x1000_0000 * (br * one) + 0x1000_0000 * (r * one), one > 0;
}

/// One value of a normalized vector: its sign is kept, it is close to the old
/// value over the rounded length, and hardly above one.
proof fn lemma_normalized_element(v: Seq<Binary32>, i: int)
    requires
        scalable(v),
        0 <= i < v.len(),
    ensures
        ({
            let (b, a, r, one) = (normalized(v)[i], v[i].abs_units(), norm(v).abs_units(), pow2(149));
            let q = a * one;
            &&& b.sign_bit() == v[i].sign_bit()
            &&& 0x1000_0000 * (b.abs_units() * r) <= 0x1000_0000 * q + 33 * q + 0x1000_0000 * r
            &&& 0x1000_0000 * q - 33 * q <= 0x1000_0000 * (b.abs_units() * r) + 0x1000_0000 * r
            &&& 20 * b.abs_units() <= 21 * one
        }),
{
    let one = pow2(149);
    let unit = one * one;
    let r = norm(v).abs_units();
    let n = v.len();
    let w = normalized(v);
    let factor = (Binary32 { bits: ONE_BITS }).quotient(norm(v));
    lemma_norm(v);
    lemma_scales();
    lemma_pow2_pos(109);
    lemma_pow2_pos(149);
    law_normalized_vectors_are_about_one_long(v);
    lemma_product_units(v[i], factor);
    assert(w[i].finite());
    lemma_ratio(v[i].abs_units(), one, r);
    lemma_element_below(w, i);
    let (b, l, g) = (w[i].abs_units(), squared_length(w), 21 * n + 220);
    assert(g * unit <= 0x150_00dc * unit) by (nonlinear_arith)
        requires g <= 0x150_00dc, unit >= 0;
    assert(20 * b <= 21 * one) by (nonlinear_arith)
        requires b * b <= l, 400 * l <= 441 * (one * one), one > 0;
}

/// Normalizing keeps the direction: each value keeps its sign, and differs from
/// the old one over the exact length by at most `19 n + 170` parts in 2^28, for
/// `n` values.
pub proof fn law_normalizing_keeps_the_direction(v: Seq<Binary32>, i: int)
    requires
        scalable(v),
        0 <= i < v.len(),
    ensures
        normalized(v)[i].sign_bit() == v[i].sign_bit(),
        ({
            let (b, a) = (normalized(v)[i].abs_units(), v[i].abs_units());
            let (one, s, e) = (pow2(149), exact_length(v), 19 * v.len() + 170);
            &&& 0x1000_0000 * (b * s - a * one) <= e * (one * s)
            &&& 0x1000_0000 * (a * one - b * s) <= e * (one * s)
        }),
{
    let one = pow2(149);
    let r = norm(v).abs_units();
    let n = v.len();
    let t = squared_length(v);
    let s = exact_length(v);
    let (b, a) = (normalized(v)[i].abs_units(), v[i].abs_units());
    lemma_norm(v);
    lemma_norm_square(v);
    lemma_scales();
    lemma_pow2_pos(149);
    lemma_floor_sqrt(t);
    lemma_normalized_element(v, i);
    lemma_element_below(v, i);
    let (rr, ss, e) = (r * r, s * s, 18 * n + 118);
    assert((s + 1) * (s + 1) == ss + 2 * s + 1) by (nonlinear_arith)
        requires ss == s * s;
    assert(s >= 0x100_0000_0000_0000) by (nonlinear_arith)
        requires
            (s + 1) * (s + 1) > t,
            t >= 0x10_0000_0000_0000_0000 * 0x200_0000_0000_0000_0000,
            s >= 0;
    assert(0x100_0000_0000_0000 * s <= ss) by (nonlinear_arith)
        requires ss == s * s, s >= 0x100_0000_0000_0000;
    assert(e * t <= e * ss + e * (2 * s)) by (nonlinear_arith)
        requires t <= ss + 2 * s, e >= 0;
    assert(e * ss <= e * t) by (nonlinear_arith)
        requires ss <= t, e >= 0;
    assert(e * (2 * s) <= 0x400_0000 * s) by (nonlinear_arith)
        requires e <= 0x200_0000, s >= 0;
    assert((e + 2) * ss == e * ss + 2 * ss) by (nonlinear_arith);
    lemma_roots_close(r as int, s as int, (e + 2) as int);
    assert(a <= s) by (nonlinear_arith)
        requires a * a <= t, t < (s + 1) * (s + 1), s >= 0;
    let d = s - r;
    let h = (e + 2) * s;
    let bd = b * d;
    let os = one * s;
    assert(b * s == b * r + bd) by (nonlinear_arith)
        requires d == s - r, bd == b * d;
    assert(0x1000_0000 * bd <= b * h && -(b * h) <= 0x1000_0000 * bd) by (nonlinear_arith)
        requires bd == b * d, 0x1000_0000 * d <= h, -h <= 0x1000_0000 * d, b >= 0;
    assert(20 * (b * h) <= 21 * (one * h)) by (nonlinear_arith)
        requires 20 * b <= 21 * one, h >= 0;
    assert(one * h == (e + 2) * os) by (nonlinear_arith)
        requires h == (e + 2) * s, os == one * s;
    assert(a * one <= os) by (nonlinear_arith)
        requires a <= s, os == one * s, one > 0;
    assert(0x1000_0000 * (2 * s) <= os) by (nonlinear_arith)
        requires os == one * s, one >= 0x200_0000_0000_0000_0000, s >= 0;
    assert(r <= 2 * s) by {
        assert(h <= 0x200_0000 * s) by (nonlinear_arith)
            requires h == (e + 2) * s, e + 2 <= 0x200_0000, s >= 0;
    }
    let no = n * os;
    assert((e + 2) * os == 18 * no + 120 * os && (19 * n + 170) * os == 19 * no + 170 * os) by (nonlinear_arith)
        requires e == 18 * n + 118, no == n * os;
    assert(no >= 0 && os >= 0) by (nonlinear_arith)
        requires no == n * os, os == one * s, one > 0, s >= 0, n >= 0;
}

/// A vector overlaps with itself by its squared length.
proof fn lemma_own_overlap(v: Seq<Binary32>)
    ensures
        overlap(v, v) == squared_length(v),
    decreases v.len(),
{
    if v.len() > 0 {
        lemma_own_overlap(v.drop_last());
    }
}

/// A root is at least half of the number whose square it is the root of.
proof fn lemma_root_above(units: nat, low: nat)
    requires
        low * low <= units * pow2(149),
        low >= 0x200_0000,
    ensures
        8 * root_units(units) >= 7 * low,
{
    let m = units * pow2(149);
    let s = floor_sqrt(m);
    lemma_floor_sqrt(m);
    let n = 2 * s + (if s * s < m {
        1nat
    } else {
        0nat
    });
    assert(low <= s) by (nonlinear_arith)
        requires low * low <= m, m < (s + 1) * (s + 1), s >= 0;
    lemma_round_absolute(n, 2);
}

/// A finite vector of up to 2^20 values whose exact length lies between 2^-38
/// and 2^61 is one that normalizing scales.
pub proof fn law_moderate_vectors_are_scalable(v: Seq<Binary32>)
    requires
        all_finite(v),
        v.len() <= 0x10_0000,
        pow2(222) <= squared_length(v) <= pow2(420),
    ensures
        scalable(v),
{
    let one = pow2(149);
    let t = total(products(v, v));
    let squares = squared_length(v);
    lemma_own_overlap(v);
    lemma_dot(v, v);
    lemma_squares(v);
    lemma_scales();
    lemma_pow2_pos(149);
    lemma2_to64();
    lemma_pow2_adds(73, 149);
    lemma_pow2_adds(9, 64);
    lemma_pow2_adds(110, 110);
    lemma_pow2_unfold(110);
    lemma_pow2_unfold(221);
    lemma_pow2_unfold(222);
    lemma_pow2_strictly_increases(25, 110);
    let c = 18 * v.len() + 18;
    let u = t.units();
    let x = u * one;
    assert(0 <= c * one <= 0x200_0000 * one && 0 <= c * squares <= 0x200_0000 * squares) by (nonlinear_arith)
        requires 0 <= c <= 0x200_0000, one >= 0, squares >= 0;
    let p = pow2(73);
    assert(pow2(222) == 0x200_0000_0000_0000_0000 * one) by (nonlinear_arith)
        requires pow2(222) == p * one, p == 0x200_0000_0000_0000_0000;
    assert(x >= pow2(220));
    assert(u > 0) by (nonlinear_arith)
        requires u * one > 0, u >= 0;
    assert(!t.sign_bit() && !t.zero());
    lemma_root_value(t);
    lemma_root_above(t.abs_units(), pow2(110));
    let tiny = Binary32 { bits: TINY_NORM_BITS };
    assert(tiny.exponent() == 87 && tiny.fraction() == 0xc_bccc);
    assert((tiny.exponent() - 1) as nat == 86);
    assert(tiny.abs_units() == 0x8c_bccc * pow2(86));
    lemma_pow2_adds(23, 86);
    lemma_pow2_pos(86);
    let (q, length) = (pow2(86), norm(v).abs_units());
    assert(pow2(110) == 0x100_0000 * q);
    assert(8 * length >= 7 * pow2(110));
    assert(0x8c_bccc * q < length) by (nonlinear_arith)
        requires 8 * length >= 7 * (0x100_0000 * q), q > 0;
}

/// Normalizing once more changes next to nothing: each value keeps its sign, and
/// changes by at most `44 n + 420` parts in 2^28 of one, for `n` values.
pub proof fn law_normalizing_twice_changes_next_to_nothing(v: Seq<Binary32>, i: int)
    requires
        scalable(v),
        0 <= i < v.len(),
    ensures
        scalable(normalized(v)),
        ({
            let (w, again) = (normalized(v)[i], normalized(normalized(v))[i]);
            let e = 44 * v.len() + 420;
            &&& again.sign_bit() == w.sign_bit()
            &&& 0x1000_0000 * (again.abs_units() - w.abs_units()) <= e * pow2(149)
            &&& 0x1000_0000 * (w.abs_units() - again.abs_units()) <= e * pow2(149)
        }),
{
    let w = normalized(v);
    let one = pow2(149);
    let unit = one * one;
    let n = v.len();
    let l = squared_length(w);
    let g = 21 * n + 220;
    law_normalized_vectors_are_about_one_long(v);
    lemma_scales();
    lemma_pow2_pos(149);
    lemma_pow2_strictly_increases(222, 297);
    lemma_pow2_unfold(298);
    assert(0 <= g * unit <= 0x150_00dc * unit) by (nonlinear_arith)
        requires 0 <= g <= 0x150_00dc, unit >= 0;
    law_moderate_vectors_are_scalable(w);
    lemma_norm(w);
    lemma_norm_square(w);
    lemma_normalized_element(v, i);
    lemma_normalized_element(w, i);
    let r = norm(w).abs_units();
    let rr = r * r;
    let e = 18 * n + 118;
    let h = 41 * n + 360;
    let nu = n * unit;
    assert(0 <= nu <= 0x10_0000 * unit) by (nonlinear_arith)
        requires nu == n * unit, 0 <= n <= 0x10_0000, unit >= 0;
    assert(g * unit == 21 * nu + 220 * unit && h * unit == 41 * nu + 360 * unit && e * unit == 18 * nu + 118 * unit)
        by (nonlinear_arith)
        requires g == 21 * n + 220, h == 41 * n + 360, e == 18 * n + 118, nu == n * unit;
    assert(10 * (e * l) <= 11 * (e * unit)) by (nonlinear_arith)
        requires 10 * l <= 11 * unit, e >= 0;
    lemma_roots_close(r as int, one as int, h as int);
    let (a, b) = (w[i].abs_units(), normalized(w)[i].abs_units());
    let d = one - r;
    let ho = h * one;
    let bd = b * d;
    assert(b * one == b * r + bd) by (nonlinear_arith)
        requires d == one - r, bd == b * d;
    assert(0x1000_0000 * bd <= b * ho && -(b * ho) <= 0x1000_0000 * bd) by (nonlinear_arith)
        requires bd == b * d, 0x1000_0000 * d <= ho, -ho <= 0x1000_0000 * d, b >= 0;
    assert(20 * (b * ho) <= 21 * (h * unit)) by (nonlinear_arith)
        requires 20 * b <= 21 * one, ho == h * one, unit == one * one, h >= 0, one > 0;
    assert(20 * (a * one) <= 21 * unit) by (nonlinear_arith)
        requires 20 * a <= 21 * one, unit == one * one, one > 0;
    assert(ho <= 0x300_0000 * one) by (nonlinear_arith)
        requires ho == h * one, h <= 0x300_0000, one > 0;
    assert(0x1000_0000 * (2 * one) <= unit) by (nonlinear_arith)
        requires unit == one * one, one >= 0x200_0000_0000_0000_0000;
    let k = 44 * n + 420;
    assert(k * unit == 44 * nu + 420 * unit) by (nonlinear_arith)
        requires k == 44 * n + 420, nu == n * unit;
    assert(0x1000_0000 * (b * one - a * one) <= k * unit && 0x1000_0000 * (a * one - b * one) <= k * unit);
    assert(0x1000_0000 * (b - a) <= k * one && 0x1000_0000 * (a - b) <= k * one) by (nonlinear_arith)
        requires
            0x1000_0000 * (b * one - a * one) <= k * (one * one),
            0x1000_0000 * (a * one - b * one) <= k * (one * one),
            one > 0;
}

/// The similarity of two normalized vectors lies between -1 and 1.
pub proof fn law_similarity_lies_between_minus_one_and_one(u: Seq<Binary32>, v: Seq<Binary32>)
    requires
        scalable(u),
        scalable(v),
        u.len() == v.len(),
        u.len() > 0,
    ensures
        cosine(normalized(u), normalized(v)).finite(),
        -pow2(149) <= cosine(normalized(u), normalized(v)).units() <= pow2(149),
{
    law_similarity_is_at_most_about_one(u, v);
    lemma_scales();
    let one = Binary32 { bits: ONE_BITS };
    assert(one.signed(true).magnitude() == one.magnitude() && one.signed(false).magnitude() == one.magnitude());
}

/// A normalized vector is about as similar to itself as can be, and about as
/// little to its opposite: within `41 n + 260` parts in 2^28, for `n` values.
pub proof fn law_similarity_of_a_vector_with_itself_and_its_opposite(v: Seq<Binary32>)
    requires
        scalable(v),
        v.len() > 0,
    ensures
        ({
            let (w, one, e) = (normalized(v), pow2(149), rounding_slack(v.len()));
            &&& (0x1000_0000 - e) * one <= 0x1000_0000 * cosine(w, w).units() <= 0x1000_0000 * one
            &&& (0x1000_0000 - e) * one <= -(0x1000_0000 * cosine(w, negated(w)).units()) <= 0x1000_0000 * one
        }),
{
    let w = normalized(v);
    law_own_similarity_is_about_one(v);
    law_similarity_lies_between_minus_one_and_one(v, v);
    law_negating_flips_the_similarity(w, w);
    lemma_scales();
    lemma_pow2_pos(149);
    let (s, t) = (similarity(w, w)->Ok_0, similarity(w, negated(w))->Ok_0);
    let one = Binary32 { bits: ONE_BITS };
    assert(one.signed(true).magnitude() == one.magnitude() && one.signed(false).magnitude() == one.magnitude());
    let (e, p) = (rounding_slack(v.len()), pow2(149));
    assert((0x1000_0000 - e) * p <= 0x1000_0000 * p && (0x1000_0000 - e) * p > 0) by (nonlinear_arith)
        requires 0 <= e < 0x1000_0000, p > 0;
    law_similarity_is_at_most_about_one(v, v);
    assert(t.abs_units() == s.abs_units());
    assert(kept_in_range(t, w.len()).units() == -kept_in_range(s, w.len()).units());
}

/// It does not matter which of two embeddings comes first.
pub proof fn law_cosine_is_symmetric(a: Seq<Binary32>, b: Seq<Binary32>)
    ensures
        cosine(a, b) == cosine(b, a),
{
    law_similarity_is_symmetric(a, b);
}

/// The products of the values at the same places, added up exactly, in units of
/// 2^-298.
pub open spec fn inner_product(a: Seq<Binary32>, b: Seq<Binary32>) -> int
    decreases a.len(),
{
    if a.len() == 0 {
        0
    } else {
        inner_product(a.drop_last(), b.drop_last()) + a.last().units() * b.last().units()
    }
}

/// `x` is off from `s` by at most `c` parts in 2^28 of `d`, and by `c` times `p` more.
spec fn near(x: int, s: int, d: int, c: int, p: int) -> bool {
    &&& 0x1000_0000 * (x - s) <= c * d + 0x1000_0000 * (c * p)
    &&& 0x1000_0000 * (s - x) <= c * d + 0x1000_0000 * (c * p)
}

spec fn magnitude_of(x: int) -> int {
    if x < 0 {
        -x
    } else {
        x
    }
}

/// One more product, with its value `y` of size `z` rounded to `q`, and the sum
/// rounded to `next`.
proof fn lemma_near_step(x: int, s: int, d: int, c: int, p: int, q: int, y: int, z: int, next: int)
    requires
        near(x, s, d, c, p),
        16 <= c <= 0x200_0000,
        p >= 0,
        magnitude_of(s) <= d,
        magnitude_of(y) == z,
        0x100_0000 * magnitude_of(q - y) <= z + 0x100_0000 * p,
        0x100_0000 * magnitude_of(next - (x + q)) <= magnitude_of(x + q),
    ensures
        near(next, s + y, d + z, c + 18, p),
        magnitude_of(s + y) <= d + z,
{
    assert((c + 18) * (d + z) == c * d + c * z + 18 * d + 18 * z) by (nonlinear_arith);
    assert((c + 18) * p == c * p + 18 * p) by (nonlinear_arith);
    assert(16 * z <= c * z) by (nonlinear_arith)
        requires 16 <= c, z >= 0;
    assert(0 <= c * d <= 0x200_0000 * d) by (nonlinear_arith)
        requires 0 <= c <= 0x200_0000, d >= 0;
    assert(0 <= c * p <= 0x200_0000 * p) by (nonlinear_arith)
        requires 0 <= c <= 0x200_0000, p >= 0;
}

/// The rounded sum of products is near the exact one.
proof fn lemma_dot_near(a: Seq<Binary32>, b: Seq<Binary32>)
    requires
        all_finite(a),
        all_finite(b),
        a.len() == b.len(),
        a.len() <= 0x10_0000,
        overlap(a, b) <= pow2(420),
    ensures
        magnitude_of(inner_product(a, b)) <= overlap(a, b),
        near(
            total(products(a, b)).units() * pow2(149),
            inner_product(a, b),
            overlap(a, b) as int,
            (18 * a.len() + 18) as int,
            pow2(149) as int,
        ),
    decreases a.len(),
{
    let one = pow2(149);
    lemma_scales();
    lemma_pow2_pos(149);
    lemma2_to64();
    let terms = products(a, b);
    if a.len() == 0 {
        assert(total(terms).units() == 0);
        assert(0 * one == 0);
    } else {
        let (front_a, front_b) = (a.drop_last(), b.drop_last());
        let (last_a, last_b) = (a.last(), b.last());
        assert(last_a == a[a.len() - 1] && last_b == b[b.len() - 1]);
        assert(terms.drop_last() =~= products(front_a, front_b));
        assert forall|i: int| 0 <= i < front_a.len() implies (#[trigger] front_a[i]).finite() by {
            assert(a[i].finite());
        }
        assert forall|i: int| 0 <= i < front_b.len() implies (#[trigger] front_b[i]).finite() by {
            assert(b[i].finite());
        }
        let z = last_a.abs_units() * last_b.abs_units();
        let y = last_a.units() * last_b.units();
        assert(z >= 0) by (nonlinear_arith)
            requires z == last_a.abs_units() * last_b.abs_units();
        lemma_dot_near(front_a, front_b);
        lemma_dot(front_a, front_b);
        lemma_dot(a, b);
        let s = total(terms.drop_last());
        let p = last_a.product(last_b);
        assert(p.finite()) by {
            reveal(Binary32::sum);
        }
        lemma_product_units(last_a, last_b);
        lemma_round_absolute(z, one);
        lemma_signed_product(last_a, last_b);
        let (x, q) = (s.units() * one, p.units() * one);
        let pu = p.abs_units();
        assert((-(pu as int)) * one == -(pu * one)) by (nonlinear_arith);
        let sum = s.units() + p.units();
        let n = magnitude_of(sum) as nat;
        lemma_sum_magnitude(s, p, n);
        lemma_round_whole(n);
        let t = total(terms).units();
        let next = t * one;
        assert(x + q == sum * one) by (nonlinear_arith)
            requires x == s.units() * one, q == p.units() * one, sum == s.units() + p.units();
        assert(0x100_0000 * magnitude_of(t - sum) <= magnitude_of(sum));
        let (gap, size) = (t - sum, magnitude_of(sum));
        assert(next - (x + q) == gap * one) by (nonlinear_arith)
            requires next == t * one, x + q == sum * one, gap == t - sum;
        assert(magnitude_of(gap * one) == magnitude_of(gap) * one && magnitude_of(sum * one) == size * one)
            by (nonlinear_arith)
            requires one > 0, size == magnitude_of(sum);
        assert(0x100_0000 * (magnitude_of(gap) * one) <= size * one) by (nonlinear_arith)
            requires 0x100_0000 * magnitude_of(gap) <= size, one > 0;
        lemma_near_step(
            x,
            inner_product(front_a, front_b),
            overlap(front_a, front_b) as int,
            (18 * front_a.len() + 18) as int,
            one as int,
            q,
            y,
            z as int,
            next,
        );
    }
}

/// The value of a finite sum of finite numbers.
proof fn lemma_sum_magnitude(a: Binary32, b: Binary32, n: nat)
    requires
        a.finite(),
        b.finite(),
        a.sum(b).finite(),
        n == magnitude_of(a.units() + b.units()),
    ensures
        a.sum(b).units() == (if a.units() + b.units() < 0 {
            -(round24(n, 1) as int)
        } else {
            round24(n, 1) as int
        }),
{
    reveal(Binary32::sum);
    lemma2_to64();
    lemma_rounded(n, 1);
    if n == 0 {
        lemma_round_zero(1);
        let zero = Binary32 { bits: 0 };
        assert(zero.signed(true).abs_units() == 0 && zero.signed(false).abs_units() == 0);
    } else {
        let r = rounded(n, 1);
        let negative = a.units() + b.units() < 0;
        assert(r.signed(negative).magnitude() == r.magnitude());
    }
}

/// The product of the lengths of two vectors, cut to whole units of 2^-298.
pub open spec fn length_product(a: Seq<Binary32>, b: Seq<Binary32>) -> nat {
    floor_sqrt(squared_length(a) * squared_length(b))
}

/// The similarity of two normalized vectors is the cosine of the angle between
/// them, their exact inner product over the product of their lengths, up to
/// `48 n + 500` parts in 2^28, for `n` values.
pub proof fn law_similarity_is_the_cosine(u: Seq<Binary32>, v: Seq<Binary32>)
    requires
        scalable(u),
        scalable(v),
        u.len() == v.len(),
        u.len() > 0,
    ensures
        ({
            let (a, b) = (normalized(u), normalized(v));
            let (r, one, h, e) = (cosine(a, b).units(), pow2(149), length_product(a, b), 48 * u.len() + 500);
            &&& 0x1000_0000 * (r * h - inner_product(a, b) * one) <= e * (one * h)
            &&& 0x1000_0000 * (inner_product(a, b) * one - r * h) <= e * (one * h)
        }),
{
    let (a, b) = (normalized(u), normalized(v));
    let one = pow2(149);
    let unit = one * one;
    let n = u.len();
    let g = 21 * n + 220;
    law_normalized_vectors_are_about_one_long(u);
    law_normalized_vectors_are_about_one_long(v);
    law_similarity_is_at_most_about_one(u, v);
    law_similarity_lies_between_minus_one_and_one(u, v);
    lemma_overlap(a, b);
    lemma_scales();
    lemma_pow2_pos(149);
    let d = overlap(a, b);
    let (la, lb) = (squared_length(a), squared_length(b));
    lemma_slack(n as int, d as int, unit as int, one as int);
    lemma_dot_near(a, b);
    let s = similarity(a, b)->Ok_0.units();
    let r = cosine(a, b).units();
    let inner = inner_product(a, b);
    let nu = n * unit;
    assert(unit >= 0 && 0 <= nu <= 0x10_0000 * unit) by (nonlinear_arith)
        requires unit == one * one, nu == n * unit, 0 <= n <= 0x10_0000;
    assert(g * unit == 21 * nu + 220 * unit) by (nonlinear_arith)
        requires g == 21 * n + 220, nu == n * unit;
    // The sum is near the exact inner product, and so is the sum kept in range.
    let c = 18 * n + 18;
    assert(10 * (c * d) <= 11 * (c * unit)) by (nonlinear_arith)
        requires 10 * d <= 11 * unit, c >= 0;
    assert(c * unit == 18 * nu + 18 * unit) by (nonlinear_arith)
        requires c == 18 * n + 18, nu == n * unit;
    assert(0x1000_0000 * (c * one) <= unit) by (nonlinear_arith)
        requires 0 <= c <= 0x200_0000, one >= 0x200_0000_0000_0000_0000, unit == one * one;
    let so = s * one;
    let ro = r * one;
    assert(0x1000_0000 * magnitude_of(so - inner) <= g * unit);
    let one_bits = Binary32 { bits: ONE_BITS };
    assert(one_bits.signed(true).magnitude() == one_bits.magnitude() && one_bits.signed(false).magnitude()
        == one_bits.magnitude());
    assert(r == s || (r == one && s > one) || (r == -one && s < -one));
    assert(0x1000_0000 * magnitude_of(ro - inner) <= g * unit) by {
        if r == one && s > one {
            assert(ro == unit && so >= unit) by (nonlinear_arith)
                requires ro == r * one, so == s * one, r == one, s > one, unit == one * one, one > 0;
        } else if r == -one && s < -one {
            assert(ro == -unit && so <= -unit) by (nonlinear_arith)
                requires ro == r * one, so == s * one, r == -one, s < -one, unit == one * one, one > 0;
        }
    }
    assert(unit >= one) by (nonlinear_arith)
        requires unit == one * one, one >= 1;
    lemma_length_product(la, lb, unit, g);
    let h = length_product(a, b);
    let rd = r * (h - unit);
    let gu = (g + 2) * unit;
    assert((g + 2) * unit == g * unit + 2 * unit) by (nonlinear_arith);
    assert(0x1000_0000 * magnitude_of(rd) <= one * gu) by (nonlinear_arith)
        requires rd == r * (h - unit), 0x1000_0000 * (h - unit) <= gu, -gu <= 0x1000_0000 * (h - unit), -one <= r <= one;
    let gap = ro - inner;
    assert(r * h - inner * one == rd + gap * one) by (nonlinear_arith)
        requires rd == r * (h - unit), gap == r * one - inner, unit == one * one;
    let gg = g * unit;
    assert(0x1000_0000 * magnitude_of(gap * one) <= one * gg) by (nonlinear_arith)
        requires 0x1000_0000 * magnitude_of(gap) <= gg, one > 0;
    assert(one * gu + one * gg == one * (gu + gg)) by (nonlinear_arith);
    let e = 48 * n + 500;
    let nh = n * h;
    assert(10 * nu <= 11 * nh) by (nonlinear_arith)
        requires 10 * unit <= 11 * h, nu == n * unit, nh == n * h, n >= 0;
    assert(e * h == 48 * nh + 500 * h) by (nonlinear_arith)
        requires e == 48 * n + 500, nh == n * h;
    assert(gu + gg <= e * h);
    assert(one * (gu + gg) <= one * (e * h)) by (nonlinear_arith)
        requires gu + gg <= e * h, one > 0;
    assert(one * (e * h) == e * (one * h)) by (nonlinear_arith);
}

/// The product of two lengths near one is near one.
proof fn lemma_length_product(la: nat, lb: nat, unit: nat, g: nat)
    requires
        unit >= 0x1_0000_0000_0000,
        g <= 0x150_00dc,
        0x1000_0000 * (la - unit) <= g * unit,
        0x1000_0000 * (unit - la) <= g * unit,
        0x1000_0000 * (lb - unit) <= g * unit,
        0x1000_0000 * (unit - lb) <= g * unit,
    ensures
        ({
            let h = floor_sqrt(la * lb);
            &&& 0x1000_0000 * (h - unit) <= (g + 2) * unit
            &&& 0x1000_0000 * (unit - h) <= (g + 2) * unit
            &&& 10 * unit <= 11 * h
        }),
{
    let k: nat = 0x1000_0000;
    let h = floor_sqrt(la * lb);
    lemma_floor_sqrt(la * lb);
    let high = k * unit + g * unit;
    let low = (k * unit - g * unit) as nat;
    assert(g * unit <= 0x150_00dc * unit) by (nonlinear_arith)
        requires g <= 0x150_00dc;
    assert((k * la) * (k * lb) <= high * high && low * low <= (k * la) * (k * lb)) by (nonlinear_arith)
        requires low <= k * la <= high, low <= k * lb <= high;
    assert((k * la) * (k * lb) == (k * k) * (la * lb)) by (nonlinear_arith);
    assert((k * h) * (k * h) == (k * k) * (h * h)) by (nonlinear_arith);
    assert((k * (h + 1)) * (k * (h + 1)) == (k * k) * ((h + 1) * (h + 1))) by (nonlinear_arith);
    assert((k * k) * (h * h) <= (k * k) * (la * lb) && (k * k) * (la * lb) < (k * k) * ((h + 1) * (h + 1)))
        by (nonlinear_arith)
        requires h * h <= la * lb, la * lb < (h + 1) * (h + 1), k > 0;
    let kh = k * h;
    assert(kh <= high) by (nonlinear_arith)
        requires kh * kh <= high * high, high >= 0, kh >= 0;
    let kh1 = k * (h + 1);
    assert(low < kh1) by (nonlinear_arith)
        requires low * low < kh1 * kh1, low >= 0, kh1 >= 0;
    assert((g + 2) * unit == g * unit + 2 * unit) by (nonlinear_arith);
}

/// Larger quotients do not round to smaller numbers.
pub proof fn law_rounding_keeps_order(m: nat, n: nat, d: nat)
    requires
        m <= n,
        d > 0,
    ensures
        round24(m, d) <= round24(n, d),
{
    let (a, b) = (m / d, n / d);
    lemma_div_is_ordered(m as int, n as int, d as int);
    let (j, k) = (excess_bits(a), excess_bits(b));
    lemma_excess_order(a, b);
    lemma_rounded_parts(m, d);
    lemma_rounded_parts(n, d);
    let (p, q) = (pow2(j), pow2(k));
    lemma_pow2_pos(j);
    lemma_pow2_pos(k);
    let (sm, sn) = (d * p, d * q);
    assert(sm > 0 && sn > 0) by (nonlinear_arith)
        requires sm == d * p, sn == d * q, d > 0, p > 0, q > 0;
    let (qm, qn) = (m / sm, n / sn);
    if j < k {
        lemma_pow2_unfold(k);
        if j < k - 1 {
            lemma_pow2_strictly_increases(j, (k - 1) as nat);
        }
        assert((qm + 1) * p <= 0x100_0000 * p) by (nonlinear_arith)
            requires qm + 1 <= 0x100_0000, p > 0;
        assert(qm * p <= (qm + 1) * p) by (nonlinear_arith)
            requires p > 0;
        assert(0x80_0000 * q <= qn * q && qn * q <= (qn + 1) * q) by (nonlinear_arith)
            requires 0x80_0000 <= qn, q > 0;
    } else {
        lemma_div_is_ordered(m as int, n as int, sm as int);
        lemma_fundamental_div_mod(m as int, sm as int);
        lemma_fundamental_div_mod(n as int, sm as int);
        if qm < qn {
            assert(qm * p <= (qm + 1) * p <= qn * p <= (qn + 1) * p) by (nonlinear_arith)
                requires qm + 1 <= qn, p > 0;
        } else {
            assert(qm * p <= (qm + 1) * p) by (nonlinear_arith)
                requires p > 0;
        }
    }
}

/// What a quotient rounds to is the quotient cut to 24 bits, or the next number.
pub(crate) proof fn lemma_rounded_parts(n: nat, d: nat)
    requires
        d > 0,
    ensures
        ({
            let k = excess_bits(n / d);
            let q = n / (d * pow2(k));
            &&& q < 0x100_0000
            &&& k > 0 ==> 0x80_0000 <= q
            &&& round24(n, d) == q * pow2(k) || round24(n, d) == (q + 1) * pow2(k)
        }),
{
    let m = n / d;
    let p = pow2(excess_bits(m));
    lemma_pow2_pos(excess_bits(m));
    lemma_excess_range(m);
    lemma_div_denominator(n as int, d as int, p as int);
    lemma_fundamental_div_mod(m as int, p as int);
    lemma_mod_pos_bound(m as int, p as int);
    let q = m / p;
    assert(q < 0x100_0000) by (nonlinear_arith)
        requires m == p * q + m % p, 0 <= m % p, m < 0x100_0000 * p, p > 0;
    assert(excess_bits(m) > 0 ==> 0x80_0000 <= q) by (nonlinear_arith)
        requires m == p * q + m % p, m % p < p, excess_bits(m) > 0 ==> 0x80_0000 * p <= m, p > 0;
}

proof fn lemma_excess_order(a: nat, b: nat)
    requires
        a <= b,
    ensures
        excess_bits(a) <= excess_bits(b),
    decreases b,
{
    if a >= 0x100_0000 {
        lemma_excess_order(a / 2, b / 2);
    }
}

/// Rounding does not pass any binary32 number, and is as near as any of them: no
/// finite number is nearer to the exact quotient.
pub proof fn law_rounding_is_to_nearest(n: nat, d: nat, b: Binary32)
    requires
        d > 0,
        b.finite(),
    ensures
        b.abs_units() * d <= n ==> b.abs_units() <= round24(n, d),
        n <= b.abs_units() * d ==> round24(n, d) <= b.abs_units(),
        n - round24(n, d) * d <= n - b.abs_units() * d || n - round24(n, d) * d <= b.abs_units() * d - n,
        round24(n, d) * d - n <= n - b.abs_units() * d || round24(n, d) * d - n <= b.abs_units() * d - n,
{
    let u = b.abs_units();
    law_rounding_keeps_exact_values(b, d);
    if u * d <= n {
        law_rounding_keeps_order(u * d, n, d);
    }
    if n <= u * d {
        law_rounding_keeps_order(n, u * d, d);
    }
    let r = round24(n, d);
    let k = excess_bits(n / d);
    let p = pow2(k);
    lemma_round_gap(n, d);
    lemma_rounded_parts(n, d);
    lemma_pow2_pos(k);
    let step = d * p;
    assert(step > 0) by (nonlinear_arith)
        requires step == d * p, d > 0, p > 0;
    lemma_fundamental_div_mod(n as int, step as int);
    lemma_mod_pos_bound(n as int, step as int);
    let q = n / step;
    let (low, high) = (q * p, (q + 1) * p);
    assert(low * d == step * q && high * d == step * q + step) by (nonlinear_arith)
        requires low == q * p, high == (q + 1) * p, step == d * p;
    if u * d <= n && r * d > n {
        // The quotient was rounded up, past a number below it that is no nearer.
        assert(r == high) by {
            if r == low {
                assert(false);
            }
        }
        lemma_no_number_between(b, k, q);
        assert(u * d <= low * d) by (nonlinear_arith)
            requires u <= low, d > 0;
    } else if n < u * d && r * d < n {
        assert(r == low) by {
            if r == high {
                assert(false);
            }
        }
        lemma_no_number_between(b, k, q);
        assert(high * d <= u * d) by (nonlinear_arith)
            requires high <= u, d > 0;
    } else if u * d <= n {
        assert(u * d <= r * d) by (nonlinear_arith)
            requires u <= r, d > 0;
    } else {
        assert(r * d <= u * d) by (nonlinear_arith)
            requires r <= u, d > 0;
    }
}

/// No binary32 number lies strictly between two neighbours of 24 bits.
pub(crate) proof fn lemma_no_number_between(b: Binary32, k: nat, q: nat)
    requires
        b.finite(),
        q < 0x100_0000,
        k > 0 ==> 0x80_0000 <= q,
    ensures
        b.abs_units() <= q * pow2(k) || (q + 1) * pow2(k) <= b.abs_units(),
{
    let p = pow2(k);
    lemma_pow2_pos(k);
    lemma2_to64();
    let e: nat = if b.exponent() == 0 {
        0
    } else {
        (b.exponent() - 1) as nat
    };
    let sig: nat = if b.exponent() == 0 {
        b.fraction()
    } else {
        0x80_0000 + b.fraction()
    };
    let u = b.abs_units();
    assert(u == sig * pow2(e)) by {
        if b.exponent() == 0 {
            assert(sig * pow2(e) == sig) by (nonlinear_arith)
                requires pow2(e) == 1;
        }
    }
    lemma_pow2_pos(e);
    if e >= k {
        let up = pow2((e - k) as nat);
        lemma_pow2_adds((e - k) as nat, k);
        let m = sig * up;
        assert(u == m * p) by (nonlinear_arith)
            requires u == sig * pow2(e), pow2(e) == up * p, m == sig * up;
        if m <= q {
            assert(m * p <= q * p) by (nonlinear_arith)
                requires m <= q, p > 0;
        } else {
            assert((q + 1) * p <= m * p) by (nonlinear_arith)
                requires q + 1 <= m, p > 0;
        }
    } else {
        lemma_pow2_unfold(k);
        if e < k - 1 {
            lemma_pow2_strictly_increases(e, (k - 1) as nat);
        }
        let pe = pow2(e);
        assert(u <= q * p) by (nonlinear_arith)
            requires u == sig * pe, sig <= 0x100_0000, 2 * pe <= p, q >= 0x80_0000, pe > 0;
    }
}

/// An answer of the embedder is accepted if and only if it has one row for each
/// face, with at least one column and nothing but finite values.
pub proof fn law_accepted_embeddings(output: Option<ModelOutput>, n: nat)
    ensures
        decoded(output, n) is Ok <==> (output matches Some(o) && o.spec_shape().len() == 2 && o.spec_shape()[0] == n
            && o.spec_shape()[1] > 0 && forall|k: int| 0 <= k < o.spec_data().len() ==> (#[trigger] o.spec_data()[k]).finite()),
{
}

/// The embedding of face `i` comes from row `i` of the answer alone. Each of its
/// values has the sign of the value at the same place of the row, and is that value
/// over the exact length of the row, up to `19 d + 170` parts in 2^28 for `d`
/// columns. A row of next to no length stays as it is.
pub proof fn law_embedding_is_its_own_row(output: Option<ModelOutput>, n: nat, i: int, j: int)
    requires
        decoded(output, n) is Ok,
        output->0.spec_data().len() == n * output->0.spec_shape()[1],
        0 <= i < n,
        0 <= j < output->0.spec_shape()[1],
    ensures
        ({
            let (data, d) = (output->0.spec_data(), output->0.spec_shape()[1] as int);
            let row = data.subrange(i * d, i * d + d);
            let (old_value, value) = (data[i * d + j], decoded(output, n)->Ok_0[i][j]);
            let (one, s, e) = (pow2(149), exact_length(row), 19 * d + 170);
            &&& decoded(output, n)->Ok_0.len() == n
            &&& decoded(output, n)->Ok_0[i].len() == d
            &&& row.len() == d && row[j] == old_value
            &&& scalable(row) ==> {
                &&& value.sign_bit() == old_value.sign_bit()
                &&& 0x1000_0000 * (value.abs_units() * s - old_value.abs_units() * one) <= e * (one * s)
                &&& 0x1000_0000 * (old_value.abs_units() * one - value.abs_units() * s) <= e * (one * s)
            }
            &&& !(Binary32 { bits: TINY_NORM_BITS }).below(norm(row)) ==> value == old_value
        }),
{
    let (data, d) = (output->0.spec_data(), output->0.spec_shape()[1] as int);
    assert(0 <= i * d && i * d + d <= n * d) by (nonlinear_arith)
        requires 0 <= i, i + 1 <= n, d >= 0;
    assert((i + 1) * d == i * d + d) by (nonlinear_arith);
    let row = data.subrange(i * d, i * d + d);
    assert(row[j] == data[i * d + j]);
    if scalable(row) {
        law_normalizing_keeps_the_direction(row, j);
    }
}

/// Each value of `w` is the value of `v` at the same place, times the factor.
pub open spec fn scaled_by(v: Seq<Binary32>, w: Seq<Binary32>, factor: Binary32) -> bool {
    w.len() == v.len() && forall|i: int| 0 <= i < v.len() ==> #[trigger] w[i] == v[i].product(factor)
}

/// All values of a vector are scaled by the same factor, or none is.
pub proof fn law_one_factor_for_all_values(v: Seq<Binary32>)
    ensures
        normalized(v) == v || exists|factor: Binary32| #[trigger] scaled_by(v, normalized(v), factor),
{
    let factor = (Binary32 { bits: ONE_BITS }).quotient(norm(v));
    if (Binary32 { bits: TINY_NORM_BITS }).below(norm(v)) {
        assert(scaled_by(v, normalized(v), factor));
    }
}

/// The similarity of two vectors, normalized or not, is their inner product up to
/// rounding: off by at most `18 n + 18` parts in 2^28 of what the products come to
/// without their signs, and as many units of 2^-149.
pub proof fn law_similarity_is_the_inner_product(a: Seq<Binary32>, b: Seq<Binary32>)
    requires
        all_finite(a),
        all_finite(b),
        a.len() == b.len(),
        0 < a.len() <= MOST_VALUES,
        squared_length(a) <= pow2(420),
        squared_length(b) <= pow2(420),
    ensures
        similarity(a, b) is Ok,
        ({
            let (s, c) = (similarity(a, b)->Ok_0, (18 * a.len() + 18) as int);
            let (x, exact, one) = (s.units() * pow2(149), inner_product(a, b), pow2(149));
            let most = (squared_length(a) + squared_length(b)) as int;
            &&& s.finite()
            &&& 0x2000_0000 * (x - exact) <= c * most + 0x2000_0000 * (c * one)
            &&& 0x2000_0000 * (exact - x) <= c * most + 0x2000_0000 * (c * one)
        }),
{
    lemma_overlap(a, b);
    lemma_dot(a, b);
    lemma_dot_near(a, b);
    let (c, d) = (18 * a.len() + 18, overlap(a, b));
    let most = squared_length(a) + squared_length(b);
    assert(2 * (c * d) <= c * most) by (nonlinear_arith)
        requires 2 * d <= most, c >= 0;
}

/// Two embeddings can be compared if and only if they have the same number of
/// values, at least one, all of them finite. One more value adds its product.
pub proof fn law_similarity_adds_up(a: Seq<Binary32>, b: Seq<Binary32>, x: Binary32, y: Binary32)
    ensures
        similarity(a, b) is Ok <==> a.len() == b.len() && a.len() > 0 && (forall|i: int|
            0 <= i < a.len() ==> (#[trigger] a[i]).finite()) && (forall|i: int| 0 <= i < b.len() ==> (#[trigger] b[i]).finite()),
        similarity(a, b) is Ok && x.finite() && y.finite() ==> similarity(a.push(x), b.push(y)) == Ok::<
            Binary32,
            FaceIdErrorView,
        >(similarity(a, b)->Ok_0.sum(x.product(y))),
        x.finite() && y.finite() ==> similarity(seq![x], seq![y]) is Ok && similarity(seq![x], seq![y])->Ok_0
            == (Binary32 { bits: NEG_ZERO_BITS }).sum(x.product(y)),
{
    let p = products(a.push(x), b.push(y));
    if similarity(a, b) is Ok && x.finite() && y.finite() {
        assert(p.drop_last() =~= products(a, b));
        assert forall|i: int| 0 <= i < a.len() + 1 implies (#[trigger] a.push(x)[i]).finite() && b.push(y)[i].finite() by {
            if i < a.len() {
                assert(a[i].finite() && b[i].finite());
            }
        }
    }
    let q = products(seq![x], seq![y]);
    assert(q.drop_last() =~= Seq::<Binary32>::empty());
    assert(q.last() == x.product(y));
    assert(total(q) == total(q.drop_last()).sum(q.last()));
}

/// A vector that is clearly shorter than 10^-12 has no direction worth keeping, and
/// stays as it is.
pub proof fn law_short_vectors_stay(v: Seq<Binary32>)
    requires
        all_finite(v),
        v.len() <= MOST_VALUES,
        2 * squared_length(v) <= (Binary32 { bits: TINY_NORM_BITS }).units() * (Binary32 { bits: TINY_NORM_BITS }).units(),
    ensures
        normalized(v) == v,
{
    let (one, tiny) = (pow2(149), Binary32 { bits: TINY_NORM_BITS });
    let t = total(products(v, v));
    let (squares, low) = (squared_length(v), tiny.units());
    lemma_scales();
    lemma_pow2_pos(149);
    lemma2_to64();
    lemma_pow2_unfold(110);
    lemma_pow2_adds(110, 110);
    lemma_pow2_strictly_increases(220, 420);
    assert(tiny.exponent() == 87 && tiny.fraction() == 0xc_bccc);
    assert((tiny.exponent() - 1) as nat == 86);
    assert(tiny.abs_units() == 0x8c_bccc * pow2(86));
    lemma_pow2_adds(24, 86);
    lemma_pow2_pos(86);
    assert(low <= pow2(110)) by (nonlinear_arith)
        requires low == 0x8c_bccc * pow2(86), pow2(110) == 0x100_0000 * pow2(86);
    let square = low * low;
    assert(square <= pow2(220)) by (nonlinear_arith)
        requires square == low * low, 0 <= low <= pow2(110), pow2(220) == pow2(110) * pow2(110);
    assert(square >= 0x20_0000_0000_0000_0000 * one) by (nonlinear_arith)
        requires square == low * low, low >= pow2(109), pow2(109) * pow2(109) == 0x20_0000_0000_0000_0000 * one;
    lemma_own_overlap(v);
    lemma_dot(v, v);
    lemma_squares(v);
    let c = 18 * v.len() + 18;
    let u = t.units();
    let x = u * one;
    assert(0 <= c * one <= 0x200_0000 * one && 0 <= c * squares <= 0x200_0000 * squares) by (nonlinear_arith)
        requires 0 <= c <= 0x200_0000, one >= 0, squares >= 0;
    assert(8 * x <= 5 * square);
    if u == 0 {
        assert(t.zero()) by {
            lemma_no_units(t);
        }
        assert(t.root() == t) by {
            reveal(Binary32::root);
        }
    } else {
        assert(!t.sign_bit() && !t.zero());
        lemma_root_value(t);
        let m = t.abs_units() * one;
        let s = floor_sqrt(m);
        lemma_floor_sqrt(m);
        let n = 2 * s + (if s * s < m {
            1nat
        } else {
            0nat
        });
        lemma_round_absolute(n, 2);
        assert(8 * (s * s) <= 5 * (low * low));
        assert(5 * s <= 4 * low) by (nonlinear_arith)
            requires 8 * (s * s) <= 5 * (low * low), s >= 0, low >= 0;
        assert(norm(v).units() <= low);
    }
}

/// A finite number without units is zero.
proof fn lemma_no_units(b: Binary32)
    requires
        b.units() == 0,
    ensures
        b.zero(),
{
    lemma2_to64();
    if b.exponent() > 0 {
        lemma_pow2_pos((b.exponent() - 1) as nat);
        let (f, p) = (0x80_0000 + b.fraction(), pow2((b.exponent() - 1) as nat));
        assert(f * p > 0) by (nonlinear_arith)
            requires f > 0, p > 0;
    }
}

} // verus!
