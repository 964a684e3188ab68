//! Where the pixels of crops and thumbnails lie, in exact terms.
//!
//! The code rounds after each step. The laws here say what comes out of all
//! steps, counted in units of 2^-149: the exact place, up to a few parts in 2^24.

use vstd::prelude::*;
use vstd::arithmetic::div_mod::{lemma_fundamental_div_mod, lemma_mod_pos_bound};
use vstd::arithmetic::power2::{pow2, lemma2_to64, lemma_pow2_adds, lemma_pow2_pos, lemma_pow2_strictly_increases, lemma_pow2_unfold};
use crate::arithmetic::{lemma_round_bound, lemma_round_zero, lemma_rounded, lemma_signed_product, rounded, signed_value};
use crate::binary32::{Binary32, HALF_BITS, ONE_AND_A_HALF_BITS, ONE_BITS, law_whole_is_exact, lemma_whole_range, round24, whole};
use crate::crop::{drawable, flat, in_pixels, middle, square_side};
use crate::detector::BoundingBox;
use crate::exactness::{law_nan_stays, law_products_with_infinity, law_sums_with_infinity, law_whole_numbers_are_about_exact};
use crate::gender_age::{crop_coordinate, shows_face};
use crate::helpers::{shows_thumbnail, thumbnail_coordinate, usable_padding};
use crate::precision::{law_rounding_keeps_order, lemma_product_units, lemma_round_absolute, lemma_round_exact, lemma_round_whole, lemma_signed_sum_units};
use crate::raster::{PixelSource, RgbImage};
use crate::sampling::{bilinear, law_one_colour_stays, within};

verus! {

/// The absolute value of a whole number.
pub open spec fn absolute(x: int) -> int {
    if x < 0 {
        -x
    } else {
        x
    }
}

/// `x` differs from `exact` by at most `slack` parts in 2^24.
pub open spec fn about(x: int, exact: int, slack: int) -> bool {
    &&& 0x100_0000 * (x - exact) <= slack
    &&& 0x100_0000 * (exact - x) <= slack
}

/// What an absolute value and a sign round to.
pub(crate) proof fn lemma_rounded_value(n: nat, d: nat, negative: bool)
    requires
        d > 0,
        n < pow2(275) * d,
    ensures
        ({
            let r = rounded(n, d).signed(negative);
            &&& r.finite()
            &&& r.units() == signed_value(negative, round24(n, d))
            &&& about(r.units() * d, signed_value(negative, n), (n + 0x100_0000 * d) as int)
            &&& d == 1 ==> about(r.units(), signed_value(negative, n), n as int)
        }),
{
    lemma_fundamental_div_mod(n as int, d as int);
    lemma_mod_pos_bound(n as int, d as int);
    let (q, p) = (n / d, pow2(275));
    assert(q < p) by (nonlinear_arith)
        requires n == d * q + n % d, n % d >= 0, n < p * d, d > 0;
    lemma_pow2_strictly_increases(275, 276);
    lemma_round_bound(n, d, 277);
    lemma_rounded(n, d);
    lemma_round_absolute(n, d);
    lemma_round_whole(n);
    let r = rounded(n, d);
    assert(r.signed(negative).magnitude() == r.magnitude());
    let u = round24(n, d) as int;
    assert((-u) * d == -(u * d)) by (nonlinear_arith);
}

/// The value of a rounded sum.
proof fn lemma_sum_value(a: Binary32, b: Binary32)
    requires
        a.finite(),
        b.finite(),
        absolute(a.units() + b.units()) < pow2(275),
    ensures
        a.sum(b).finite(),
        about(a.sum(b).units(), a.units() + b.units(), absolute(a.units() + b.units())),
{
    reveal(Binary32::sum);
    let s = a.units() + b.units();
    lemma2_to64();
    if s == 0 {
        let zero = Binary32 { bits: 0 };
        assert(zero.signed(true).units() == 0 && zero.signed(false).units() == 0);
    } else {
        lemma_rounded_value(absolute(s) as nat, 1, s < 0);
    }
}

/// The value of a rounded difference.
pub(crate) proof fn lemma_difference_value(a: Binary32, b: Binary32)
    requires
        a.finite(),
        b.finite(),
        absolute(a.units() - b.units()) < pow2(275),
    ensures
        a.difference(b).finite(),
        about(a.difference(b).units(), a.units() - b.units(), absolute(a.units() - b.units())),
{
    let c = b.signed(!b.sign_bit());
    assert(c.magnitude() == b.magnitude());
    assert(c.units() == -b.units());
    lemma_sum_value(a, c);
}

/// The value of a rounded product.
pub(crate) proof fn lemma_product_value(a: Binary32, b: Binary32)
    requires
        a.finite(),
        b.finite(),
        absolute(a.units() * b.units()) < pow2(275) * pow2(149),
    ensures
        a.product(b).finite(),
        about(
            a.product(b).units() * pow2(149),
            a.units() * b.units(),
            absolute(a.units() * b.units()) + 0x100_0000 * pow2(149),
        ),
{
    reveal(Binary32::product);
    lemma_pow2_pos(149);
    lemma_signed_product(a, b);
    let n = a.abs_units() * b.abs_units();
    assert(n >= 0) by (nonlinear_arith)
        requires n == a.abs_units() * b.abs_units(), a.abs_units() >= 0, b.abs_units() >= 0;
    lemma_rounded_value(n, pow2(149), a.sign_bit() != b.sign_bit());
}

/// The value of a rounded quotient.
pub(crate) proof fn lemma_quotient_value(a: Binary32, b: Binary32)
    requires
        a.finite(),
        b.finite(),
        0 < b.units(),
        absolute(a.units() * pow2(149)) < pow2(275) * b.units(),
    ensures
        a.quotient(b).finite(),
        about(
            a.quotient(b).units() * b.units(),
            a.units() * pow2(149),
            absolute(a.units() * pow2(149)) + 0x100_0000 * b.units(),
        ),
{
    reveal(Binary32::quotient);
    lemma_pow2_pos(149);
    let (u, p) = (a.abs_units() as int, pow2(149) as int);
    assert((-u) * p == -(u * p)) by (nonlinear_arith);
    assert(u * p >= 0) by (nonlinear_arith)
        requires u >= 0, p > 0;
    lemma2_to64();
    assert(!b.zero());
    lemma_rounded_value(a.abs_units() * pow2(149), b.abs_units(), a.sign_bit());
}

/// The value of a product plus a term, rounded once.
pub(crate) proof fn lemma_fused_value(a: Binary32, b: Binary32, c: Binary32)
    requires
        a.finite(),
        b.finite(),
        c.finite(),
        absolute(a.units() * b.units() + c.units() * pow2(149)) < pow2(275) * pow2(149),
    ensures
        a.fused(b, c).finite(),
        about(
            a.fused(b, c).units() * pow2(149),
            a.units() * b.units() + c.units() * pow2(149),
            absolute(a.units() * b.units() + c.units() * pow2(149)) + 0x100_0000 * pow2(149),
        ),
{
    reveal(Binary32::fused);
    let one = pow2(149);
    lemma_pow2_pos(149);
    let s = a.units() * b.units() + c.units() * one;
    lemma2_to64();
    if s == 0 {
        let zero = Binary32 { bits: 0 };
        assert(zero.signed(true).units() == 0 && zero.signed(false).units() == 0);
        assert(0 * one == 0);
    } else {
        lemma_rounded_value(absolute(s) as nat, one, s < 0);
    }
}

/// One half, and how it divides one.
pub(crate) proof fn lemma_half()
    ensures
        (Binary32 { bits: HALF_BITS }).finite(),
        (Binary32 { bits: HALF_BITS }).units() == pow2(148),
        pow2(149) == 2 * pow2(148),
        pow2(148) > 0,
{
    let half = Binary32 { bits: HALF_BITS };
    lemma2_to64();
    lemma_pow2_pos(148);
    lemma_pow2_unfold(149);
    assert(half.exponent() == 126 && half.fraction() == 0);
    assert(0x80_0000 + half.fraction() == 0x80_0000);
    assert((half.exponent() - 1) as nat == 125);
    lemma_pow2_adds(23, 125);
    assert(half.abs_units() == 0x80_0000 * pow2(125));
}

/// What is about right stays so when everything is multiplied.
proof fn lemma_about_scaled(x: int, exact: int, slack: int, n: int)
    requires
        about(x, exact, slack),
        n >= 0,
    ensures
        about(n * x, n * exact, n * slack),
{
    assert(0x100_0000 * (n * x - n * exact) <= n * slack) by (nonlinear_arith)
        requires 0x100_0000 * (x - exact) <= slack, n >= 0;
    assert(0x100_0000 * (n * exact - n * x) <= n * slack) by (nonlinear_arith)
        requires 0x100_0000 * (exact - x) <= slack, n >= 0;
}

/// A common factor goes away.
pub(crate) proof fn lemma_about_divided(x: int, exact: int, slack: int, n: int)
    requires
        about(n * x, n * exact, n * slack),
        n > 0,
    ensures
        about(x, exact, slack),
{
    assert(0x100_0000 * (x - exact) <= slack) by (nonlinear_arith)
        requires 0x100_0000 * (n * x - n * exact) <= n * slack, n > 0;
    assert(0x100_0000 * (exact - x) <= slack) by (nonlinear_arith)
        requires 0x100_0000 * (n * exact - n * x) <= n * slack, n > 0;
}

/// The steps from the middle and the length of a square to a pixel of a
/// thumbnail, put together: half the length `s`, the start `st`, the step `q`,
/// the place `f` of the middle of the pixel and that of its corner `x`.
proof fn lemma_thumbnail_steps(c: int, l: int, n: int, k: int, h: int, s: int, st: int, q: int, f: int, x: int)
    requires
        l >= 0,
        0 < n <= 0x80_0000,
        0 <= k <= 2 * n,
        h >= 0x1_0000_0000_0000_0000,
        about(2 * s, l, l + 0x200_0000),
        about(st, c - s, absolute(c - s)),
        about(q * n, l, l + 0x100_0000 * n),
        about(2 * f, k * q + 2 * st, absolute(k * q + 2 * st) + 0x200_0000),
        about(x, f - h, absolute(f - h)),
    ensures
        about(2 * n * x, 2 * n * c + (k - n) * l - 2 * n * h, 13 * n * (absolute(c) + l + 2 * h)),
{
    let m = absolute(c) + l + 2 * h;
    let start_slack = 2 * absolute(c) + 3 * l + 0x200_0002;
    assert(about(2 * st, 2 * c - l, start_slack));
    lemma_about_scaled(2 * st, 2 * c - l, start_slack, n);
    lemma_about_scaled(q * n, l, l + 0x100_0000 * n, k);
    let kq = k * q;
    assert(k * (q * n) == n * kq) by (nonlinear_arith)
        requires kq == k * q;
    assert(absolute(q * n) <= 2 * l + n);
    assert(absolute(n * kq) <= n * (4 * l + 2 * n)) by (nonlinear_arith)
        requires n * kq == k * (q * n), absolute(q * n) <= 2 * l + n, 0 <= k <= 2 * n;
    assert(absolute(kq) <= 4 * l + 2 * n) by (nonlinear_arith)
        requires absolute(n * kq) <= n * (4 * l + 2 * n), n > 0;
    let step_slack = absolute(kq + 2 * st) + 0x200_0000;
    lemma_about_scaled(2 * f, kq + 2 * st, step_slack, n);
    assert(n * (kq + 2 * st) == n * kq + n * (2 * st)) by (nonlinear_arith);
    assert(k * (l + 0x100_0000 * n) <= n * (2 * l + 0x200_0000 * n)) by (nonlinear_arith)
        requires 0 <= k <= 2 * n, l >= 0, n > 0;
    let whole_slack = 2 * l + 0x200_0000 * n + start_slack + step_slack;
    assert(n * whole_slack == n * (2 * l + 0x200_0000 * n) + n * start_slack + n * step_slack) by (nonlinear_arith)
        requires whole_slack == 2 * l + 0x200_0000 * n + start_slack + step_slack;
    let exact = k * l + n * (2 * c - l);
    assert(about(n * (2 * f), exact, n * whole_slack));
    assert(0x200_0000 * n <= h && 4 * n <= h);
    assert(whole_slack <= 11 * l + 5 * absolute(c) + h);
    // The last step takes away half a pixel.
    assert(absolute(exact) <= n * (l + 2 * absolute(c))) by (nonlinear_arith)
        requires exact == k * l + n * (2 * c - l), 0 <= k <= 2 * n, l >= 0, n > 0;
    let rest = l + 2 * absolute(c);
    assert(absolute(2 * f) <= rest + whole_slack) by (nonlinear_arith)
        requires
            about(n * (2 * f), exact, n * whole_slack),
            absolute(exact) <= n * rest,
            whole_slack >= 0,
            n > 0;
    assert(0x100_0000 * absolute(2 * f) <= 0x100_0000 * rest + whole_slack) by (nonlinear_arith)
        requires
            about(n * (2 * f), exact, n * whole_slack),
            absolute(exact) <= n * rest,
            whole_slack >= 0,
            n > 0;
    let last_slack = absolute(2 * f) + 2 * h;
    assert(about(2 * x, 2 * f - 2 * h, last_slack));
    lemma_about_scaled(2 * x, 2 * f - 2 * h, last_slack, n);
    assert(last_slack <= 2 * l + 3 * absolute(c) + 3 * h);
    assert(n * (2 * f - 2 * h) == n * (2 * f) - 2 * n * h) by (nonlinear_arith);
    assert(n * whole_slack + n * last_slack <= 13 * n * m) by (nonlinear_arith)
        requires whole_slack + last_slack <= 13 * m, n > 0;
    assert(n * (2 * x) == 2 * n * x) by (nonlinear_arith);
    assert(exact == 2 * n * c + (k - n) * l) by (nonlinear_arith)
        requires exact == k * l + n * (2 * c - l);
}

/// How far a number of steps goes at most.
proof fn lemma_steps_bound(l: int, n: int, k: int, q: int)
    requires
        l >= 0,
        0 < n,
        absolute(k) <= 2 * n,
        about(q * n, l, l + 0x100_0000 * n),
    ensures
        absolute(k * q) <= 4 * l + 2 * n,
{
    let kq = k * q;
    assert(k * (q * n) == n * kq) by (nonlinear_arith)
        requires kq == k * q;
    assert(absolute(q * n) <= 2 * l + n);
    assert(absolute(n * kq) <= n * (4 * l + 2 * n)) by (nonlinear_arith)
        requires n * kq == k * (q * n), absolute(q * n) <= 2 * l + n, absolute(k) <= 2 * n;
    assert(absolute(kq) <= 4 * l + 2 * n) by (nonlinear_arith)
        requires absolute(n * kq) <= n * (4 * l + 2 * n), n > 0;
}

/// Half of a length.
proof fn lemma_half_of(a: Binary32)
    requires
        a.finite(),
        0 <= a.units() <= pow2(272),
    ensures
        ({
            let s = a.product(Binary32 { bits: HALF_BITS });
            &&& s.finite()
            &&& about(2 * s.units(), a.units(), a.units() + 0x200_0000)
        }),
{
    let half = Binary32 { bits: HALF_BITS };
    let s = a.product(half);
    let (l, h, p) = (a.units(), pow2(148) as int, pow2(149) as int);
    lemma_half();
    lemma_pow2_strictly_increases(272, 275);
    let (low, high) = (pow2(272) as int, pow2(275) as int);
    assert(0 <= l * h < high * p) by (nonlinear_arith)
        requires 0 <= l <= low, low < high, p == 2 * h, h > 0;
    lemma_product_value(a, half);
    let u = s.units();
    assert(u * p == h * (2 * u) && l * h + 0x100_0000 * p == h * (l + 0x200_0000)) by (nonlinear_arith)
        requires p == 2 * h;
    assert(l * h == h * l) by (nonlinear_arith);
    lemma_about_divided(2 * u, l, l + 0x200_0000, h);
}

/// The length of a step: a square of length `side` in `size` steps.
proof fn lemma_step_of(side: Binary32, size: u32)
    requires
        side.finite(),
        0 <= side.units() <= pow2(272),
        0 < size < 0x100_0000,
    ensures
        ({
            let q = side.quotient(whole(size));
            &&& q.finite()
            &&& about(q.units() * size, side.units(), side.units() + 0x100_0000 * size)
        }),
{
    let q = side.quotient(whole(size));
    let (l, n, p) = (side.units(), size as int, pow2(149) as int);
    law_whole_is_exact(size);
    lemma_pow2_pos(149);
    lemma_pow2_strictly_increases(272, 275);
    let (low, high) = (pow2(272) as int, pow2(275) as int);
    assert(0 < n * p) by (nonlinear_arith)
        requires n > 0, p > 0;
    assert(0 <= l * p < high * (n * p)) by (nonlinear_arith)
        requires 0 <= l <= low, low < high, n >= 1, p > 0;
    lemma_quotient_value(side, whole(size));
    let u = q.units();
    assert(u * (n * p) == p * (u * n) && l * p + 0x100_0000 * (n * p) == p * (l + 0x100_0000 * n) && l * p == p * l)
        by (nonlinear_arith);
    lemma_about_divided(u * n, l, l + 0x100_0000 * n, p);
}

/// Powers of two that the bounds compare.
pub(crate) proof fn lemma_ranges()
    ensures
        pow2(148) >= 0x1_0000_0000_0000_0000,
        pow2(272) == 4 * pow2(270),
        pow2(275) == 32 * pow2(270),
        pow2(270) >= 0x1_0000_0000_0000_0000 * pow2(149),
        pow2(276) == 64 * pow2(270),
        pow2(270) > 0,
        pow2(149) >= 0x1_0000_0000_0000_0000,
{
    lemma2_to64();
    lemma_pow2_pos(270);
    lemma_pow2_strictly_increases(64, 148);
    lemma_pow2_strictly_increases(148, 149);
    lemma_pow2_adds(2, 270);
    lemma_pow2_adds(5, 270);
    lemma_pow2_adds(6, 270);
    lemma_pow2_adds(64, 149);
    lemma_pow2_strictly_increases(213, 270);
}

/// The middle of a pixel, counted from the first one.
proof fn lemma_pixel_middle(i: u32)
    requires
        i < 0x80_0000,
    ensures
        whole(i).sum(Binary32 { bits: HALF_BITS }).finite(),
        whole(i).sum(Binary32 { bits: HALF_BITS }).units() == (2 * i + 1) * pow2(148),
{
    let half = Binary32 { bits: HALF_BITS };
    let (k, h) = (2 * i + 1, pow2(148) as int);
    law_whole_is_exact(i);
    lemma_half();
    lemma_pow2_adds(24, 148);
    lemma2_to64();
    lemma_pow2_strictly_increases(172, 276);
    assert(i * (2 * h) + h == k * h) by (nonlinear_arith)
        requires k == 2 * i + 1;
    assert(0 < k * h < 0x100_0000 * h) by (nonlinear_arith)
        requires 0 < k < 0x100_0000, h > 0;
    lemma_signed_sum_units(whole(i), half, (k * h) as nat);
    lemma_round_exact(k as nat, 148);
}

/// Pixel `i` of a thumbnail of `n` pixels that shows a square of length `side`
/// around `centre` is sampled at `centre - side / 2 + (i + 1/2) * side / n - 1/2`,
/// up to 13 parts in 2^25 of what `centre`, `side` and one pixel come to.
pub proof fn law_thumbnail_pixels_lie_evenly(centre: Binary32, side: Binary32, size: u32, i: u32)
    requires
        centre.finite(),
        side.finite(),
        absolute(centre.units()) <= pow2(270),
        0 <= side.units() <= pow2(270),
        i < size <= 0x80_0000,
    ensures
        thumbnail_coordinate(centre, side, size, i).finite(),
        ({
            let (c, l, n, one) = (centre.units(), side.units(), size as int, pow2(149) as int);
            about(
                2 * n * thumbnail_coordinate(centre, side, size, i).units(),
                2 * n * c + (2 * i + 1 - n) * l - n * one,
                13 * n * (absolute(c) + l + one),
            )
        }),
{
    let half = Binary32 { bits: HALF_BITS };
    let (c, l, n, k, h, one) = (
        centre.units(),
        side.units(),
        size as int,
        2 * i + 1,
        pow2(148) as int,
        pow2(149) as int,
    );
    lemma_half();
    lemma_ranges();
    let s = side.product(half);
    lemma_half_of(side);
    let st = centre.difference(s);
    lemma_difference_value(centre, s);
    let q = side.quotient(whole(size));
    lemma_step_of(side, size);
    let a = whole(i).sum(half);
    lemma_pixel_middle(i);
    let (us, ust, uq) = (s.units(), st.units(), q.units());
    lemma_steps_bound(l, n, k, uq);
    let kq = k * uq;
    let f = a.fused(q, st);
    let t = kq + 2 * ust;
    assert(a.units() * uq + ust * one == h * t) by (nonlinear_arith)
        requires a.units() == k * h, kq == k * uq, t == kq + 2 * ust, one == 2 * h;
    let high = pow2(275) as int;
    assert(absolute(t) < high);
    assert(absolute(h * t) == h * absolute(t)) by (nonlinear_arith)
        requires h > 0;
    assert(h * absolute(t) < high * one) by (nonlinear_arith)
        requires absolute(t) < high, one == 2 * h, h > 0;
    lemma_fused_value(a, q, st);
    let uf = f.units();
    assert(uf * one == h * (2 * uf) && h * absolute(t) + 0x100_0000 * one == h * (absolute(t) + 0x200_0000))
        by (nonlinear_arith)
        requires one == 2 * h;
    lemma_about_divided(2 * uf, t, absolute(t) + 0x200_0000, h);
    lemma_difference_value(f, half);
    let x = f.difference(half);
    lemma_thumbnail_steps(c, l, n, k, h, us, ust, uq, uf, x.units());
    assert(2 * n * h == n * one) by (nonlinear_arith)
        requires one == 2 * h;
}

/// Neighbouring pixels of a thumbnail are sampled `side / n` apart.
pub proof fn law_neighbouring_thumbnail_pixels(centre: Binary32, side: Binary32, size: u32, i: u32)
    requires
        centre.finite(),
        side.finite(),
        absolute(centre.units()) <= pow2(270),
        0 <= side.units() <= pow2(270),
        i + 1 < size <= 0x80_0000,
    ensures
        ({
            let (c, l, n, one) = (centre.units(), side.units(), size as int, pow2(149) as int);
            let x = thumbnail_coordinate(centre, side, size, i).units();
            let next = thumbnail_coordinate(centre, side, size, (i + 1) as u32).units();
            about(2 * n * (next - x), 2 * l, 26 * n * (absolute(c) + l + one))
        }),
{
    let (c, l, n, one) = (centre.units(), side.units(), size as int, pow2(149) as int);
    let x = thumbnail_coordinate(centre, side, size, i).units();
    let next = thumbnail_coordinate(centre, side, size, (i + 1) as u32).units();
    law_thumbnail_pixels_lie_evenly(centre, side, size, i);
    law_thumbnail_pixels_lie_evenly(centre, side, size, (i + 1) as u32);
    let (k, m) = (2 * i + 1 - n, absolute(c) + l + one);
    assert((k + 2) * l == k * l + 2 * l) by (nonlinear_arith);
    assert(2 * n * (next - x) == 2 * n * next - 2 * n * x) by (nonlinear_arith);
    assert(26 * n * m == 13 * n * m + 13 * n * m) by (nonlinear_arith);
}

/// A thumbnail is symmetric about its middle, half a pixel before `centre`.
pub proof fn law_thumbnails_are_symmetric(centre: Binary32, side: Binary32, size: u32, i: u32)
    requires
        centre.finite(),
        side.finite(),
        absolute(centre.units()) <= pow2(270),
        0 <= side.units() <= pow2(270),
        i < size <= 0x80_0000,
    ensures
        ({
            let (c, l, n, one) = (centre.units(), side.units(), size as int, pow2(149) as int);
            let x = thumbnail_coordinate(centre, side, size, i).units();
            let opposite = thumbnail_coordinate(centre, side, size, (size - 1 - i) as u32).units();
            about(2 * n * (x + opposite), 4 * n * c - 2 * n * one, 26 * n * (absolute(c) + l + one))
        }),
{
    let (c, l, n, one) = (centre.units(), side.units(), size as int, pow2(149) as int);
    let x = thumbnail_coordinate(centre, side, size, i).units();
    let opposite = thumbnail_coordinate(centre, side, size, (size - 1 - i) as u32).units();
    law_thumbnail_pixels_lie_evenly(centre, side, size, i);
    law_thumbnail_pixels_lie_evenly(centre, side, size, (size - 1 - i) as u32);
    let (k, m) = (2 * i + 1 - n, absolute(c) + l + one);
    assert(2 * (n - 1 - i) + 1 - n == -k);
    assert((-k) * l == -(k * l)) by (nonlinear_arith);
    assert(2 * n * (x + opposite) == 2 * n * x + 2 * n * opposite) by (nonlinear_arith);
    assert(26 * n * m == 13 * n * m + 13 * n * m) by (nonlinear_arith);
    assert(4 * n * c == 2 * n * c + 2 * n * c && 2 * n * one == n * one + n * one) by (nonlinear_arith);
}

/// The square of length `side` around `centre` stays at least one pixel inside
/// a range of `limit` pixels.
pub open spec fn fits_inside(centre: Binary32, side: Binary32, limit: u32) -> bool {
    let (c, l, one) = (centre.units(), side.units(), pow2(149) as int);
    &&& centre.finite() && side.finite() && l >= 0
    &&& 2 * c - l >= 2 * one
    &&& 2 * c + l <= 2 * (limit - 1) * one
}

/// What a square that fits inside comes to.
proof fn lemma_fits_inside(centre: Binary32, side: Binary32, limit: u32)
    requires
        fits_inside(centre, side, limit),
        limit <= 0x4_0000,
    ensures
        0 < centre.units() <= pow2(270),
        side.units() <= pow2(270),
        absolute(centre.units()) + side.units() + pow2(149) <= 2 * (limit * pow2(149)),
{
    lemma_ranges();
    lemma_pow2_pos(149);
    let (n, one) = (limit as int, pow2(149) as int);
    assert(2 * (n - 1) * one == 2 * (n * one) - 2 * one) by (nonlinear_arith);
    assert(n * one <= 0x4_0000 * one) by (nonlinear_arith)
        requires n <= 0x4_0000, one > 0;
}

/// Where the square fits inside the image, so does every pixel of a thumbnail.
pub proof fn law_thumbnail_pixels_lie_inside(centre: Binary32, side: Binary32, size: u32, limit: u32, i: u32)
    requires
        fits_inside(centre, side, limit),
        limit <= 0x4_0000,
        i < size <= 0x80_0000,
    ensures
        within(thumbnail_coordinate(centre, side, size, i), limit),
{
    let (c, l, n, one, w) = (centre.units(), side.units(), size as int, pow2(149) as int, limit as int);
    lemma_fits_inside(centre, side, limit);
    lemma_pow2_pos(149);
    law_thumbnail_pixels_lie_evenly(centre, side, size, i);
    law_whole_is_exact(limit);
    let (x, m, wide) = (thumbnail_coordinate(centre, side, size, i).units(), absolute(c) + l + one, w * one);
    let exact = 2 * n * c + (2 * i + 1 - n) * l - n * one;
    assert(2 * (w - 1) * one == 2 * wide - 2 * one) by (nonlinear_arith)
        requires wide == w * one;
    assert(wide <= 0x4_0000 * one) by (nonlinear_arith)
        requires wide == w * one, w <= 0x4_0000, one > 0;
    assert(n * one <= exact <= 2 * (n * wide) - 3 * (n * one)) by (nonlinear_arith)
        requires
            exact == 2 * n * c + (2 * i + 1 - n) * l - n * one,
            0 <= i < n,
            l >= 0,
            2 * c - l >= 2 * one,
            2 * c + l <= 2 * wide - 2 * one;
    assert(13 * n * m <= 0x80_0000 * (n * one)) by (nonlinear_arith)
        requires m <= 2 * wide, wide <= 0x4_0000 * one, n > 0, one > 0;
    assert(0 < n * one) by (nonlinear_arith)
        requires n > 0, one > 0;
    assert(0 < 2 * n * x < 2 * (n * wide));
    assert(0 < x < wide) by (nonlinear_arith)
        requires 0 < 2 * n * x, 2 * n * x < 2 * (n * wide), n > 0;
}

/// Where the square fits inside an image of one colour, a thumbnail has that colour.
pub proof fn law_thumbnail_of_one_colour<I: PixelSource>(
    img: &I,
    p: (u8, u8, u8),
    cx: Binary32,
    cy: Binary32,
    side: Binary32,
    size: u32,
    px: u32,
    py: u32,
)
    requires
        fits_inside(cx, side, img.source_width()),
        fits_inside(cy, side, img.source_height()),
        img.source_width() <= 0x4_0000,
        img.source_height() <= 0x4_0000,
        px < size <= 0x80_0000,
        py < size,
        forall|a: int, b: int|
            0 <= a < img.source_width() && 0 <= b < img.source_height() ==> #[trigger] img.colour(a, b) == p,
    ensures
        bilinear(img, thumbnail_coordinate(cx, side, size, px), thumbnail_coordinate(cy, side, size, py)) == p,
{
    law_thumbnail_pixels_lie_inside(cx, side, size, img.source_width(), px);
    law_thumbnail_pixels_lie_inside(cy, side, size, img.source_height(), py);
    law_one_colour_stays(
        img,
        p,
        thumbnail_coordinate(cx, side, size, px),
        thumbnail_coordinate(cy, side, size, py),
    );
}

/// The steps from the middle and the length of a square to a pixel of a crop, put
/// together: the distance `a` of the pixel from the middle, the step `q` and the
/// place `f`.
proof fn lemma_crop_steps(c: int, l: int, n: int, k: int, one: int, a: int, q: int, f: int)
    requires
        l >= 0,
        0 < n <= 0x80_0000,
        absolute(k) <= n,
        one >= 0x1_0000_0000_0000_0000,
        about(2 * a, k * one, 6 * (n * one)),
        about(q * n, l, l + 0x100_0000 * n),
        about(f * one, a * q + c * one, absolute(a * q + c * one) + 0x100_0000 * one),
    ensures
        about(2 * n * f, 2 * n * c + k * l, 17 * n * (absolute(c) + l + one)),
{
    let (w, qn, d) = (2 * a, q * n, n * one);
    let (ew, eq) = (w - k * one, qn - l);
    assert(d > 0) by (nonlinear_arith)
        requires d == n * one, n > 0, one > 0;
    assert(absolute(k * one) <= d) by (nonlinear_arith)
        requires absolute(k) <= n, d == n * one, one > 0;
    assert(absolute(w) <= 2 * d);
    assert(absolute(qn) <= 2 * l + n);
    assert(w * qn == (k * one) * l + ew * qn + (k * one) * eq) by (nonlinear_arith)
        requires ew == w - k * one, eq == qn - l;
    assert(0x100_0000 * absolute(ew * qn) <= (6 * d) * (2 * l + n)) by (nonlinear_arith)
        requires 0x100_0000 * absolute(ew) <= 6 * d, absolute(qn) <= 2 * l + n, d >= 0;
    assert(0x100_0000 * absolute((k * one) * eq) <= d * (l + 0x100_0000 * n)) by (nonlinear_arith)
        requires absolute(k * one) <= d, 0x100_0000 * absolute(eq) <= l + 0x100_0000 * n, d >= 0;
    assert(absolute(w * qn) <= (2 * d) * (2 * l + n)) by (nonlinear_arith)
        requires absolute(w) <= 2 * d, absolute(qn) <= 2 * l + n;
    let t = a * q + c * one;
    let slack = absolute(t) + 0x100_0000 * one;
    lemma_about_scaled(f * one, t, slack, 2 * n);
    assert(2 * n * t == w * qn + 2 * n * (c * one)) by (nonlinear_arith)
        requires t == a * q + c * one, w == 2 * a, qn == q * n;
    assert(absolute(2 * n * (c * one)) == d * (2 * absolute(c))) by (nonlinear_arith)
        requires d == n * one, n > 0, one > 0;
    assert(2 * n * absolute(t) == absolute(2 * n * t)) by (nonlinear_arith)
        requires n > 0;
    assert(2 * n * slack == 2 * n * absolute(t) + 0x200_0000 * d) by (nonlinear_arith)
        requires slack == absolute(t) + 0x100_0000 * one, d == n * one;
    let exact = 2 * n * c + k * l;
    assert(one * exact == 2 * n * (c * one) + (k * one) * l) by (nonlinear_arith)
        requires exact == 2 * n * c + k * l;
    assert(2 * n * (f * one) == one * (2 * n * f)) by (nonlinear_arith);
    let all = 17 * l + 2 * absolute(c) + 8 * n + 0x100_0000 * n + 0x200_0000;
    assert((6 * d) * (2 * l + n) + d * (l + 0x100_0000 * n) + (2 * d) * (2 * l + n) + d * (2 * absolute(c)) + 0x200_0000
        * d == d * all) by (nonlinear_arith)
        requires all == 17 * l + 2 * absolute(c) + 8 * n + 0x100_0000 * n + 0x200_0000;
    assert(about(one * (2 * n * f), one * exact, d * all));
    let m = absolute(c) + l + one;
    assert(all <= 17 * m);
    assert(d * all <= one * (17 * n * m)) by (nonlinear_arith)
        requires all <= 17 * m, d == n * one, d > 0;
    lemma_about_divided(2 * n * f, exact, 17 * n * m, one);
}

/// Pixel `i` of a crop of `n` pixels that shows a square of length `side` around
/// `centre` is sampled at `centre + (i - n / 2) * side / n`, up to 17 parts in 2^25
/// of what `centre`, `side` and one pixel come to.
pub proof fn law_crop_pixels_lie_evenly(centre: Binary32, side: Binary32, size: u32, i: u32)
    requires
        centre.finite(),
        side.finite(),
        absolute(centre.units()) <= pow2(270),
        0 <= side.units() <= pow2(270),
        i < size <= 0x80_0000,
    ensures
        crop_coordinate(centre, side, size, i).finite(),
        ({
            let (c, l, n, one) = (centre.units(), side.units(), size as int, pow2(149) as int);
            about(
                2 * n * crop_coordinate(centre, side, size, i).units(),
                2 * n * c + (2 * i - n) * l,
                17 * n * (absolute(c) + l + one),
            )
        }),
{
    let half = Binary32 { bits: HALF_BITS };
    let (c, l, n, k, one) = (centre.units(), side.units(), size as int, 2 * i - size, pow2(149) as int);
    lemma_half();
    lemma_ranges();
    law_whole_is_exact(size);
    law_whole_is_exact(i);
    let d = n * one;
    assert(0 < d <= 0x80_0000 * one) by (nonlinear_arith)
        requires d == n * one, 0 < n <= 0x80_0000, one > 0;
    assert(0 <= i * one <= d) by (nonlinear_arith)
        requires d == n * one, 0 <= i <= n, one > 0;
    let s = whole(size).product(half);
    lemma_half_of(whole(size));
    let a = whole(i).difference(s);
    lemma_difference_value(whole(i), s);
    let (us, ua) = (s.units(), a.units());
    assert(k * one == 2 * (i * one) - d) by (nonlinear_arith)
        requires k == 2 * i - n, d == n * one;
    assert(one <= d) by (nonlinear_arith)
        requires d == n * one, n >= 1, one > 0;
    assert(about(2 * ua, k * one, 6 * d));
    let q = side.quotient(whole(size));
    lemma_step_of(side, size);
    let uq = q.units();
    let t = ua * uq + c * one;
    let high = pow2(275) as int;
    let qn = uq * n;
    assert(absolute(qn) <= 2 * l + n);
    assert(absolute(uq) <= absolute(qn)) by (nonlinear_arith)
        requires qn == uq * n, n >= 1;
    assert(absolute(2 * ua) <= 2 * d);
    assert(absolute(ua * uq) <= one * (2 * l + n)) by (nonlinear_arith)
        requires
            absolute(2 * ua) <= 2 * d,
            d == n * one,
            absolute(qn) <= 2 * l + n,
            qn == uq * n,
            one > 0,
            n > 0;
    assert(absolute(t) < high * one) by (nonlinear_arith)
        requires
            t == ua * uq + c * one,
            absolute(ua * uq) <= one * (2 * l + n),
            2 * l + n + absolute(c) < high,
            one > 0;
    lemma_fused_value(a, q, centre);
    lemma_crop_steps(c, l, n, k, one, ua, uq, a.fused(q, centre).units());
}

/// Where the square fits inside the image, so does every pixel of a crop.
pub proof fn law_crop_pixels_lie_inside(centre: Binary32, side: Binary32, size: u32, limit: u32, i: u32)
    requires
        fits_inside(centre, side, limit),
        limit <= 0x4_0000,
        i < size <= 0x80_0000,
    ensures
        within(crop_coordinate(centre, side, size, i), limit),
{
    let (c, l, n, one, w) = (centre.units(), side.units(), size as int, pow2(149) as int, limit as int);
    lemma_fits_inside(centre, side, limit);
    lemma_pow2_pos(149);
    law_crop_pixels_lie_evenly(centre, side, size, i);
    law_whole_is_exact(limit);
    let (x, m, wide) = (crop_coordinate(centre, side, size, i).units(), absolute(c) + l + one, w * one);
    let exact = 2 * n * c + (2 * i - n) * l;
    assert(2 * (w - 1) * one == 2 * wide - 2 * one) by (nonlinear_arith)
        requires wide == w * one;
    assert(wide <= 0x4_0000 * one) by (nonlinear_arith)
        requires wide == w * one, w <= 0x4_0000, one > 0;
    assert(2 * (n * one) <= exact <= 2 * (n * wide) - 2 * (n * one)) by (nonlinear_arith)
        requires
            exact == 2 * n * c + (2 * i - n) * l,
            0 <= i < n,
            l >= 0,
            2 * c - l >= 2 * one,
            2 * c + l <= 2 * wide - 2 * one;
    assert(17 * n * m <= 0x100_0000 * (n * one)) by (nonlinear_arith)
        requires m <= 2 * wide, wide <= 0x4_0000 * one, n > 0, one > 0;
    assert(0 < n * one) by (nonlinear_arith)
        requires n > 0, one > 0;
    assert(0 < 2 * n * x < 2 * (n * wide));
    assert(0 < x < wide) by (nonlinear_arith)
        requires 0 < 2 * n * x, 2 * n * x < 2 * (n * wide), n > 0;
}

/// Where the square fits inside an image of one colour, a crop has that colour.
pub proof fn law_crop_of_one_colour<I: PixelSource>(
    img: &I,
    p: (u8, u8, u8),
    cx: Binary32,
    cy: Binary32,
    side: Binary32,
    size: u32,
    px: u32,
    py: u32,
)
    requires
        fits_inside(cx, side, img.source_width()),
        fits_inside(cy, side, img.source_height()),
        img.source_width() <= 0x4_0000,
        img.source_height() <= 0x4_0000,
        px < size <= 0x80_0000,
        py < size,
        forall|a: int, b: int|
            0 <= a < img.source_width() && 0 <= b < img.source_height() ==> #[trigger] img.colour(a, b) == p,
    ensures
        bilinear(img, crop_coordinate(cx, side, size, px), crop_coordinate(cy, side, size, py)) == p,
{
    law_crop_pixels_lie_inside(cx, side, size, img.source_width(), px);
    law_crop_pixels_lie_inside(cy, side, size, img.source_height(), py);
    law_one_colour_stays(img, p, crop_coordinate(cx, side, size, px), crop_coordinate(cy, side, size, py));
}

/// The larger of two numbers is one of them, and neither is above it. A NaN gives
/// way to a number.
pub proof fn law_larger_of_two(a: Binary32, b: Binary32)
    ensures
        a.larger(b) == a || a.larger(b) == b,
        !a.nan() && !b.nan() ==> a.larger(b).units() >= a.units() && a.larger(b).units() >= b.units(),
        a.nan() ==> a.larger(b) == b,
        !a.nan() && b.nan() ==> a.larger(b) == a,
{
}

/// The smaller of two numbers is one of them, and neither is below it. A NaN gives
/// way to a number.
pub proof fn law_smaller_of_two(a: Binary32, b: Binary32)
    ensures
        a.smaller(b) == a || a.smaller(b) == b,
        !a.nan() && !b.nan() ==> a.smaller(b).units() <= a.units() && a.smaller(b).units() <= b.units(),
        a.nan() ==> a.smaller(b) == b,
        !a.nan() && b.nan() ==> a.smaller(b) == a,
{
}

/// A value in units of 2^-149, moved into the range from zero to one.
pub open spec fn in_unit_range(u: int) -> int {
    if u < 0 {
        0
    } else if u > pow2(149) {
        pow2(149) as int
    } else {
        u
    }
}

/// A number that is moved into the range from zero to one goes to the nearest end,
/// and stays where it is in between.
pub proof fn law_moved_into_unit_range(a: Binary32)
    requires
        !a.nan(),
    ensures
        a.unit_clamped().finite(),
        a.unit_clamped().units() == in_unit_range(a.units()),
{
    let (zero, one) = (Binary32 { bits: 0 }, Binary32 { bits: ONE_BITS });
    lemma2_to64();
    lemma_pow2_pos(149);
    assert(zero.units() == 0);
    assert(one.exponent() == 127 && one.fraction() == 0);
    lemma_pow2_adds(23, 126);
    assert(one.units() == pow2(149));
    if !a.finite() {
        assert(a.exponent() == 255 && a.fraction() == 0);
        assert(0x80_0000 + a.fraction() == 0x80_0000);
        assert((a.exponent() - 1) as nat == 254);
        lemma_pow2_strictly_increases(149, 254);
        assert(a.abs_units() == 0x80_0000 * pow2(254));
    }
}

/// The product of numbers that are not negative is not negative.
proof fn lemma_product_not_negative(a: Binary32, b: Binary32)
    requires
        a.finite(),
        b.finite(),
        a.units() >= 0,
        b.units() >= 0,
        a.product(b).finite(),
    ensures
        a.product(b).units() >= 0,
{
    lemma_product_units(a, b);
    lemma_pow2_pos(149);
    let (x, y) = (a.abs_units(), b.abs_units());
    if a.sign_bit() != b.sign_bit() {
        assert(x * y == 0) by (nonlinear_arith)
            requires x == 0 || y == 0;
        lemma_round_zero(pow2(149));
    }
}

/// A fraction of `size` pixels, cut to the image, is that many pixels up to rounding.
pub proof fn law_fraction_in_pixels(a: Binary32, size: u32)
    requires
        a.finite(),
        size < 0x100_0000,
    ensures
        ({
            let (x, exact) = (a.unit_clamped().product(whole(size)), in_unit_range(a.units()) * size);
            &&& x.finite()
            &&& x.units() >= 0
            &&& about(x.units(), exact, exact + 0x100_0000)
        }),
{
    let v = a.unit_clamped();
    law_moved_into_unit_range(a);
    law_whole_is_exact(size);
    lemma_ranges();
    lemma_pow2_pos(149);
    let (u, n, one, high) = (v.units(), size as int, pow2(149) as int, pow2(275) as int);
    let exact = u * n;
    assert(u * (n * one) == one * exact) by (nonlinear_arith)
        requires exact == u * n;
    assert(0 <= exact <= 0x100_0000 * one) by (nonlinear_arith)
        requires exact == u * n, 0 <= u <= one, 0 <= n < 0x100_0000;
    assert(0 <= one * exact < high * one) by (nonlinear_arith)
        requires 0 <= exact < high, one > 0;
    lemma_product_value(v, whole(size));
    lemma_product_not_negative(v, whole(size));
    let x = v.product(whole(size)).units();
    assert(x * one == one * x && one * exact + 0x100_0000 * one == one * (exact + 0x100_0000)) by (nonlinear_arith);
    lemma_about_divided(x, exact, exact + 0x100_0000, one);
}

/// The point half way between two coordinates is half their sum up to rounding.
pub proof fn law_middle_is_half_way(a: Binary32, b: Binary32)
    requires
        a.finite(),
        b.finite(),
        0 <= a.units() <= pow2(270),
        0 <= b.units() <= pow2(270),
    ensures
        middle(a, b).finite(),
        about(2 * middle(a, b).units(), a.units() + b.units(), 3 * (a.units() + b.units()) + 0x200_0000),
{
    lemma_ranges();
    lemma_sum_value(a, b);
    lemma_half_of(a.sum(b));
}

/// A box is flat if and only if its right edge does not lie to the right of its left
/// one, or its lower edge not below its upper one.
pub proof fn law_flat_boxes(b: BoundingBox)
    requires
        b.finite(),
        absolute(b.x1.units()) <= pow2(270),
        absolute(b.x2.units()) <= pow2(270),
        absolute(b.y1.units()) <= pow2(270),
        absolute(b.y2.units()) <= pow2(270),
    ensures
        flat(b) <==> b.x2.units() <= b.x1.units() || b.y2.units() <= b.y1.units(),
{
    lemma_ranges();
    lemma_difference_value(b.x2, b.x1);
    lemma_difference_value(b.y2, b.y1);
}

/// The longer side of a box.
pub open spec fn longer_side(b: BoundingBox) -> int {
    let (w, h) = (b.x2.units() - b.x1.units(), b.y2.units() - b.y1.units());
    if w < h {
        h
    } else {
        w
    }
}

/// The square around a box is as long as the longer side of the box, times the
/// factor, up to rounding.
pub proof fn law_square_side(b: BoundingBox, factor: Binary32)
    requires
        b.finite(),
        factor.finite(),
        absolute(b.x1.units()) <= pow2(270),
        absolute(b.x2.units()) <= pow2(270),
        absolute(b.y1.units()) <= pow2(270),
        absolute(b.y2.units()) <= pow2(270),
        b.x1.units() < b.x2.units(),
        b.y1.units() < b.y2.units(),
        0 <= factor.units(),
        longer_side(b) * factor.units() <= pow2(270) * pow2(149),
    ensures
        square_side(b, factor).finite(),
        square_side(b, factor).units() >= 0,
        about(
            square_side(b, factor).units() * pow2(149),
            longer_side(b) * factor.units(),
            3 * (longer_side(b) * factor.units()) + 0x100_0000 * pow2(149),
        ),
{
    lemma_ranges();
    lemma_pow2_pos(149);
    lemma_difference_value(b.x2, b.x1);
    lemma_difference_value(b.y2, b.y1);
    let (dx, dy) = (b.x2.difference(b.x1), b.y2.difference(b.y1));
    let m = dx.larger(dy);
    law_larger_of_two(dx, dy);
    let (d, f, one) = (longer_side(b), factor.units(), pow2(149) as int);
    assert(about(m.units(), d, d));
    lemma_about_scaled(m.units(), d, d, f);
    let (u, exact) = (m.units(), d * f);
    assert(f * u == u * f && f * d == exact) by (nonlinear_arith)
        requires exact == d * f;
    assert(0 <= exact && 0 <= u * f) by (nonlinear_arith)
        requires exact == d * f, d >= 0, f >= 0, u >= 0;
    let low = pow2(270) as int;
    assert(pow2(275) * one == 32 * (low * one)) by (nonlinear_arith)
        requires pow2(275) == 32 * low;
    assert(0 < low * one) by (nonlinear_arith)
        requires low > 0, one > 0;
    lemma_product_value(m, factor);
    lemma_product_not_negative(m, factor);
}

/// The longer side of a box in pixels, from its corners as fractions of the width
/// and height, all in units of 2^-149.
pub open spec fn longer_side_of(bbox: &BoundingBox, width: u32, height: u32) -> int {
    let w = (in_unit_range(bbox.x2.units()) - in_unit_range(bbox.x1.units())) * width;
    let h = (in_unit_range(bbox.y2.units()) - in_unit_range(bbox.y1.units())) * height;
    if w < h {
        h
    } else {
        w
    }
}

/// The middle of a box along one axis, from its edges as fractions.
proof fn lemma_axis(a: Binary32, b: Binary32, size: u32, wide: int)
    requires
        a.finite(),
        b.finite(),
        0 < size < 0x100_0000,
        wide >= size * pow2(149),
    ensures
        ({
            let (x1, x2) = (a.unit_clamped().product(whole(size)), b.unit_clamped().product(whole(size)));
            let (e1, e2) = (in_unit_range(a.units()) * size, in_unit_range(b.units()) * size);
            let c = middle(x1, x2);
            &&& x1.finite() && x2.finite() && c.finite()
            &&& 0 <= x1.units() <= 2 * wide
            &&& 0 <= x2.units() <= 2 * wide
            &&& 0 <= e1 <= wide && 0 <= e2 <= wide
            &&& about(x2.units() - x1.units(), e2 - e1, 3 * wide)
            &&& about(2 * c.units(), e1 + e2, 15 * wide)
            &&& absolute(c.units()) <= 2 * wide
            &&& x1.units() <= pow2(270) && x2.units() <= pow2(270) && absolute(c.units()) <= pow2(270)
        }),
{
    law_fraction_in_pixels(a, size);
    law_fraction_in_pixels(b, size);
    lemma_ranges();
    lemma_half();
    let (x1, x2) = (a.unit_clamped().product(whole(size)), b.unit_clamped().product(whole(size)));
    let (n, one) = (size as int, pow2(149) as int);
    let (u1, u2) = (in_unit_range(a.units()), in_unit_range(b.units()));
    assert(0 <= u1 * n <= n * one && 0 <= u2 * n <= n * one) by (nonlinear_arith)
        requires 0 <= u1 <= one, 0 <= u2 <= one, n > 0;
    assert(one <= n * one <= 0x100_0000 * one) by (nonlinear_arith)
        requires 1 <= n <= 0x100_0000, one > 0;
    law_middle_is_half_way(x1, x2);
}

/// The middle and the length of the square, put together with the place of a
/// pixel in it.
proof fn lemma_box_steps(n: int, k: int, shift: int, one: int, f: int, wide: int, e: int, d: int, c: int, l: int, side: int, x: int)
    requires
        0 < n,
        absolute(k) <= n,
        absolute(shift) <= n * one,
        one >= 0x1_0000_0000_0000_0000,
        f >= 0,
        wide >= one,
        about(2 * n * x, 2 * n * c + k * l - shift, 17 * n * (absolute(c) + l + one)),
        about(2 * c, e, 15 * wide),
        absolute(c) <= 2 * wide,
        about(side, d, 3 * wide),
        0 <= side,
        d <= wide,
        about(l * one, side * f, 3 * (side * f) + 0x100_0000 * one),
        l >= 0,
    ensures
        about(2 * n * x * one, n * e * one + k * (d * f) - shift * one, 100 * n * (wide * (one + f))),
{
    let (lo, wf, wo) = (l * one, wide * f, wide * one);
    assert(wf >= 0 && wo >= one) by (nonlinear_arith)
        requires wf == wide * f, wo == wide * one, wide >= 1, f >= 0, one >= 1;
    assert(side <= 2 * wide);
    lemma_about_scaled(side, d, 3 * wide, f);
    assert(f * side == side * f && f * d == d * f && f * (3 * wide) == 3 * wf) by (nonlinear_arith)
        requires wf == wide * f;
    assert(0 <= side * f <= 2 * wf) by (nonlinear_arith)
        requires 0 <= side <= 2 * wide, f >= 0, wf == wide * f;
    assert(d * f <= wf) by (nonlinear_arith)
        requires d <= wide, f >= 0, wf == wide * f;
    let length_slack = 9 * wf + 0x100_0000 * one;
    assert(about(lo, d * f, length_slack));
    assert(lo <= 2 * wf + one);
    // Everything counted in units of 2^-298.
    let m = absolute(c) + l + one;
    lemma_about_scaled(2 * n * x, 2 * n * c + k * l - shift, 17 * n * m, one);
    assert(one * (2 * n * x) == 2 * n * x * one) by (nonlinear_arith);
    assert(one * (2 * n * c + k * l - shift) == n * one * (2 * c) + k * lo - shift * one) by (nonlinear_arith)
        requires lo == l * one;
    let no = n * one;
    assert(no > 0) by (nonlinear_arith)
        requires no == n * one, n > 0, one > 0;
    lemma_about_scaled(2 * c, e, 15 * wide, no);
    assert(no * e == n * e * one) by (nonlinear_arith)
        requires no == n * one;
    let off = lo - d * f;
    assert(k * lo == k * (d * f) + k * off) by (nonlinear_arith)
        requires off == lo - d * f;
    assert(0x100_0000 * absolute(k * off) <= n * length_slack) by (nonlinear_arith)
        requires 0x100_0000 * absolute(off) <= length_slack, absolute(k) <= n;
    let mo = m * one;
    assert(one * (17 * n * m) == 17 * (n * mo)) by (nonlinear_arith)
        requires mo == m * one;
    assert(mo == absolute(c) * one + lo + one * one) by (nonlinear_arith)
        requires mo == m * one, m == absolute(c) + l + one, lo == l * one;
    assert(absolute(c) * one <= 2 * wo && one * one <= wo) by (nonlinear_arith)
        requires absolute(c) <= 2 * wide, wo == wide * one, wide >= one, one > 0;
    assert(mo <= 4 * wo + 2 * wf);
    assert(n * mo <= n * (4 * wo + 2 * wf)) by (nonlinear_arith)
        requires mo <= 4 * wo + 2 * wf, n > 0;
    assert(no * (15 * wide) == n * (15 * wo)) by (nonlinear_arith)
        requires no == n * one, wo == wide * one;
    assert(0x100_0000 * one <= wo) by (nonlinear_arith)
        requires wo == wide * one, wide >= 0x100_0000, one > 0;
    assert(n * length_slack <= n * (9 * wf + wo)) by (nonlinear_arith)
        requires length_slack <= 9 * wf + wo, n > 0;
    assert(17 * (n * (4 * wo + 2 * wf)) + n * (15 * wo) + n * (9 * wf + wo) <= 100 * n * (wide * (one + f)))
        by (nonlinear_arith)
        requires wo == wide * one, wf == wide * f, n > 0, wo >= 0, wf >= 0;
}

/// The square around a box, from the corners of the box as fractions.
proof fn lemma_box_square(bbox: &BoundingBox, width: u32, height: u32, factor: Binary32, wide: int)
    requires
        bbox.finite(),
        0 < width < 0x100_0000,
        0 < height < 0x100_0000,
        factor.finite(),
        0 < factor.units() <= pow2(243),
        !flat(in_pixels(bbox, width, height)),
        wide == (width + height) * pow2(149),
    ensures
        ({
            let b = in_pixels(bbox, width, height);
            let side = square_side(b, factor);
            &&& side.finite()
            &&& 0 <= side.units() <= pow2(270)
            &&& 0 <= longer_side(b)
            &&& about(longer_side(b), longer_side_of(bbox, width, height), 3 * wide)
            &&& longer_side_of(bbox, width, height) <= wide
            &&& about(
                side.units() * pow2(149),
                longer_side(b) * factor.units(),
                3 * (longer_side(b) * factor.units()) + 0x100_0000 * pow2(149),
            )
        }),
{
    let b = in_pixels(bbox, width, height);
    let (w, h, one) = (width as int, height as int, pow2(149) as int);
    lemma_pow2_pos(149);
    assert(wide == w * one + h * one) by (nonlinear_arith)
        requires wide == (w + h) * one;
    assert(0 < w * one <= 0x100_0000 * one && 0 < h * one <= 0x100_0000 * one) by (nonlinear_arith)
        requires 0 < w <= 0x100_0000, 0 < h <= 0x100_0000, one > 0;
    lemma_axis(bbox.x1, bbox.x2, width, wide);
    lemma_axis(bbox.y1, bbox.y2, height, wide);
    law_flat_boxes(b);
    let (ex1, ex2) = (in_unit_range(bbox.x1.units()), in_unit_range(bbox.x2.units()));
    let (ey1, ey2) = (in_unit_range(bbox.y1.units()), in_unit_range(bbox.y2.units()));
    assert((ex2 - ex1) * w == ex2 * w - ex1 * w && (ey2 - ey1) * h == ey2 * h - ey1 * h) by (nonlinear_arith);
    let (d, f, high) = (longer_side(b), factor.units(), pow2(243) as int);
    lemma2_to64();
    lemma_pow2_adds(26, 149);
    lemma_pow2_adds(175, 243);
    lemma_pow2_unfold(419);
    lemma_pow2_adds(270, 149);
    lemma_pow2_unfold(26);
    lemma_pow2_unfold(25);
    lemma_ranges();
    assert(d <= 0x400_0000 * one);
    assert(0 <= d * f <= (0x400_0000 * one) * high) by (nonlinear_arith)
        requires 0 <= d <= 0x400_0000 * one, 0 <= f <= high, one > 0;
    law_square_side(b, factor);
    let side = square_side(b, factor).units();
    let low = pow2(270) as int;
    assert(side * one <= low * one) by {
        assert(0x400_0000 * one * high == pow2(418));
        assert(low * one == pow2(419));
        assert(one <= low * one) by (nonlinear_arith)
            requires low >= 1, one > 0;
        assert(0x100_0000 * one <= low * one) by (nonlinear_arith)
            requires low >= 0x100_0000, one > 0;
    }
    assert(side <= low) by (nonlinear_arith)
        requires side * one <= low * one, one > 0;
}

/// Pixel `(px, py)` of a thumbnail has the colour of the image at the place that
/// the box, the padding and the size of the thumbnail make out. With the edges
/// `x1` and `x2` of the box in pixels, its longer side `d` and the padding factor
/// `f` that is `(x1 + x2) / 2 + (2 px + 1 - size) / (2 size) * d * f - 1/2`, and the
/// same for the other axis, up to 50 parts in 2^24 of what width and height come
/// to, times one more than the padding factor.
pub proof fn law_thumbnail_shows_the_box<I: PixelSource>(
    out: RgbImage,
    img: &I,
    bbox: &BoundingBox,
    padding_factor: Binary32,
    size: u32,
    px: u32,
    py: u32,
)
    requires
        shows_thumbnail(out, img, bbox, padding_factor, size),
        bbox.finite(),
        0 < img.source_width() < 0x100_0000,
        0 < img.source_height() < 0x100_0000,
        padding_factor.finite(),
        0 < padding_factor.units() <= pow2(243),
        !flat(in_pixels(bbox, img.source_width(), img.source_height())),
        px < size <= 0x80_0000,
        py < size,
    ensures
        exists|x: Binary32, y: Binary32|
            {
                let (w, h, n, one) = (img.source_width(), img.source_height(), size as int, pow2(149) as int);
                let e = (in_unit_range(bbox.x1.units()) + in_unit_range(bbox.x2.units())) * w;
                let g = (in_unit_range(bbox.y1.units()) + in_unit_range(bbox.y2.units())) * h;
                let d = longer_side_of(bbox, w, h) * padding_factor.units();
                let slack = 100 * n * (((w + h) * one) * (one + padding_factor.units()));
                &&& out.pixel(px as int, py as int) == #[trigger] bilinear(img, x, y)
                &&& x.finite() && y.finite()
                &&& about(2 * n * x.units() * one, n * e * one + (2 * px + 1 - n) * d - n * one * one, slack)
                &&& about(2 * n * y.units() * one, n * g * one + (2 * py + 1 - n) * d - n * one * one, slack)
            },
{
    let (w, h, n, one) = (img.source_width(), img.source_height(), size as int, pow2(149) as int);
    let b = in_pixels(bbox, w, h);
    let wide = (w + h) * one;
    let (side, f) = (square_side(b, padding_factor), padding_factor.units());
    let (cx, cy) = (middle(b.x1, b.x2), middle(b.y1, b.y2));
    let x = thumbnail_coordinate(cx, side, size, px);
    let y = thumbnail_coordinate(cy, side, size, py);
    lemma_box_square(bbox, w, h, padding_factor, wide);
    lemma_half();
    lemma_ranges();
    assert(wide >= w * one && wide >= h * one && wide >= one) by (nonlinear_arith)
        requires wide == (w + h) * one, w >= 1, h >= 1, one > 0;
    lemma_axis(bbox.x1, bbox.x2, w, wide);
    lemma_axis(bbox.y1, bbox.y2, h, wide);
    law_thumbnail_pixels_lie_evenly(cx, side, size, px);
    law_thumbnail_pixels_lie_evenly(cy, side, size, py);
    let (u1, u2) = (in_unit_range(bbox.x1.units()), in_unit_range(bbox.x2.units()));
    let (v1, v2) = (in_unit_range(bbox.y1.units()), in_unit_range(bbox.y2.units()));
    assert((u1 + u2) * w == u1 * w + u2 * w && (v1 + v2) * h == v1 * h + v2 * h) by (nonlinear_arith);
    let l = side.units();
    let (mx, my) = (absolute(cx.units()) + l + one, absolute(cy.units()) + l + one);
    assert(13 * n * mx <= 17 * n * mx && 13 * n * my <= 17 * n * my) by (nonlinear_arith)
        requires mx >= 0, my >= 0, n > 0;
    let d = longer_side_of(bbox, w, h);
    lemma_box_steps(n, 2 * px + 1 - n, n * one, one, f, wide, (u1 + u2) * w, d, cx.units(), l, longer_side(b), x.units());
    lemma_box_steps(n, 2 * py + 1 - n, n * one, one, f, wide, (v1 + v2) * h, d, cy.units(), l, longer_side(b), y.units());
    assert(usable_padding(padding_factor));
    assert(drawable(w, h, bbox, size));
    assert(out.pixel(px as int, py as int) == bilinear(img, x, y));
}

/// Pixel `(px, py)` of a crop has the colour of the image at the place that the box
/// and the size of the crop make out. With the edges `x1` and `x2` of the box in
/// pixels and its longer side `d` that is
/// `(x1 + x2) / 2 + (2 px - size) / (2 size) * 1.5 * d`, and the same for the other
/// axis, up to 125 parts in 2^24 of what width and height come to.
pub proof fn law_crop_shows_the_box(out: RgbImage, img: &RgbImage, bbox: &BoundingBox, size: u32, px: u32, py: u32)
    requires
        shows_face(out, img, bbox, size),
        bbox.finite(),
        0 < img.spec_width() < 0x100_0000,
        0 < img.spec_height() < 0x100_0000,
        !flat(in_pixels(bbox, img.spec_width(), img.spec_height())),
        px < size <= 0x80_0000,
        py < size,
    ensures
        exists|x: Binary32, y: Binary32|
            {
                let (w, h, n, one) = (img.spec_width(), img.spec_height(), size as int, pow2(149) as int);
                let e = (in_unit_range(bbox.x1.units()) + in_unit_range(bbox.x2.units())) * w;
                let g = (in_unit_range(bbox.y1.units()) + in_unit_range(bbox.y2.units())) * h;
                let d = longer_side_of(bbox, w, h);
                let slack = 500 * n * ((w + h) * one);
                &&& out.pixel(px as int, py as int) == #[trigger] bilinear(img, x, y)
                &&& x.finite() && y.finite()
                &&& about(4 * n * x.units(), 2 * n * e + 3 * (2 * px - n) * d, slack)
                &&& about(4 * n * y.units(), 2 * n * g + 3 * (2 * py - n) * d, slack)
            },
{
    let (w, h, n, one) = (img.spec_width(), img.spec_height(), size as int, pow2(149) as int);
    let b = in_pixels(bbox, w, h);
    let wide = (w + h) * one;
    let factor = Binary32 { bits: ONE_AND_A_HALF_BITS };
    lemma_one_and_a_half();
    let (side, f, half) = (square_side(b, factor), factor.units(), pow2(148) as int);
    let (cx, cy) = (middle(b.x1, b.x2), middle(b.y1, b.y2));
    let x = crop_coordinate(cx, side, size, px);
    let y = crop_coordinate(cy, side, size, py);
    lemma_half();
    lemma_ranges();
    lemma_box_square(bbox, w, h, factor, wide);
    assert(wide >= w * one && wide >= h * one && wide >= one) by (nonlinear_arith)
        requires wide == (w + h) * one, w >= 1, h >= 1, one > 0;
    lemma_axis(bbox.x1, bbox.x2, w, wide);
    lemma_axis(bbox.y1, bbox.y2, h, wide);
    law_crop_pixels_lie_evenly(cx, side, size, px);
    law_crop_pixels_lie_evenly(cy, side, size, py);
    let (u1, u2) = (in_unit_range(bbox.x1.units()), in_unit_range(bbox.x2.units()));
    let (v1, v2) = (in_unit_range(bbox.y1.units()), in_unit_range(bbox.y2.units()));
    assert((u1 + u2) * w == u1 * w + u2 * w && (v1 + v2) * h == v1 * h + v2 * h) by (nonlinear_arith);
    let (l, d) = (side.units(), longer_side_of(bbox, w, h));
    assert(0 <= n * one) by (nonlinear_arith)
        requires n > 0, one > 0;
    lemma_box_steps(n, 2 * px - n, 0, one, f, wide, (u1 + u2) * w, d, cx.units(), l, longer_side(b), x.units());
    lemma_box_steps(n, 2 * py - n, 0, one, f, wide, (v1 + v2) * h, d, cy.units(), l, longer_side(b), y.units());
    lemma_one_and_a_half_times(n, 2 * px - n, half, wide, (u1 + u2) * w, d, x.units());
    lemma_one_and_a_half_times(n, 2 * py - n, half, wide, (v1 + v2) * h, d, y.units());
    assert(drawable(w, h, bbox, size));
    assert(out.pixel(px as int, py as int) == bilinear(img, x, y));
}

/// One and a half.
proof fn lemma_one_and_a_half()
    ensures
        (Binary32 { bits: ONE_AND_A_HALF_BITS }).finite(),
        (Binary32 { bits: ONE_AND_A_HALF_BITS }).units() == 3 * pow2(148),
        0 < 3 * pow2(148) <= pow2(243),
{
    let factor = Binary32 { bits: ONE_AND_A_HALF_BITS };
    lemma2_to64();
    lemma_pow2_pos(148);
    assert(factor.exponent() == 127 && factor.fraction() == 0x40_0000);
    assert(0x80_0000 + factor.fraction() == 0xc0_0000);
    assert((factor.exponent() - 1) as nat == 126);
    lemma_pow2_adds(22, 126);
    assert(factor.abs_units() == 0xc0_0000 * pow2(126));
    lemma_pow2_adds(2, 148);
    lemma_pow2_strictly_increases(150, 243);
}

/// With a factor of one and a half there is a common factor of one half.
proof fn lemma_one_and_a_half_times(n: int, k: int, half: int, wide: int, e: int, d: int, x: int)
    requires
        half > 0,
        wide >= 0,
        n > 0,
        ({
            let (one, f) = (2 * half, 3 * half);
            about(2 * n * x * one, n * e * one + k * (d * f) - 0 * one, 100 * n * (wide * (one + f)))
        }),
    ensures
        about(4 * n * x, 2 * n * e + 3 * k * d, 500 * n * wide),
{
    let (one, f) = (2 * half, 3 * half);
    assert(2 * n * x * one == half * (4 * n * x)) by (nonlinear_arith)
        requires one == 2 * half;
    assert(n * e * one + k * (d * f) == half * (2 * n * e + 3 * k * d)) by (nonlinear_arith)
        requires one == 2 * half, f == 3 * half;
    assert(100 * n * (wide * (one + f)) == half * (500 * n * wide)) by (nonlinear_arith)
        requires one == 2 * half, f == 3 * half;
    lemma_about_divided(4 * n * x, 2 * n * e + 3 * k * d, 500 * n * wide, half);
}

/// A box whose right edge, cut to the image, does not lie to the right of its left
/// one is flat, and so is one whose lower edge does not lie below its upper one. A
/// box with some extent on both axes is not.
pub proof fn law_flat_fractions(bbox: &BoundingBox, width: u32, height: u32)
    requires
        bbox.finite(),
        0 < width < 0x100_0000,
        0 < height < 0x100_0000,
    ensures
        ({
            let (x1, x2) = (in_unit_range(bbox.x1.units()), in_unit_range(bbox.x2.units()));
            let (y1, y2) = (in_unit_range(bbox.y1.units()), in_unit_range(bbox.y2.units()));
            let one = pow2(149) as int;
            &&& x2 <= x1 || y2 <= y1 ==> flat(in_pixels(bbox, width, height))
            &&& 0x100_0000 * (x2 - x1) > 3 * one && 0x100_0000 * (y2 - y1) > 3 * one ==> !flat(
                in_pixels(bbox, width, height),
            )
        }),
{
    let b = in_pixels(bbox, width, height);
    let (w, h, one) = (width as int, height as int, pow2(149) as int);
    let (x1, x2) = (in_unit_range(bbox.x1.units()), in_unit_range(bbox.x2.units()));
    let (y1, y2) = (in_unit_range(bbox.y1.units()), in_unit_range(bbox.y2.units()));
    lemma_pow2_pos(149);
    lemma_axis(bbox.x1, bbox.x2, width, w * one);
    lemma_axis(bbox.y1, bbox.y2, height, h * one);
    law_flat_boxes(b);
    if x2 <= x1 {
        lemma_fractions_in_order(bbox.x2, bbox.x1, width);
    }
    if y2 <= y1 {
        lemma_fractions_in_order(bbox.y2, bbox.y1, height);
    }
    if 0x100_0000 * (x2 - x1) > 3 * one && 0x100_0000 * (y2 - y1) > 3 * one {
        assert(0x100_0000 * (x2 * w - x1 * w) > 3 * (w * one)) by (nonlinear_arith)
            requires 0x100_0000 * (x2 - x1) > 3 * one, w > 0;
        assert(0x100_0000 * (y2 * h - y1 * h) > 3 * (h * one)) by (nonlinear_arith)
            requires 0x100_0000 * (y2 - y1) > 3 * one, h > 0;
    }
}

/// Counting in pixels keeps fractions in order.
proof fn lemma_fractions_in_order(a: Binary32, b: Binary32, size: u32)
    requires
        a.finite(),
        b.finite(),
        0 < size < 0x100_0000,
        in_unit_range(a.units()) <= in_unit_range(b.units()),
    ensures
        a.unit_clamped().product(whole(size)).units() <= b.unit_clamped().product(whole(size)).units(),
{
    law_fraction_in_pixels(a, size);
    law_fraction_in_pixels(b, size);
    law_moved_into_unit_range(a);
    law_moved_into_unit_range(b);
    law_whole_is_exact(size);
    lemma_pow2_pos(149);
    let (v, w, n) = (a.unit_clamped(), b.unit_clamped(), whole(size));
    lemma_product_units(v, n);
    lemma_product_units(w, n);
    let (x, y, s) = (v.abs_units(), w.abs_units(), n.abs_units());
    assert(x * s <= y * s) by (nonlinear_arith)
        requires x <= y, s >= 0;
    law_rounding_keeps_order(x * s, y * s, pow2(149));
}

/// A thumbnail is black where there is nothing to show: an empty image or
/// thumbnail, a box that is not finite or has no extent, or a padding factor that
/// is not finite or not above zero.
pub proof fn law_thumbnail_of_nothing_is_black<I: PixelSource>(
    out: RgbImage,
    img: &I,
    bbox: &BoundingBox,
    padding_factor: Binary32,
    size: u32,
    px: int,
    py: int,
)
    requires
        shows_thumbnail(out, img, bbox, padding_factor, size),
        ({
            let (w, h) = (img.source_width(), img.source_height());
            ||| w == 0
            ||| h == 0
            ||| !bbox.finite()
            ||| !padding_factor.finite()
            ||| padding_factor.units() <= 0
            ||| w < 0x100_0000 && h < 0x100_0000 && in_unit_range(bbox.x2.units()) <= in_unit_range(bbox.x1.units())
            ||| w < 0x100_0000 && h < 0x100_0000 && in_unit_range(bbox.y2.units()) <= in_unit_range(bbox.y1.units())
        }),
        0 <= px < size,
        0 <= py < size,
    ensures
        out.spec_width() == size,
        out.spec_height() == size,
        out.pixel(px, py) == (0u8, 0u8, 0u8),
{
    let (w, h) = (img.source_width(), img.source_height());
    if bbox.finite() && 0 < w < 0x100_0000 && 0 < h < 0x100_0000 {
        law_flat_fractions(bbox, w, h);
    }
}

/// A crop is black where there is nothing to show.
pub proof fn law_crop_of_nothing_is_black(out: RgbImage, img: &RgbImage, bbox: &BoundingBox, size: u32, px: int, py: int)
    requires
        shows_face(out, img, bbox, size),
        ({
            let (w, h) = (img.spec_width(), img.spec_height());
            ||| w == 0
            ||| h == 0
            ||| !bbox.finite()
            ||| w < 0x100_0000 && h < 0x100_0000 && in_unit_range(bbox.x2.units()) <= in_unit_range(bbox.x1.units())
            ||| w < 0x100_0000 && h < 0x100_0000 && in_unit_range(bbox.y2.units()) <= in_unit_range(bbox.y1.units())
        }),
        0 <= px < size,
        0 <= py < size,
    ensures
        out.spec_width() == size,
        out.spec_height() == size,
        out.pixel(px, py) == (0u8, 0u8, 0u8),
{
    let (w, h) = (img.spec_width(), img.spec_height());
    if bbox.finite() && 0 < w < 0x100_0000 && 0 < h < 0x100_0000 {
        law_flat_fractions(bbox, w, h);
    }
}

/// A fraction of any number of pixels, cut to the image, is that many pixels up to
/// rounding. Sizes of more than 24 bits are themselves rounded.
pub proof fn law_fraction_of_any_size(a: Binary32, size: u32)
    requires
        a.finite(),
    ensures
        ({
            let x = a.unit_clamped().product(whole(size));
            let (exact, one) = (in_unit_range(a.units()) * whole(size).units(), pow2(149) as int);
            &&& x.finite()
            &&& x.units() >= 0
            &&& about(x.units() * one, exact, exact + 0x100_0000 * one)
            &&& about(whole(size).units(), size * one, size * one)
        }),
{
    let (v, w) = (a.unit_clamped(), whole(size));
    law_moved_into_unit_range(a);
    lemma_whole_range(size);
    law_whole_numbers_are_about_exact(size);
    lemma_ranges();
    lemma_pow2_pos(149);
    lemma2_to64();
    let (u, n, one, high) = (v.units(), w.units(), pow2(149) as int, pow2(275) as int);
    assert(size * one <= 0x1_0000_0000 * one) by (nonlinear_arith)
        requires size <= 0x1_0000_0000, one > 0;
    assert(0 <= u * n < high * one) by (nonlinear_arith)
        requires 0 <= u <= one, 0 <= n < high, one > 0;
    lemma_product_value(v, w);
    lemma_product_not_negative(v, w);
}

/// A square that has no bounds cannot be sampled: no pixel of a thumbnail of it has
/// a place in the image.
pub proof fn law_unbounded_squares_have_no_pixels(centre: Binary32, side: Binary32, size: u32, i: u32, limit: u32)
    requires
        centre.finite(),
        side.infinite(),
        !side.sign_bit(),
        i < size <= 0x80_0000,
    ensures
        !within(thumbnail_coordinate(centre, side, size, i), limit),
{
    let half = Binary32 { bits: HALF_BITS };
    lemma_half();
    law_whole_is_exact(size);
    lemma_pixel_middle(i);
    assert(!half.zero() && !half.infinite() && !half.nan() && !half.sign_bit());
    let s = side.product(half);
    law_products_with_infinity(side, half);
    let minus = s.signed(!s.sign_bit());
    assert(minus.magnitude() == s.magnitude());
    let start = centre.difference(s);
    law_sums_with_infinity(minus, centre);
    assert(start == minus);
    let n = whole(size);
    assert(!n.infinite() && !n.nan());
    let q = side.quotient(n);
    law_products_with_infinity(side, n);
    let a = whole(i).sum(half);
    let f = a.fused(q, start);
    let (k, h) = (2 * i + 1, pow2(148) as int);
    assert(k * h > 0) by (nonlinear_arith)
        requires k >= 1, h > 0;
    assert(!a.sign_bit() && !a.zero() && !a.nan() && !a.infinite()) by {
        lemma2_to64();
    }
    assert(f.nan()) by {
        reveal(Binary32::fused);
    }
    law_nan_stays(f, half, half);
}

/// The corners of a box in pixels: the columns are fractions of the width, the rows
/// fractions of the height, for images of any size.
pub proof fn law_box_in_pixels(bbox: &BoundingBox, width: u32, height: u32)
    requires
        bbox.finite(),
    ensures
        ({
            let (b, one) = (in_pixels(bbox, width, height), pow2(149) as int);
            let (w, h) = (whole(width).units(), whole(height).units());
            let (x1, x2) = (in_unit_range(bbox.x1.units()) * w, in_unit_range(bbox.x2.units()) * w);
            let (y1, y2) = (in_unit_range(bbox.y1.units()) * h, in_unit_range(bbox.y2.units()) * h);
            &&& b.finite()
            &&& about(b.x1.units() * one, x1, x1 + 0x100_0000 * one)
            &&& about(b.x2.units() * one, x2, x2 + 0x100_0000 * one)
            &&& about(b.y1.units() * one, y1, y1 + 0x100_0000 * one)
            &&& about(b.y2.units() * one, y2, y2 + 0x100_0000 * one)
        }),
{
    law_fraction_of_any_size(bbox.x1, width);
    law_fraction_of_any_size(bbox.x2, width);
    law_fraction_of_any_size(bbox.y1, height);
    law_fraction_of_any_size(bbox.y2, height);
}

/// Where the square around the box fits inside an image of one colour, every pixel
/// of the thumbnail has that colour.
pub proof fn law_thumbnail_has_the_one_colour<I: PixelSource>(
    out: RgbImage,
    img: &I,
    bbox: &BoundingBox,
    padding_factor: Binary32,
    size: u32,
    p: (u8, u8, u8),
    px: u32,
    py: u32,
)
    requires
        shows_thumbnail(out, img, bbox, padding_factor, size),
        bbox.finite(),
        0 < img.source_width() <= 0x4_0000,
        0 < img.source_height() <= 0x4_0000,
        padding_factor.finite(),
        0 < padding_factor.units(),
        ({
            let b = in_pixels(bbox, img.source_width(), img.source_height());
            let side = square_side(b, padding_factor);
            &&& !flat(b)
            &&& fits_inside(middle(b.x1, b.x2), side, img.source_width())
            &&& fits_inside(middle(b.y1, b.y2), side, img.source_height())
        }),
        px < size <= 0x80_0000,
        py < size,
        forall|a: int, b: int|
            0 <= a < img.source_width() && 0 <= b < img.source_height() ==> #[trigger] img.colour(a, b) == p,
    ensures
        out.pixel(px as int, py as int) == p,
{
    let (w, h) = (img.source_width(), img.source_height());
    let b = in_pixels(bbox, w, h);
    let side = square_side(b, padding_factor);
    assert(usable_padding(padding_factor));
    assert(drawable(w, h, bbox, size));
    law_thumbnail_of_one_colour(img, p, middle(b.x1, b.x2), middle(b.y1, b.y2), side, size, px, py);
}

/// Where the square around the box fits inside an image of one colour, every pixel
/// of the crop has that colour.
pub proof fn law_crop_has_the_one_colour(
    out: RgbImage,
    img: &RgbImage,
    bbox: &BoundingBox,
    size: u32,
    p: (u8, u8, u8),
    px: u32,
    py: u32,
)
    requires
        shows_face(out, img, bbox, size),
        bbox.finite(),
        0 < img.spec_width() <= 0x4_0000,
        0 < img.spec_height() <= 0x4_0000,
        ({
            let b = in_pixels(bbox, img.spec_width(), img.spec_height());
            let side = square_side(b, Binary32 { bits: ONE_AND_A_HALF_BITS });
            &&& !flat(b)
            &&& fits_inside(middle(b.x1, b.x2), side, img.spec_width())
            &&& fits_inside(middle(b.y1, b.y2), side, img.spec_height())
        }),
        px < size <= 0x80_0000,
        py < size,
        forall|a: int, b: int|
            0 <= a < img.spec_width() && 0 <= b < img.spec_height() ==> #[trigger] img.pixel(a, b) == p,
    ensures
        out.pixel(px as int, py as int) == p,
{
    let (w, h) = (img.spec_width(), img.spec_height());
    let b = in_pixels(bbox, w, h);
    let side = square_side(b, Binary32 { bits: ONE_AND_A_HALF_BITS });
    assert(drawable(w, h, bbox, size));
    assert forall|a: int, b: int| 0 <= a < w && 0 <= b < h implies #[trigger] img.colour(a, b) == p by {
        assert(img.pixel(a, b) == p);
    }
    law_crop_of_one_colour(img, p, middle(b.x1, b.x2), middle(b.y1, b.y2), side, size, px, py);
}

} // verus!
