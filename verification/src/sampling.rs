//! Bilinear sampling of images.

use vstd::prelude::*;
use vstd::arithmetic::div_mod::{lemma_div_multiples_vanish, lemma_fundamental_div_mod, lemma_fundamental_div_mod_converse, lemma_mod_pos_bound};
use vstd::arithmetic::mul::lemma_mul_is_commutative;
use vstd::arithmetic::power2::{pow2, lemma2_to64, lemma_pow2_adds, lemma_pow2_pos, lemma_pow2_strictly_increases};
use crate::arithmetic::{law_difference_stays_finite, law_difference_with_itself, law_fused_with_zero_product};
use crate::binary32::{Binary32, law_whole_is_exact, lemma_below_whole, lemma_whole_range, whole, whole_units};
use crate::geometry::{about, absolute, lemma_about_divided, lemma_difference_value, lemma_fused_value, lemma_ranges};
use crate::precision::{lemma_round_exact, lemma_signed_sum_units};
use crate::raster::{PixelSource, RgbImage};

verus! {

/// The value between four bytes, `fx` of the way from left to right and `fy` of
/// the way from top to bottom, cut to a byte.
pub open spec fn blended(c00: u8, c10: u8, c01: u8, c11: u8, fx: Binary32, fy: Binary32) -> u8 {
    let top = whole(c10 as u32).difference(whole(c00 as u32)).fused(fx, whole(c00 as u32));
    let bottom = whole(c11 as u32).difference(whole(c01 as u32)).fused(fx, whole(c01 as u32));
    bottom.difference(top).fused(fy, top).as_byte()
}

pub fn bilerp(c00: u8, c10: u8, c01: u8, c11: u8, fx: Binary32, fy: Binary32) -> (r: u8)
    ensures
        r == blended(c00, c10, c01, c11, fx, fy),
{
    let left_top = Binary32::from_u32(c00 as u32);
    let left_bottom = Binary32::from_u32(c01 as u32);
    let top = Binary32::from_u32(c10 as u32).minus(left_top).times_plus(fx, left_top);
    let bottom = Binary32::from_u32(c11 as u32).minus(left_bottom).times_plus(fx, left_bottom);
    bottom.minus(top).times_plus(fy, top).to_byte()
}

/// The coordinate lies in the range from zero up to a size of `limit` pixels.
pub open spec fn within(v: Binary32, limit: u32) -> bool {
    v.finite() && 0 <= v.units() < whole_units(limit)
}

/// The pixel column or row that a coordinate falls into.
pub open spec fn cell(v: Binary32) -> u32 {
    (v.units() / pow2(149) as int) as u32
}

/// The column or row after `i`, or the last one.
pub open spec fn neighbour(i: u32, limit: u32) -> u32 {
    if i + 1 < limit {
        (i + 1) as u32
    } else {
        (limit - 1) as u32
    }
}

/// The colour of an image at a point between its pixels; black outside.
pub open spec fn bilinear<I: PixelSource>(img: &I, x: Binary32, y: Binary32) -> (u8, u8, u8) {
    let (w, h) = (img.source_width(), img.source_height());
    if within(x, w) && within(y, h) {
        let (x0, y0) = (cell(x), cell(y));
        let (x1, y1) = (neighbour(x0, w), neighbour(y0, h));
        let (fx, fy) = (x.difference(whole(x0)), y.difference(whole(y0)));
        let p00 = img.colour(x0 as int, y0 as int);
        let p10 = img.colour(x1 as int, y0 as int);
        let p01 = img.colour(x0 as int, y1 as int);
        let p11 = img.colour(x1 as int, y1 as int);
        (
            blended(p00.0, p10.0, p01.0, p11.0, fx, fy),
            blended(p00.1, p10.1, p01.1, p11.1, fx, fy),
            blended(p00.2, p10.2, p01.2, p11.2, fx, fy),
        )
    } else {
        (0, 0, 0)
    }
}

fn is_within(v: Binary32, limit: u32) -> (r: bool)
    ensures
        r == within(v, limit),
{
    v.is_finite() && !v.less_than(Binary32 { bits: 0 }) && v.less_than(Binary32::from_u32(limit))
}

fn cell_of(v: Binary32, limit: u32) -> (r: u32)
    requires
        within(v, limit),
    ensures
        r == cell(v),
        r < limit,
{
    proof {
        lemma_below_whole(v, limit);
        lemma_pow2_pos(149);
        assert(limit * pow2(149) <= 0x1_0000_0000 * pow2(149)) by (nonlinear_arith)
            requires limit <= 0x1_0000_0000, pow2(149) > 0;
    }
    v.floor()
}

pub fn bilinear_sample<I: PixelSource>(img: &I, x: Binary32, y: Binary32) -> (p: (u8, u8, u8))
    ensures
        p == bilinear(img, x, y),
{
    let (w, h) = img.source_size();
    if !is_within(x, w) || !is_within(y, h) {
        return (0, 0, 0);
    }
    let x0: u32 = cell_of(x, w);
    let y0: u32 = cell_of(y, h);
    let x1: u32 = if x0 + 1 < w {
        x0 + 1
    } else {
        w - 1
    };
    let y1: u32 = if y0 + 1 < h {
        y0 + 1
    } else {
        h - 1
    };
    let fx = x.minus(Binary32::from_u32(x0));
    let fy = y.minus(Binary32::from_u32(y0));
    let p00 = img.colour_at(x0, y0);
    let p10 = img.colour_at(x1, y0);
    let p01 = img.colour_at(x0, y1);
    let p11 = img.colour_at(x1, y1);
    (
        bilerp(p00.0, p10.0, p01.0, p11.0, fx, fy),
        bilerp(p00.1, p10.1, p01.1, p11.1, fx, fy),
        bilerp(p00.2, p10.2, p01.2, p11.2, fx, fy),
    )
}

/// Draws one row of a square image, sampled at the given columns.
fn sample_row<I: PixelSource>(img: &I, columns: &Vec<Binary32>, y: Binary32, py: u32, out: &mut RgbImage)
    requires
        columns@.len() == old(out).spec_width(),
        py < old(out).spec_height(),
    ensures
        final(out).spec_width() == old(out).spec_width(),
        final(out).spec_height() == old(out).spec_height(),
        forall|a: int| 0 <= a < columns@.len() ==> #[trigger] final(out).pixel(a, py as int) == bilinear(img, columns@[a], y),
        forall|a: int, b: int|
            0 <= a < columns@.len() && 0 <= b < old(out).spec_height() && b != py ==> #[trigger] final(out).pixel(a, b)
                == old(out).pixel(a, b),
{
    let size: u32 = out.width();
    let mut px: u32 = 0;
    while px < size
        invariant
            px <= size,
            size == columns@.len(),
            py < out.spec_height(),
            out.spec_width() == size,
            out.spec_height() == old(out).spec_height(),
            forall|a: int| 0 <= a < px ==> #[trigger] out.pixel(a, py as int) == bilinear(img, columns@[a], y),
            forall|a: int, b: int|
                0 <= a < size && 0 <= b < out.spec_height() && b != py ==> #[trigger] out.pixel(a, b) == old(out).pixel(
                    a,
                    b,
                ),
        decreases size - px,
    {
        let p = bilinear_sample(img, columns[px as usize], y);
        out.put_pixel(px, py, p);
        px = px + 1;
    }
}

/// A square image, sampled at the points where the given columns and rows cross.
pub fn sample_square<I: PixelSource>(img: &I, size: u32, columns: &Vec<Binary32>, rows: &Vec<Binary32>) -> (out: RgbImage)
    requires
        columns@.len() == size,
        rows@.len() == size,
        3 * (size * size) <= isize::MAX,
    ensures
        out.spec_width() == size,
        out.spec_height() == size,
        forall|px: int, py: int|
            0 <= px < size && 0 <= py < size ==> #[trigger] out.pixel(px, py) == bilinear(img, columns@[px], rows@[py]),
{
    let mut out = RgbImage::new(size, size);
    let mut py: u32 = 0;
    while py < size
        invariant
            py <= size,
            columns@.len() == size,
            rows@.len() == size,
            out.spec_width() == size,
            out.spec_height() == size,
            forall|a: int, b: int|
                0 <= a < size && 0 <= b < py ==> #[trigger] out.pixel(a, b) == bilinear(img, columns@[a], rows@[b]),
        decreases size - py,
    {
        sample_row(img, columns, rows[py as usize], py, &mut out);
        py = py + 1;
    }
    out
}

/// A colour value stays itself where nothing is mixed into it: where the other
/// three are the same, or where the point lies on its pixel.
proof fn lemma_blended_alone(c00: u8, c10: u8, c01: u8, c11: u8, fx: Binary32, fy: Binary32)
    requires
        fx.finite(),
        fy.finite(),
        (c10 == c00 && c01 == c00 && c11 == c00) || (fx.units() == 0 && fy.units() == 0),
    ensures
        blended(c00, c10, c01, c11, fx, fy) == c00,
{
    let (a, b, c, d) = (whole(c00 as u32), whole(c10 as u32), whole(c01 as u32), whole(c11 as u32));
    law_whole_is_exact(c00 as u32);
    law_whole_is_exact(c10 as u32);
    law_whole_is_exact(c01 as u32);
    law_whole_is_exact(c11 as u32);
    lemma_byte_range(c00);
    lemma_byte_range(c10);
    lemma_byte_range(c01);
    lemma_byte_range(c11);
    law_difference_stays_finite(b, a);
    law_difference_stays_finite(d, c);
    law_difference_with_itself(a);
    law_fused_with_zero_product(b.difference(a), fx, a);
    law_fused_with_zero_product(d.difference(c), fx, c);
    law_difference_stays_finite(c, a);
    law_fused_with_zero_product(c.difference(a), fy, a);
    lemma_pow2_pos(149);
    lemma_div_multiples_vanish(c00 as int, pow2(149) as int);
    lemma_mul_is_commutative(c00 as int, pow2(149) as int);
    let one = pow2(149);
    assert(c00 * one >= 255 * one <==> c00 >= 255) by (nonlinear_arith)
        requires one > 0;
    assert(c00 * one <= 0 <==> c00 == 0) by (nonlinear_arith)
        requires one > 0, c00 >= 0;
}

proof fn lemma_byte_range(c: u8)
    ensures
        0 <= c * pow2(149) < pow2(276),
{
    lemma2_to64();
    lemma_pow2_pos(149);
    lemma_pow2_adds(8, 149);
    lemma_pow2_strictly_increases(157, 276);
    assert(0 <= c * pow2(149) <= 256 * pow2(149)) by (nonlinear_arith)
        requires 0 <= c <= 256, pow2(149) > 0;
}

/// How far a coordinate lies into its cell is finite.
proof fn lemma_offset_finite(v: Binary32, limit: u32)
    requires
        within(v, limit),
    ensures
        v.difference(whole(cell(v))).finite(),
        cell(v) < limit,
{
    lemma_below_whole(v, limit);
    lemma2_to64();
    lemma_pow2_pos(149);
    lemma_pow2_adds(32, 149);
    lemma_pow2_strictly_increases(181, 276);
    let one = pow2(149);
    assert(limit * one <= 0x1_0000_0000 * one) by (nonlinear_arith)
        requires limit <= 0x1_0000_0000, one > 0;
    lemma_whole_range(cell(v));
    law_difference_stays_finite(v, whole(cell(v)));
}

/// Outside the image everything is black.
pub proof fn law_outside_is_black<I: PixelSource>(img: &I, x: Binary32, y: Binary32)
    requires
        !within(x, img.source_width()) || !within(y, img.source_height()),
    ensures
        bilinear(img, x, y) == (0u8, 0u8, 0u8),
{
}

/// An image of one colour has that colour at every point inside.
pub proof fn law_one_colour_stays<I: PixelSource>(img: &I, p: (u8, u8, u8), x: Binary32, y: Binary32)
    requires
        within(x, img.source_width()),
        within(y, img.source_height()),
        forall|a: int, b: int|
            0 <= a < img.source_width() && 0 <= b < img.source_height() ==> #[trigger] img.colour(a, b) == p,
    ensures
        bilinear(img, x, y) == p,
{
    let (w, h) = (img.source_width(), img.source_height());
    lemma_offset_finite(x, w);
    lemma_offset_finite(y, h);
    let (x0, y0) = (cell(x), cell(y));
    let (fx, fy) = (x.difference(whole(x0)), y.difference(whole(y0)));
    lemma_blended_alone(p.0, p.0, p.0, p.0, fx, fy);
    lemma_blended_alone(p.1, p.1, p.1, p.1, fx, fy);
    lemma_blended_alone(p.2, p.2, p.2, p.2, fx, fy);
}

/// At a whole coordinate of up to 24 bits the colour is that of the pixel there.
pub proof fn law_pixels_stay<I: PixelSource>(img: &I, i: u32, j: u32)
    requires
        i < img.source_width(),
        j < img.source_height(),
        i < 0x100_0000,
        j < 0x100_0000,
    ensures
        bilinear(img, whole(i), whole(j)) == img.colour(i as int, j as int),
{
    lemma_on_pixel(i, img.source_width());
    lemma_on_pixel(j, img.source_height());
    let (w, h) = (img.source_width(), img.source_height());
    let (x1, y1) = (neighbour(i, w), neighbour(j, h));
    let zero = Binary32 { bits: 0 };
    let p00 = img.colour(i as int, j as int);
    let p10 = img.colour(x1 as int, j as int);
    let p01 = img.colour(i as int, y1 as int);
    let p11 = img.colour(x1 as int, y1 as int);
    lemma_blended_alone(p00.0, p10.0, p01.0, p11.0, zero, zero);
    lemma_blended_alone(p00.1, p10.1, p01.1, p11.1, zero, zero);
    lemma_blended_alone(p00.2, p10.2, p01.2, p11.2, zero, zero);
}

/// A whole coordinate falls on its own pixel.
proof fn lemma_on_pixel(i: u32, limit: u32)
    requires
        i < limit,
        i < 0x100_0000,
    ensures
        within(whole(i), limit),
        cell(whole(i)) == i,
        whole(i).difference(whole(i)) == (Binary32 { bits: 0 }),
        (Binary32 { bits: 0 }).finite(),
        (Binary32 { bits: 0 }).units() == 0,
{
    let one = pow2(149);
    lemma_pow2_pos(149);
    law_whole_is_exact(i);
    law_difference_with_itself(whole(i));
    lemma_div_multiples_vanish(i as int, one as int);
    lemma_mul_is_commutative(i as int, one as int);
    assert(0 <= i * one < limit * one && i * one < 0x100_0000 * one) by (nonlinear_arith)
        requires 0 <= i < limit, i < 0x100_0000, one > 0;
    lemma_whole_range(limit);
}

/// The difference of two bytes is exact.
proof fn lemma_byte_difference(a: u8, b: u8)
    ensures
        whole(a as u32).difference(whole(b as u32)).finite(),
        whole(a as u32).difference(whole(b as u32)).units() == (a - b) * pow2(149),
{
    law_whole_is_exact(a as u32);
    law_whole_is_exact(b as u32);
    lemma_byte_range(a);
    lemma_byte_range(b);
    lemma_pow2_pos(149);
    let (x, y) = (whole(a as u32), whole(b as u32));
    let c = y.signed(!y.sign_bit());
    assert(c.magnitude() == y.magnitude());
    assert(c.units() == -y.units());
    let (d, one) = (absolute(a - b), pow2(149));
    assert(a * one - b * one == (a - b) * one) by (nonlinear_arith);
    assert(d * one == absolute((a - b) * one)) by (nonlinear_arith)
        requires d == absolute(a - b), one > 0;
    lemma_signed_sum_units(x, c, (d * one) as nat);
    lemma_round_exact(d as nat, 149);
    if d == 0 {
        assert(d * one == 0) by (nonlinear_arith)
            requires d == 0;
    }
}

/// The value `f` of the way from one byte to another, rounded once.
proof fn lemma_byte_between(a: u8, b: u8, f: Binary32)
    requires
        f.finite(),
        0 <= f.units() <= pow2(149),
    ensures
        ({
            let v = whole(b as u32).difference(whole(a as u32)).fused(f, whole(a as u32));
            let exact = (b - a) * f.units() + a * pow2(149);
            &&& v.finite()
            &&& about(v.units(), exact, (256 * pow2(149)) as int)
            &&& 0 <= exact <= 255 * pow2(149)
        }),
{
    lemma_byte_difference(b, a);
    law_whole_is_exact(a as u32);
    lemma_ranges();
    lemma_pow2_pos(149);
    let (d, w) = (whole(b as u32).difference(whole(a as u32)), whole(a as u32));
    let (one, u, high) = (pow2(149) as int, f.units(), pow2(275) as int);
    let exact = (b - a) * u + a * one;
    assert(((b - a) * one) * u + (a * one) * one == one * exact) by (nonlinear_arith)
        requires exact == (b - a) * u + a * one;
    assert(exact == a * (one - u) + b * u) by (nonlinear_arith)
        requires exact == (b - a) * u + a * one;
    assert(0 <= exact <= 255 * one) by (nonlinear_arith)
        requires exact == a * (one - u) + b * u, 0 <= a <= 255, 0 <= b <= 255, 0 <= u <= one;
    assert(0 <= one * exact < high * one) by (nonlinear_arith)
        requires 0 <= exact < high, one > 0;
    lemma_fused_value(d, f, w);
    let v = d.fused(f, w).units();
    assert(v * one == one * v && one * exact + 0x100_0000 * one == one * (exact + 0x100_0000)) by (nonlinear_arith);
    lemma_about_divided(v, exact, exact + 0x100_0000, one);
}

/// Cutting a number to a byte leaves the whole part.
proof fn lemma_cut_to_byte(v: Binary32, r: u8, exact: int)
    requires
        v.finite(),
        r == v.as_byte(),
        0 <= exact <= 255 * (pow2(149) * pow2(149)),
        about(v.units() * pow2(149), exact, (1320 * (pow2(149) * pow2(149))) as int),
    ensures
        0x100_0000 * (r * (pow2(149) * pow2(149)) - exact) <= 1320 * (pow2(149) * pow2(149)),
        0x100_0000 * (exact - (r + 1) * (pow2(149) * pow2(149))) <= 1320 * (pow2(149) * pow2(149)),
{
    let (one, u) = (pow2(149) as int, v.units());
    let square = one * one;
    lemma_pow2_pos(149);
    assert(square > 0) by (nonlinear_arith)
        requires square == one * one, one > 0;
    if u <= 0 {
        assert(u * one <= 0) by (nonlinear_arith)
            requires u <= 0, one > 0;
        assert(r * square == 0 && (r + 1) * square == square) by (nonlinear_arith)
            requires r == 0;
    } else if u >= 255 * one {
        assert(u * one >= 255 * square) by (nonlinear_arith)
            requires u >= 255 * one, one > 0, square == one * one;
        assert(r * square == 255 * square && (r + 1) * square == 256 * square) by (nonlinear_arith)
            requires r == 255;
    } else {
        lemma_fundamental_div_mod(u, one);
        lemma_mod_pos_bound(u, one);
        let q = u / one;
        assert(0 <= q < 255) by (nonlinear_arith)
            requires u == one * q + u % one, 0 <= u % one < one, 0 < u < 255 * one;
        assert(r == q);
        assert(r * square <= u * one <= (r + 1) * square) by (nonlinear_arith)
            requires u == one * r + u % one, 0 <= u % one < one, square == one * one;
    }
}

/// The byte `r` is the value between four bytes, `fx` of the way from left to right
/// and `fy` of the way from top to bottom, cut to a whole number: it is not above
/// the exact value and less than one below it, up to 1320 parts in 2^24. The
/// fractions count units of 2^-149.
pub open spec fn lies_between(c00: u8, c10: u8, c01: u8, c11: u8, fx: int, fy: int, r: u8) -> bool {
    let one = pow2(149) as int;
    let exact = c00 * (one - fx) * (one - fy) + c10 * fx * (one - fy) + c01 * (one - fx) * fy + c11 * fx * fy;
    &&& 0x100_0000 * (r * (one * one) - exact) <= 1320 * (one * one)
    &&& 0x100_0000 * (exact - (r + 1) * (one * one)) <= 1320 * (one * one)
}

/// Blending four bytes gives the value between them.
pub proof fn law_blending_is_bilinear(c00: u8, c10: u8, c01: u8, c11: u8, fx: Binary32, fy: Binary32)
    requires
        fx.finite(),
        fy.finite(),
        0 <= fx.units() <= pow2(149),
        0 <= fy.units() <= pow2(149),
    ensures
        lies_between(c00, c10, c01, c11, fx.units(), fy.units(), blended(c00, c10, c01, c11, fx, fy)),
{
    lemma_byte_between(c00, c10, fx);
    lemma_byte_between(c01, c11, fx);
    lemma_ranges();
    lemma_pow2_pos(149);
    let top = whole(c10 as u32).difference(whole(c00 as u32)).fused(fx, whole(c00 as u32));
    let bottom = whole(c11 as u32).difference(whole(c01 as u32)).fused(fx, whole(c01 as u32));
    let (one, u, w, high) = (pow2(149) as int, fx.units(), fy.units(), pow2(275) as int);
    let (t, b) = ((c10 - c00) * u + c00 * one, (c11 - c01) * u + c01 * one);
    lemma_difference_value(bottom, top);
    let d = bottom.difference(top);
    let (ut, ud) = (top.units(), d.units());
    assert(about(ud, b - t, 800 * one));
    let square = one * one;
    let exact = (b - t) * w + t * one;
    assert(exact == t * (one - w) + b * w) by (nonlinear_arith)
        requires exact == (b - t) * w + t * one;
    assert(0 <= exact <= 255 * square) by (nonlinear_arith)
        requires
            exact == t * (one - w) + b * w,
            0 <= t <= 255 * one,
            0 <= b <= 255 * one,
            0 <= w <= one,
            square == one * one;
    let (et, ed) = (ut - t, ud - (b - t));
    let s = ud * w + ut * one;
    assert(s == exact + ed * w + et * one) by (nonlinear_arith)
        requires s == ud * w + ut * one, exact == (b - t) * w + t * one, et == ut - t, ed == ud - (b - t);
    assert(0x100_0000 * absolute(ed * w) <= 800 * square) by (nonlinear_arith)
        requires 0x100_0000 * absolute(ed) <= 800 * one, 0 <= w <= one, square == one * one;
    assert(0x100_0000 * absolute(et * one) <= 256 * square) by (nonlinear_arith)
        requires 0x100_0000 * absolute(et) <= 256 * one, one > 0, square == one * one;
    assert(0x100_0000 * one <= square) by (nonlinear_arith)
        requires one >= 0x100_0000, square == one * one;
    assert(256 * square < high * one) by (nonlinear_arith)
        requires 256 * one < high, square == one * one, one > 0;
    lemma_fused_value(d, fy, top);
    let v = d.fused(fy, top);
    let uv = v.units() * one;
    assert(about(uv, exact, 1320 * square));
    let r = blended(c00, c10, c01, c11, fx, fy);
    lemma_cut_to_byte(v, r, exact);
    let (k, j) = (one - w, one - u);
    assert(t == c00 * j + c10 * u && b == c01 * j + c11 * u) by (nonlinear_arith)
        requires t == (c10 - c00) * u + c00 * one, b == (c11 - c01) * u + c01 * one, j == one - u;
    assert(t * k == c00 * j * k + c10 * u * k) by (nonlinear_arith)
        requires t == c00 * j + c10 * u;
    assert(b * w == c01 * j * w + c11 * u * w) by (nonlinear_arith)
        requires b == c01 * j + c11 * u;
}

/// How far a coordinate lies into its cell is exact.
proof fn lemma_offset_exact(v: Binary32, limit: u32)
    requires
        within(v, limit),
    ensures
        v.difference(whole(cell(v))).finite(),
        v.difference(whole(cell(v))).units() == v.units() % pow2(149) as int,
        0 <= v.units() % (pow2(149) as int) < pow2(149),
        cell(v) == v.units() / pow2(149) as int,
        cell(v) < limit,
{
    lemma_below_whole(v, limit);
    lemma_offset_finite(v, limit);
    lemma2_to64();
    lemma_pow2_pos(149);
    let (u, one) = (v.units(), pow2(149) as int);
    lemma_fundamental_div_mod(u, one);
    lemma_mod_pos_bound(u, one);
    let e: nat = if v.exponent() == 0 {
        0
    } else {
        (v.exponent() - 1) as nat
    };
    let sig: nat = if v.exponent() == 0 {
        v.fraction()
    } else {
        0x80_0000 + v.fraction()
    };
    let p = pow2(e);
    lemma_pow2_pos(e);
    assert(u == sig * p) by {
        if v.exponent() == 0 {
            assert(sig * p == sig) by (nonlinear_arith)
                requires p == 1;
        }
    }
    let i = cell(v);
    let w = whole(i);
    lemma_whole_range(i);
    let minus = w.signed(!w.sign_bit());
    assert(minus.magnitude() == w.magnitude());
    assert(minus.units() == -w.units());
    if e >= 149 {
        let rest = (e - 149) as nat;
        lemma_pow2_adds(149, rest);
        let q = sig * pow2(rest);
        assert(u == q * one + 0) by (nonlinear_arith)
            requires u == sig * p, p == one * pow2(rest), q == sig * pow2(rest);
        lemma_fundamental_div_mod_converse(u, one, q as int, 0);
        lemma_round_exact(sig, rest);
        assert(w.units() == u);
        lemma_signed_sum_units(v, minus, 0);
        lemma_round_exact(0, 0);
        assert(0 * pow2(0) == 0);
    } else {
        let rest = (149 - e) as nat;
        lemma_pow2_adds(e, rest);
        lemma_pow2_pos(rest);
        let t = pow2(rest);
        lemma_fundamental_div_mod(sig as int, t as int);
        lemma_mod_pos_bound(sig as int, t as int);
        let (a, r) = (sig / t, sig % t);
        let low = r * p;
        assert(u == a * one + low) by (nonlinear_arith)
            requires u == sig * p, one == p * t, sig == t * a + r, low == r * p;
        assert(0 <= low < one) by (nonlinear_arith)
            requires low == r * p, 0 <= r < t, one == p * t, p > 0;
        lemma_fundamental_div_mod_converse(u, one, a as int, low as int);
        assert(a <= sig) by (nonlinear_arith)
            requires sig == t * a + r, r >= 0, t >= 1;
        assert(r <= sig) by (nonlinear_arith)
            requires sig == t * a + r, a >= 0, t >= 1;
        law_whole_is_exact(i);
        assert(i * one == a * one);
        lemma_pow2_strictly_increases(149, 276);
        lemma_signed_sum_units(v, minus, low);
        lemma_round_exact(r, e);
    }
}

/// Inside the image a sampled colour is the bilinear mean of the four pixels
/// around the point: those of the column that the point falls into and of the next
/// one, and of its row and the next one, or of the last where there is no next.
pub proof fn law_sampled_colour_is_bilinear<I: PixelSource>(img: &I, x: Binary32, y: Binary32)
    requires
        within(x, img.source_width()),
        within(y, img.source_height()),
    ensures
        ({
            let (w, h, one) = (img.source_width() as int, img.source_height() as int, pow2(149) as int);
            let (x0, y0) = (x.units() / one, y.units() / one);
            let x1 = if x0 + 1 < w {
                x0 + 1
            } else {
                x0
            };
            let y1 = if y0 + 1 < h {
                y0 + 1
            } else {
                y0
            };
            let (fx, fy) = (x.units() % one, y.units() % one);
            let (p00, p10) = (img.colour(x0, y0), img.colour(x1, y0));
            let (p01, p11) = (img.colour(x0, y1), img.colour(x1, y1));
            let p = bilinear(img, x, y);
            &&& 0 <= x0 < w
            &&& 0 <= y0 < h
            &&& lies_between(p00.0, p10.0, p01.0, p11.0, fx, fy, p.0)
            &&& lies_between(p00.1, p10.1, p01.1, p11.1, fx, fy, p.1)
            &&& lies_between(p00.2, p10.2, p01.2, p11.2, fx, fy, p.2)
        }),
{
    let (w, h) = (img.source_width(), img.source_height());
    lemma_offset_exact(x, w);
    lemma_offset_exact(y, h);
    let (x0, y0) = (cell(x), cell(y));
    let (x1, y1) = (neighbour(x0, w), neighbour(y0, h));
    let (fx, fy) = (x.difference(whole(x0)), y.difference(whole(y0)));
    let p00 = img.colour(x0 as int, y0 as int);
    let p10 = img.colour(x1 as int, y0 as int);
    let p01 = img.colour(x0 as int, y1 as int);
    let p11 = img.colour(x1 as int, y1 as int);
    law_blending_is_bilinear(p00.0, p10.0, p01.0, p11.0, fx, fy);
    law_blending_is_bilinear(p00.1, p10.1, p01.1, p11.1, fx, fy);
    law_blending_is_bilinear(p00.2, p10.2, p01.2, p11.2, fx, fy);
}

/// A point lies inside an image if and only if it is finite, not negative, and less
/// than the width or height. Sizes of up to 24 bits are exact.
pub proof fn law_inside(v: Binary32, limit: u32)
    requires
        limit <= 0x100_0000,
    ensures
        within(v, limit) <==> v.finite() && 0 <= v.units() && v.units() < limit * pow2(149),
{
    lemma_whole_range(limit);
}

} // verus!
