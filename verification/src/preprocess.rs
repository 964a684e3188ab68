//! From images to model input.
//!
//! A model takes its images channel by channel: for each image first all red
//! values, then all green ones, then all blue ones.

use vstd::prelude::*;
use vstd::arithmetic::div_mod::lemma_fundamental_div_mod_converse;
use vstd::arithmetic::power2::{pow2, lemma2_to64, lemma_pow2_adds, lemma_pow2_pos, lemma_pow2_strictly_increases, lemma_pow2_unfold};
use crate::arithmetic::{law_rounding_keeps_exact_values, lemma_rounded, rounded};
use crate::binary32::{Binary32, BYTE_MIDDLE_BITS, ONE_BITS, law_whole_is_exact, round24, whole};
use crate::error::{FaceIdError, FaceIdErrorView};
use crate::geometry::{about, absolute};
use crate::precision::{lemma_product_units, lemma_round_absolute, lemma_round_exact, lemma_round_relative, lemma_round_whole, lemma_signed_sum_units};
use crate::raster::{RgbImage, lemma_pixel_inside, lemma_pixels_apart, pixel_offset};
use crate::tensor::{Tensor4, row_major, tensor_elements};
use crate::text::{decimal, numbered_pair};

verus! {

/// `std::slice::from_ref`: a slice that holds the one value referred to.
pub assume_specification<T>[ std::slice::from_ref::<T> ](s: &T) -> (r: &[T])
    ensures
        r@ == seq![*s],
;

/// Channel `c` of a colour: red, green or blue.
pub open spec fn channel(p: (u8, u8, u8), c: int) -> u8 {
    if c == 0 {
        p.0
    } else if c == 1 {
        p.1
    } else {
        p.2
    }
}

/// The image measures `side` by `side` pixels.
pub open spec fn square(img: RgbImage, side: u32) -> bool {
    img.spec_width() == side && img.spec_height() == side
}

/// Image `i` is the first one that does not measure `side` by `side` pixels.
pub open spec fn first_misfit(imgs: Seq<RgbImage>, side: u32, i: int) -> bool {
    &&& 0 <= i < imgs.len()
    &&& !square(imgs[i], side)
    &&& forall|k: int| 0 <= k < i ==> square(#[trigger] imgs[k], side)
}

pub open spec fn all_square(imgs: Seq<RgbImage>, side: u32) -> bool {
    forall|k: int| 0 <= k < imgs.len() ==> square(#[trigger] imgs[k], side)
}

/// The tensor holds the images channel by channel, each byte as `scale` gives it.
pub open spec fn holds_images(t: Tensor4, imgs: Seq<RgbImage>, side: u32, scale: spec_fn(u8) -> Binary32) -> bool {
    &&& t.shape() == seq![imgs.len() as usize, 3usize, side as usize, side as usize]
    &&& forall|n: int, c: int, y: int, x: int|
        0 <= n < imgs.len() && 0 <= c < 3 && 0 <= y < side && 0 <= x < side ==> #[trigger] t.element(n, c, y, x) == scale(
            channel(imgs[n].pixel(x, y), c),
        )
}

/// The error for an image of the wrong size.
pub open spec fn misfit_error(prefix: Seq<char>, img: RgbImage) -> FaceIdErrorView {
    FaceIdErrorView::InvalidModel(
        prefix + decimal(img.spec_width() as nat) + "x"@ + decimal(img.spec_height() as nat),
    )
}

/// Where value `k` of channel `c` of image `n` stands, with `stride` values per channel.
spec fn place(stride: int, n: int, c: int, k: int) -> int {
    (n * 3 + c) * stride + k
}

proof fn lemma_place(stride: int, count: int, n: int, c: int, k: int)
    requires
        0 <= n < count,
        0 <= c < 3,
        0 <= k < stride,
    ensures
        0 <= place(stride, n, c, k) < count * 3 * stride,
        place(stride, n, c, k) == n * 3 * stride + c * stride + k,
{
    lemma_pixel_inside(stride, count * 3, k, n * 3 + c);
    assert((n * 3 + c) * stride == n * 3 * stride + c * stride) by (nonlinear_arith);
}

/// The bytes of image `n` are in place up to pixel `k`.
spec fn placed(data: Seq<u32>, stride: int, n: int, k: int, raw: Seq<u8>, table: Seq<Binary32>) -> bool {
    forall|c: int, l: int|
        0 <= c < 3 && 0 <= l < k ==> #[trigger] data[place(stride, n, c, l)] == table[raw[3 * l + c] as int].bits
}

/// Writes one image into its place.
fn place_image(data: &mut [u32], stride: usize, count: usize, n: usize, raw: &Vec<u8>, table: &Vec<Binary32>)
    requires
        n < count,
        0 < stride,
        raw@.len() == 3 * stride,
        table@.len() == 256,
        old(data)@.len() == count * 3 * stride,
    ensures
        final(data)@.len() == old(data)@.len(),
        placed(final(data)@, stride as int, n as int, stride as int, raw@, table@),
        forall|m: int, c: int, l: int|
            0 <= m < count && m != n && 0 <= c < 3 && 0 <= l < stride ==> #[trigger] final(data)@[place(
                stride as int,
                m,
                c,
                l,
            )] == old(data)@[place(stride as int, m, c, l)],
{
    proof {
        lemma_place(stride as int, count as int, n as int, 2, stride - 1);
        lemma_place(stride as int, count as int, n as int, 0, 0);
        assert(data.len() <= usize::MAX);
        assert(raw.len() <= usize::MAX);
        assert(0 <= n * 3 * stride && n * 3 <= n * 3 * stride) by (nonlinear_arith)
            requires n >= 0, stride >= 1;
    }
    let offset: usize = n * 3 * stride;
    let mut k: usize = 0;
    while k < stride
        invariant
            k <= stride,
            n < count,
            0 < stride,
            raw@.len() == 3 * stride,
            raw@.len() <= usize::MAX,
            table@.len() == 256,
            data@.len() == count * 3 * stride,
            data@.len() <= usize::MAX,
            old(data)@.len() == data@.len(),
            offset == n * 3 * stride,
            placed(data@, stride as int, n as int, k as int, raw@, table@),
            forall|m: int, c: int, l: int|
                0 <= m < count && m != n && 0 <= c < 3 && 0 <= l < stride ==> #[trigger] data@[place(
                    stride as int,
                    m,
                    c,
                    l,
                )] == old(data)@[place(stride as int, m, c, l)],
        decreases stride - k,
    {
        let ghost before = data@;
        let ghost s = stride as int;
        proof {
            lemma_place(s, count as int, n as int, 0, k as int);
            lemma_place(s, count as int, n as int, 1, k as int);
            lemma_place(s, count as int, n as int, 2, k as int);
            lemma_pixels_apart(s, k as int, n * 3 + 0, k as int, n * 3 + 1);
            lemma_pixels_apart(s, k as int, n * 3 + 0, k as int, n * 3 + 2);
            lemma_pixels_apart(s, k as int, n * 3 + 1, k as int, n * 3 + 2);
        }
        data[offset + k] = table[raw[3 * k] as usize].bits;
        data[offset + k + stride] = table[raw[3 * k + 1] as usize].bits;
        data[offset + k + 2 * stride] = table[raw[3 * k + 2] as usize].bits;
        proof {
            assert forall|m: int, c: int, l: int|
                0 <= m < count && 0 <= c < 3 && 0 <= l < s && (m != n || l != k) implies #[trigger] data@[place(
                s,
                m,
                c,
                l,
            )] == before[place(s, m, c, l)] by {
                lemma_place(s, count as int, m, c, l);
                lemma_pixels_apart(s, l, m * 3 + c, k as int, n * 3 + 0);
                lemma_pixels_apart(s, l, m * 3 + c, k as int, n * 3 + 1);
                lemma_pixels_apart(s, l, m * 3 + c, k as int, n * 3 + 2);
            }
            assert forall|c: int, l: int| 0 <= c < 3 && 0 <= l < k + 1 implies #[trigger] data@[place(
                s,
                n as int,
                c,
                l,
            )] == table@[raw@[3 * l + c] as int].bits by {
                if l < k {
                    assert(data@[place(s, n as int, c, l)] == before[place(s, n as int, c, l)]);
                }
            }
        }
        k = k + 1;
    }
}

/// Writes all images into their places.
fn place_images(data: &mut [u32], imgs: &[RgbImage], side: u32, stride: usize, table: &Vec<Binary32>)
    requires
        0 < side,
        stride == side * side,
        all_square(imgs@, side),
        table@.len() == 256,
        old(data)@.len() == imgs@.len() * 3 * stride,
    ensures
        final(data)@.len() == old(data)@.len(),
        forall|n: int| 0 <= n < imgs@.len() ==> placed(
            final(data)@,
            stride as int,
            n,
            stride as int,
            (#[trigger] imgs@[n]).bytes(),
            table@,
        ),
{
    proof {
        assert(side * side > 0) by (nonlinear_arith)
            requires side > 0;
    }
    let count: usize = imgs.len();
    let mut n: usize = 0;
    while n < count
        invariant
            n <= count,
            count == imgs@.len(),
            0 < stride,
            stride == side * side,
            all_square(imgs@, side),
            table@.len() == 256,
            data@.len() == count * 3 * stride,
            old(data)@.len() == data@.len(),
            forall|m: int| 0 <= m < n ==> placed(
                data@,
                stride as int,
                m,
                stride as int,
                (#[trigger] imgs@[m]).bytes(),
                table@,
            ),
        decreases count - n,
    {
        let ghost before = data@;
        let raw = imgs[n].as_raw();
        assert(square(imgs@[n as int], side));
        place_image(data, stride, count, n, raw, table);
        proof {
            assert forall|m: int| 0 <= m < n + 1 implies placed(
                data@,
                stride as int,
                m,
                stride as int,
                (#[trigger] imgs@[m]).bytes(),
                table@,
            ) by {
                if m < n {
                    assert(placed(before, stride as int, m, stride as int, imgs@[m].bytes(), table@));
                }
            }
        }
        n = n + 1;
    }
}

/// The tensor that holds the given images channel by channel, with each byte
/// looked up in `table`. An image of the wrong size is refused with a message
/// that starts with `prefix`.
pub(crate) fn image_tensor(
    imgs: &[RgbImage],
    side: u32,
    table: &Vec<Binary32>,
    prefix: &str,
    no_slice: FaceIdError,
) -> (r: Result<Tensor4, FaceIdError>)
    requires
        0 < side <= 0x1000,
        table@.len() == 256,
        imgs@.len() * 3 * side * side * 4 <= isize::MAX,
    ensures
        r is Ok <==> all_square(imgs@, side),
        r matches Ok(t) ==> holds_images(t, imgs@, side, |b: u8| table@[b as int]),
        r matches Err(e) ==> exists|i: int| #[trigger] first_misfit(imgs@, side, i) && e@ == misfit_error(prefix@, imgs@[i]),
{
    let mut i: usize = 0;
    while i < imgs.len()
        invariant
            i <= imgs.len(),
            forall|k: int| 0 <= k < i ==> square(#[trigger] imgs@[k], side),
        decreases imgs.len() - i,
    {
        let (w, h) = imgs[i].dimensions();
        if w != side || h != side {
            let message = numbered_pair(prefix, w as usize, "x", h as usize);
            assert(!square(imgs@[i as int], side));
            assert(first_misfit(imgs@, side, i as int));
            return Err(FaceIdError::InvalidModel(message));
        }
        i = i + 1;
    }
    let count: usize = imgs.len();
    proof {
        assert(0 < side * side <= 0x100_0000 && 3 * side * side * 4 <= 12 * 0x100_0000) by (nonlinear_arith)
            requires 0 < side <= 0x1000;
    }
    let edge: usize = side as usize;
    let stride: usize = edge * edge;
    let mut tensor = Tensor4::zeros(count, 3, edge, edge);
    assert(count * 3 * edge * edge == count * 3 * stride) by (nonlinear_arith)
        requires stride == edge * edge;
    match tensor.as_slice_memory_order_mut() {
        None => {
            return Err(no_slice);
        },
        Some(data) => {
            place_images(data, imgs, side, stride, table);
        },
    }
    proof {
        let scale = |b: u8| table@[b as int];
        assert forall|n: int, c: int, y: int, x: int|
            0 <= n < imgs@.len() && 0 <= c < 3 && 0 <= y < side && 0 <= x < side implies #[trigger] tensor.element(
            n,
            c,
            y,
            x,
        ) == scale(channel(imgs@[n].pixel(x, y), c)) by {
            let l = y * side + x;
            lemma_pixel_inside(side as int, side as int, x, y);
            lemma_place(stride as int, count as int, n, c, l);
            let (a, e) = (n * 3 + c, side as int);
            assert((a * e + y) * e + x == a * (e * e) + (y * e + x)) by (nonlinear_arith);
            assert(row_major(tensor.shape(), n, c, y, x) == place(stride as int, n, c, l));
            assert(square(imgs@[n], side));
            assert(placed(tensor_elements(tensor), stride as int, n, stride as int, imgs@[n].bytes(), table@));
            assert(tensor_elements(tensor)[place(stride as int, n, c, l)] == table@[imgs@[n].bytes()[3 * l + c] as int].bits);
            assert(pixel_offset(side as nat, x, y) == 3 * l);
        }
    }
    Ok(tensor)
}

/// A byte as a number.
pub open spec fn byte_value() -> spec_fn(u8) -> Binary32 {
    |b: u8| whole(b as u32)
}

/// The numbers of all bytes.
pub(crate) fn byte_table() -> (r: Vec<Binary32>)
    ensures
        r@.len() == 256,
        forall|b: u8| #[trigger] r@[b as int] == byte_value()(b),
{
    let mut r: Vec<Binary32> = Vec::new();
    let mut i: u32 = 0;
    while i < 256
        invariant
            i <= 256,
            r@.len() == i,
            forall|k: int| 0 <= k < i ==> #[trigger] r@[k] == whole(k as u32),
        decreases 256 - i,
    {
        r.push(Binary32::from_u32(i));
        i = i + 1;
    }
    r
}

/// A byte moved from the range 0 to 255 into the range -1 to 1.
pub open spec fn centred_byte_value() -> spec_fn(u8) -> Binary32 {
    |b: u8|
        whole(b as u32).difference(Binary32 { bits: BYTE_MIDDLE_BITS }).quotient(Binary32 { bits: BYTE_MIDDLE_BITS })
}

/// The centred numbers of all bytes.
pub(crate) fn centred_byte_table() -> (r: Vec<Binary32>)
    ensures
        r@.len() == 256,
        forall|b: u8| #[trigger] r@[b as int] == centred_byte_value()(b),
{
    let mid = Binary32 { bits: BYTE_MIDDLE_BITS };
    let mut r: Vec<Binary32> = Vec::new();
    let mut i: u32 = 0;
    while i < 256
        invariant
            i <= 256,
            r@.len() == i,
            mid == (Binary32 { bits: BYTE_MIDDLE_BITS }),
            forall|k: int| 0 <= k < i ==> #[trigger] r@[k] == whole(k as u32).difference(mid).quotient(mid),
        decreases 256 - i,
    {
        r.push(Binary32::from_u32(i).minus(mid).over(mid));
        i = i + 1;
    }
    r
}

/// A tensor is described by the values of its bytes alone.
pub(crate) proof fn lemma_same_scale(
    t: Tensor4,
    imgs: Seq<RgbImage>,
    side: u32,
    a: spec_fn(u8) -> Binary32,
    b: spec_fn(u8) -> Binary32,
)
    requires
        holds_images(t, imgs, side, a),
        forall|v: u8| #[trigger] a(v) == b(v),
    ensures
        holds_images(t, imgs, side, b),
{
}

/// The input tensor keeps every pixel: images with the same tensor are the same.
pub proof fn law_tensor_keeps_every_pixel(
    t: Tensor4,
    a: Seq<RgbImage>,
    b: Seq<RgbImage>,
    side: u32,
    n: int,
    x: int,
    y: int,
)
    requires
        holds_images(t, a, side, byte_value()),
        holds_images(t, b, side, byte_value()),
        a.len() == b.len(),
        0 <= n < a.len(),
        0 <= x < side,
        0 <= y < side,
    ensures
        a[n].pixel(x, y) == b[n].pixel(x, y),
{
    let (p, q) = (a[n].pixel(x, y), b[n].pixel(x, y));
    assert(t.element(n, 0, y, x) == byte_value()(p.0));
    assert(t.element(n, 1, y, x) == byte_value()(p.1));
    assert(t.element(n, 2, y, x) == byte_value()(p.2));
    lemma_bytes_differ(p.0, q.0);
    lemma_bytes_differ(p.1, q.1);
    lemma_bytes_differ(p.2, q.2);
}

/// Different bytes are different numbers.
proof fn lemma_bytes_differ(a: u8, b: u8)
    ensures
        byte_value()(a) == byte_value()(b) ==> a == b,
{
    law_whole_is_exact(a as u32);
    law_whole_is_exact(b as u32);
    lemma_pow2_pos(149);
    let one = pow2(149);
    assert(a * one == b * one ==> a == b) by (nonlinear_arith)
        requires one > 0;
}

/// A byte, centred: the nearest number to its distance from the middle, over 127.5.
proof fn lemma_centred(b: u8, j: nat)
    requires
        j == 2 * b - 255 || j == 255 - 2 * b,
    ensures
        ({
            let (r, one) = (centred_byte_value()(b), pow2(149));
            &&& r.finite()
            &&& r == rounded((j * pow2(148)) * one, 255 * pow2(148)).signed(b < 128)
            &&& r.sign_bit() == (b < 128)
            &&& 0xff_ffff * (j * one) <= 0xff00_0000 * r.abs_units()
            &&& 0xff00_0000 * r.abs_units() <= 0x100_0001 * (j * one)
            &&& j == 255 ==> r.abs_units() == one
        }),
{
    let value = whole(b as u32);
    let mid = Binary32 { bits: BYTE_MIDDLE_BITS };
    let (one, half) = (pow2(149), pow2(148));
    lemma2_to64();
    lemma_pow2_pos(148);
    lemma_pow2_unfold(149);
    law_whole_is_exact(b as u32);
    lemma_middle();
    let low = mid.signed(!mid.sign_bit());
    assert(low.magnitude() == mid.magnitude());
    assert(low.units() == -(255 * half));
    let n = j * half;
    assert(b * one == 2 * (b * half)) by (nonlinear_arith)
        requires one == 2 * half;
    assert(n == (2 * b - 255) * half || n == (255 - 2 * b) * half);
    assert((2 * b - 255) * half == 2 * (b * half) - 255 * half && (255 - 2 * b) * half == 255 * half - 2 * (b * half))
        by (nonlinear_arith);
    assert(0 < n <= 255 * half) by (nonlinear_arith)
        requires n == j * half, 1 <= j <= 255, half > 0;
    lemma_pow2_adds(8, 148);
    lemma_pow2_strictly_increases(156, 276);
    lemma_signed_sum_units(value, low, n);
    lemma_round_exact(j, 148);
    let d = value.difference(mid);
    assert(d.sign_bit() == (b < 128)) by {
        assert((2 * b - 255) * half < 0 <==> b < 128) by (nonlinear_arith)
            requires half > 0;
    }
    assert(d.abs_units() == n);
    reveal(Binary32::quotient);
    let (num, den) = (n * one, 255 * half);
    let r = round24(num, den);
    assert(one >= 0xff00_0000) by {
        lemma_pow2_strictly_increases(32, 149);
    }
    assert(num >= 0x100_0000 * den) by (nonlinear_arith)
        requires num == n * one, n == j * half, j >= 1, den == 255 * half, one >= 0xff00_0000, half > 0;
    lemma_round_relative(num, den);
    let jo = j * one;
    assert(0xff_ffff * jo <= 0xff00_0000 * r && 0xff00_0000 * r <= 0x100_0001 * jo) by (nonlinear_arith)
        requires
            0x100_0000 * (r * den) <= 0x100_0001 * num,
            0xff_ffff * num <= 0x100_0000 * (r * den),
            num == (j * half) * one,
            den == 255 * half,
            jo == j * one,
            half > 0;
    assert(jo <= 255 * one) by (nonlinear_arith)
        requires jo == j * one, j <= 255, one > 0;
    lemma_pow2_adds(1, 149);
    lemma_pow2_strictly_increases(150, 277);
    lemma_rounded(num, den);
    let q = rounded(num, den);
    let negative = d.sign_bit() != mid.sign_bit();
    assert(q.signed(negative).magnitude() == q.magnitude());
    if j == 255 {
        let unit = Binary32 { bits: ONE_BITS };
        assert(unit.exponent() == 127 && unit.fraction() == 0);
        assert((unit.exponent() - 1) as nat == 126);
        assert(0x80_0000 + unit.fraction() == 0x80_0000);
        lemma_pow2_adds(23, 126);
        assert(unit.abs_units() == one);
        law_rounding_keeps_exact_values(unit, den);
        assert(num == one * den) by (nonlinear_arith)
            requires num == (255 * half) * one, den == 255 * half;
    }
}

/// Centred bytes lie between -1 and 1; the least byte is -1, the largest 1.
pub proof fn law_centred_bytes_are_at_most_one(b: u8)
    ensures
        centred_byte_value()(b).finite(),
        -pow2(149) <= centred_byte_value()(b).units() <= pow2(149),
        centred_byte_value()(0u8).units() == -pow2(149),
        centred_byte_value()(255u8).units() == pow2(149),
{
    lemma_pow2_pos(149);
    lemma_centred(0, 255);
    lemma_centred(255, 255);
    if b < 128 {
        lemma_centred(b, (255 - 2 * b) as nat);
    } else {
        lemma_centred(b, (2 * b - 255) as nat);
    }
    let one = pow2(149);
    let j: int = if b < 128 {
        255 - 2 * b
    } else {
        2 * b - 255
    };
    if j < 255 {
        assert(j * one <= 253 * one) by (nonlinear_arith)
            requires j <= 253, one > 0;
    }
}

/// Centring keeps bytes in their order, so that different bytes stay different.
pub proof fn law_centred_bytes_keep_their_order(a: u8, b: u8)
    requires
        a < b,
    ensures
        centred_byte_value()(a).below(centred_byte_value()(b)),
{
    let one = pow2(149);
    lemma_pow2_pos(149);
    let (s, t) = (2 * a - 255, 2 * b - 255);
    let (j, k) = (if s < 0 { -s } else { s }, if t < 0 { -t } else { t });
    lemma_centred(a, j as nat);
    lemma_centred(b, k as nat);
    assert(j * one > 0 && k * one > 0) by (nonlinear_arith)
        requires j >= 1, k >= 1, one > 0;
    if s > 0 {
        assert((j + 2) * one <= k * one && j * one <= 255 * one) by (nonlinear_arith)
            requires j + 2 <= k, j <= 255, one > 0;
        assert((j + 2) * one == j * one + 2 * one) by (nonlinear_arith);
    } else if t < 0 {
        assert((k + 2) * one <= j * one && k * one <= 255 * one) by (nonlinear_arith)
            requires k + 2 <= j, k <= 255, one > 0;
        assert((k + 2) * one == k * one + 2 * one) by (nonlinear_arith);
    }
}

/// The centred input tensor keeps every pixel too.
pub proof fn law_centred_tensor_keeps_every_pixel(
    t: Tensor4,
    a: Seq<RgbImage>,
    b: Seq<RgbImage>,
    side: u32,
    n: int,
    x: int,
    y: int,
)
    requires
        holds_images(t, a, side, centred_byte_value()),
        holds_images(t, b, side, centred_byte_value()),
        a.len() == b.len(),
        0 <= n < a.len(),
        0 <= x < side,
        0 <= y < side,
    ensures
        a[n].pixel(x, y) == b[n].pixel(x, y),
{
    let (p, q) = (a[n].pixel(x, y), b[n].pixel(x, y));
    assert(t.element(n, 0, y, x) == centred_byte_value()(p.0));
    assert(t.element(n, 1, y, x) == centred_byte_value()(p.1));
    assert(t.element(n, 2, y, x) == centred_byte_value()(p.2));
    lemma_centred_bytes_differ(p.0, q.0);
    lemma_centred_bytes_differ(p.1, q.1);
    lemma_centred_bytes_differ(p.2, q.2);
}

proof fn lemma_centred_bytes_differ(a: u8, b: u8)
    ensures
        centred_byte_value()(a) == centred_byte_value()(b) ==> a == b,
{
    if a < b {
        law_centred_bytes_keep_their_order(a, b);
    } else if b < a {
        law_centred_bytes_keep_their_order(b, a);
    }
}

/// The value of the number in the middle of the bytes.
proof fn lemma_middle()
    ensures
        ({
            let mid = Binary32 { bits: BYTE_MIDDLE_BITS };
            &&& mid.finite()
            &&& !mid.sign_bit()
            &&& mid.units() == 255 * pow2(148)
            &&& mid.abs_units() == 255 * pow2(148)
        }),
{
    let mid = Binary32 { bits: BYTE_MIDDLE_BITS };
    lemma2_to64();
    assert(mid.exponent() == 133 && mid.fraction() == 0x7f_0000);
    assert((mid.exponent() - 1) as nat == 132);
    assert(0x80_0000 + mid.fraction() == 0xff_0000);
    lemma_pow2_adds(16, 132);
    assert(mid.abs_units() == 0xff_0000 * pow2(132));
}

/// The nearest whole number to one that is not negative; halves go up.
pub open spec fn nearest_whole(v: Binary32) -> int {
    (v.units() + pow2(148)) / pow2(149) as int
}

/// A centred number, scaled back to the range of a byte.
pub open spec fn uncentred(v: Binary32) -> Binary32 {
    let mid = Binary32 { bits: BYTE_MIDDLE_BITS };
    v.product(mid).sum(mid)
}

proof fn lemma_uncentred(b: u8)
    ensures
        nearest_whole(uncentred(centred_byte_value()(b))) == b,
{
    let v = centred_byte_value()(b);
    let mid = Binary32 { bits: BYTE_MIDDLE_BITS };
    let (one, half) = (pow2(149), pow2(148));
    let j: nat = if b < 128 {
        (255 - 2 * b) as nat
    } else {
        (2 * b - 255) as nat
    };
    lemma2_to64();
    lemma_pow2_pos(148);
    lemma_pow2_unfold(149);
    lemma_middle();
    lemma_centred(b, j);
    lemma_pow2_strictly_increases(28, 148);
    let a = v.abs_units();
    let z = a * mid.abs_units();
    let jo = j * one;
    let jh = j * half;
    assert(jo == 2 * jh && jh <= 255 * half) by (nonlinear_arith)
        requires jo == j * one, jh == j * half, one == 2 * half, j <= 255, half > 0;
    // The product, in units, is within a few parts in 2^24 of `j` halves.
    lemma_product_units(v, mid);
    let p = round24(z, one);
    lemma_round_absolute(z, one);
    let aa = 255 * a;
    assert(z == aa * half) by (nonlinear_arith)
        requires z == a * (255 * half), aa == 255 * a;
    assert(0x200_0000 * p <= 0x100_0001 * aa + 0x200_0000 && 0xff_ffff * aa <= 0x200_0000 * p + 0x200_0000) by (nonlinear_arith)
        requires
            0x100_0000 * (p * one) <= 0x100_0001 * z + 0x100_0000 * one,
            0xff_ffff * z <= 0x100_0000 * (p * one) + 0x100_0000 * one,
            z == aa * half,
            one == 2 * half,
            half > 0;
    lemma_pow2_adds(9, 148);
    lemma_pow2_strictly_increases(157, 276);
    lemma_pow2_strictly_increases(157, 277);
    assert(p < pow2(157));
    let w = v.product(mid);
    let s = w.units() + mid.units();
    assert(2 * (b * half) == b * one) by (nonlinear_arith)
        requires one == 2 * half;
    assert((255 - 2 * b) * half == 255 * half - 2 * (b * half) && (2 * b - 255) * half == 2 * (b * half) - 255 * half)
        by (nonlinear_arith);
    // So the sum, before and after rounding, is near the byte.
    let bo = b * one;
    assert(0x100_0000 * (s - bo) <= 0x800 * half && 0x100_0000 * (bo - s) <= 0x800 * half);
    let n: nat = if s < 0 {
        (-s) as nat
    } else {
        s as nat
    };
    lemma_signed_sum_units(w, mid, n);
    lemma_round_whole(n);
    let u = uncentred(v).units();
    if n == 0 {
        assert(round24(0, 1) == 0);
    }
    assert(bo <= 255 * one) by (nonlinear_arith)
        requires bo == b * one, b <= 255, one > 0;
    assert(bo - half < u < bo + half);
    assert(u + half == one * b + (u + half - bo)) by (nonlinear_arith)
        requires bo == b * one;
    lemma_fundamental_div_mod_converse(u + half, one as int, b as int, u + half - bo);
}

/// The pixels can be read back from the centred input tensor: scaled back and
/// rounded, each value is the byte that it came from.
pub proof fn law_pixels_can_be_recovered(t: Tensor4, imgs: Seq<RgbImage>, side: u32, n: int, c: int, y: int, x: int)
    requires
        holds_images(t, imgs, side, centred_byte_value()),
        0 <= n < imgs.len(),
        0 <= c < 3,
        0 <= y < side,
        0 <= x < side,
    ensures
        nearest_whole(uncentred(t.element(n, c, y, x))) == channel(imgs[n].pixel(x, y), c),
{
    lemma_uncentred(channel(imgs[n].pixel(x, y), c));
}

/// `b` is the negative of `a`: each byte is as far from 255 as the other from 0.
pub open spec fn negative(a: RgbImage, b: RgbImage, side: u32) -> bool {
    forall|x: int, y: int, c: int|
        #![trigger channel(b.pixel(x, y), c)]
        0 <= x < side && 0 <= y < side && 0 <= c < 3 ==> channel(b.pixel(x, y), c) == 255 - channel(a.pixel(x, y), c)
}

/// The negative of an image gives the negated tensor.
pub proof fn law_negative_images_give_negated_tensors(
    t: Tensor4,
    u: Tensor4,
    a: Seq<RgbImage>,
    b: Seq<RgbImage>,
    side: u32,
    n: int,
    c: int,
    y: int,
    x: int,
)
    requires
        holds_images(t, a, side, centred_byte_value()),
        holds_images(u, b, side, centred_byte_value()),
        a.len() == b.len(),
        0 <= n < a.len(),
        negative(a[n], b[n], side),
        0 <= c < 3,
        0 <= y < side,
        0 <= x < side,
    ensures
        u.element(n, c, y, x) == t.element(n, c, y, x).signed(!t.element(n, c, y, x).sign_bit()),
{
    let (p, q) = (channel(a[n].pixel(x, y), c), channel(b[n].pixel(x, y), c));
    assert(q == 255 - p);
    let j: nat = if p < 128 {
        (255 - 2 * p) as nat
    } else {
        (2 * p - 255) as nat
    };
    lemma_centred(p, j);
    lemma_centred(q, j);
    let r = rounded((j * pow2(148)) * pow2(149), 255 * pow2(148));
    assert(r.signed(true).magnitude() == r.magnitude() && r.signed(false).magnitude() == r.magnitude());
}

/// The tensor holds one image after the other, each as three planes: red, green
/// and blue. The value of a byte stays as it is.
pub proof fn law_bytes_of_each_channel(t: Tensor4, imgs: Seq<RgbImage>, side: u32, n: int, y: int, x: int)
    requires
        holds_images(t, imgs, side, byte_value()),
        0 <= n < imgs.len(),
        imgs.len() <= usize::MAX,
        0 <= y < side,
        0 <= x < side,
    ensures
        t.shape().len() == 4,
        t.shape()[0] == imgs.len(),
        t.shape()[1] == 3,
        t.shape()[2] == side,
        t.shape()[3] == side,
        t.element(n, 0, y, x).units() == imgs[n].pixel(x, y).0 * pow2(149),
        t.element(n, 1, y, x).units() == imgs[n].pixel(x, y).1 * pow2(149),
        t.element(n, 2, y, x).units() == imgs[n].pixel(x, y).2 * pow2(149),
{
    let p = imgs[n].pixel(x, y);
    law_whole_is_exact(p.0 as u32);
    law_whole_is_exact(p.1 as u32);
    law_whole_is_exact(p.2 as u32);
    assert(t.element(n, 0, y, x) == byte_value()(p.0));
    assert(t.element(n, 1, y, x) == byte_value()(p.1));
    assert(t.element(n, 2, y, x) == byte_value()(p.2));
}

/// A centred byte `b` is `(2 b - 255) / 255`, up to one part in 2^24.
pub proof fn law_centred_bytes_in_exact_terms(b: u8)
    ensures
        centred_byte_value()(b).finite(),
        about(
            255 * centred_byte_value()(b).units(),
            (2 * b - 255) * pow2(149),
            absolute(2 * b - 255) * pow2(149),
        ),
{
    let (j, one) = (absolute(2 * b - 255), pow2(149) as int);
    lemma_centred(b, j as nat);
    assert((2 * b - 255) * one == j * one || (2 * b - 255) * one == -(j * one)) by (nonlinear_arith)
        requires j == absolute(2 * b - 255);
    lemma_pow2_pos(149);
    assert(j * one > 0) by (nonlinear_arith)
        requires j >= 1, one > 0;
    assert((2 * b - 255) * one < 0 <==> b < 128) by (nonlinear_arith)
        requires one > 0;
}

/// The centred tensor holds one image after the other, each as three planes: red,
/// green and blue.
pub proof fn law_centred_bytes_of_each_channel(t: Tensor4, imgs: Seq<RgbImage>, side: u32, n: int, y: int, x: int)
    requires
        holds_images(t, imgs, side, centred_byte_value()),
        0 <= n < imgs.len(),
        imgs.len() <= usize::MAX,
        0 <= y < side,
        0 <= x < side,
    ensures
        t.shape().len() == 4,
        t.shape()[0] == imgs.len(),
        t.shape()[1] == 3,
        t.shape()[2] == side,
        t.shape()[3] == side,
        ({
            let (p, one) = (imgs[n].pixel(x, y), pow2(149) as int);
            let (r, g, b) = (2 * p.0 - 255, 2 * p.1 - 255, 2 * p.2 - 255);
            &&& about(255 * t.element(n, 0, y, x).units(), r * one, absolute(r) * one)
            &&& about(255 * t.element(n, 1, y, x).units(), g * one, absolute(g) * one)
            &&& about(255 * t.element(n, 2, y, x).units(), b * one, absolute(b) * one)
        }),
{
    let p = imgs[n].pixel(x, y);
    law_centred_bytes_in_exact_terms(p.0);
    law_centred_bytes_in_exact_terms(p.1);
    law_centred_bytes_in_exact_terms(p.2);
    assert(t.element(n, 0, y, x) == centred_byte_value()(p.0));
    assert(t.element(n, 1, y, x) == centred_byte_value()(p.1));
    assert(t.element(n, 2, y, x) == centred_byte_value()(p.2));
}

/// Some images either all fit, or there is exactly one that is the first not to. The
/// message names its width and its height.
pub proof fn law_one_first_misfit(imgs: Seq<RgbImage>, side: u32, i: int, prefix: Seq<char>)
    requires
        0 <= i < imgs.len(),
        imgs[i].spec_width() != side || imgs[i].spec_height() != side,
    ensures
        !all_square(imgs, side),
        exists|k: int| 0 <= k <= i && #[trigger] first_misfit(imgs, side, k),
        forall|k: int| #[trigger]
            first_misfit(imgs, side, k) ==> {
                &&& 0 <= k <= i
                &&& imgs[k].spec_width() != side || imgs[k].spec_height() != side
                &&& forall|j: int| 0 <= j < k ==> (#[trigger] imgs[j]).spec_width() == side && imgs[j].spec_height() == side
                &&& misfit_error(prefix, imgs[k]) == FaceIdErrorView::InvalidModel(
                    prefix + decimal(imgs[k].spec_width() as nat) + "x"@ + decimal(imgs[k].spec_height() as nat),
                )
            },
{
    assert(!square(imgs[i], side));
    lemma_some_misfit(imgs, side, i);
}

proof fn lemma_some_misfit(imgs: Seq<RgbImage>, side: u32, i: int)
    requires
        0 <= i < imgs.len(),
        !square(imgs[i], side),
    ensures
        exists|k: int| 0 <= k <= i && #[trigger] first_misfit(imgs, side, k),
    decreases i,
{
    if forall|k: int| 0 <= k < i ==> square(#[trigger] imgs[k], side) {
        assert(first_misfit(imgs, side, i));
    } else {
        let j = choose|j: int| 0 <= j < i && !square(#[trigger] imgs[j], side);
        lemma_some_misfit(imgs, side, j);
    }
}

/// Images fit if and only if each is as wide and as high as asked for.
pub proof fn law_images_that_fit(imgs: Seq<RgbImage>, side: u32)
    ensures
        all_square(imgs, side) <==> (forall|i: int|
            0 <= i < imgs.len() ==> (#[trigger] imgs[i]).spec_width() == side && imgs[i].spec_height() == side),
{
    if all_square(imgs, side) {
        assert forall|i: int| 0 <= i < imgs.len() implies (#[trigger] imgs[i]).spec_width() == side
            && imgs[i].spec_height() == side by {
            assert(square(imgs[i], side));
        }
    }
}

} // verus!
