//! Thumbnails of faces.

use vstd::prelude::*;
use crate::binary32::{Binary32, HALF_BITS, whole};
use crate::crop::{crop_square, drawable, flat, in_pixels, middle, square_side};
use crate::detector::BoundingBox;
use crate::raster::{PixelSource, RgbImage};
use crate::sampling::{bilinear, sample_square};

verus! {

/// A padding factor that makes sense: finite and above zero.
pub open spec fn usable_padding(factor: Binary32) -> bool {
    factor.finite() && !factor.at_most_zero()
}

/// Where a thumbnail of `size` pixels, centred on `centre` and showing `side`
/// source pixels, takes its pixel number `i` from.
pub open spec fn thumbnail_coordinate(centre: Binary32, side: Binary32, size: u32, i: u32) -> Binary32 {
    let half = Binary32 { bits: HALF_BITS };
    let start = centre.difference(side.product(half));
    whole(i).sum(half).fused(side.quotient(whole(size)), start).difference(half)
}

/// `out` shows the face in the box, on a square that is `padding_factor` times as
/// long as the box.
pub open spec fn shows_thumbnail<I: PixelSource>(
    out: RgbImage,
    img: &I,
    bbox: &BoundingBox,
    padding_factor: Binary32,
    size: u32,
) -> bool {
    let (w, h) = (img.source_width(), img.source_height());
    let b = in_pixels(bbox, w, h);
    let side = square_side(b, padding_factor);
    &&& out.spec_width() == size
    &&& out.spec_height() == size
    &&& if !drawable(w, h, bbox, size) || !usable_padding(padding_factor) || flat(b) {
        out.black()
    } else {
        forall|px: int, py: int|
            0 <= px < size && 0 <= py < size ==> #[trigger] out.pixel(px, py) == bilinear(
                img,
                thumbnail_coordinate(middle(b.x1, b.x2), side, size, px as u32),
                thumbnail_coordinate(middle(b.y1, b.y2), side, size, py as u32),
            )
    }
}

/// The coordinates of all pixels of a thumbnail along one axis.
fn thumbnail_coordinates(centre: Binary32, side: Binary32, size: u32) -> (r: Vec<Binary32>)
    ensures
        r@.len() == size,
        forall|i: int| 0 <= i < size ==> #[trigger] r@[i] == thumbnail_coordinate(centre, side, size, i as u32),
{
    let half = Binary32 { bits: HALF_BITS };
    let start = centre.minus(side.times(half));
    let scale = side.over(Binary32::from_u32(size));
    let mut r: Vec<Binary32> = Vec::new();
    let mut i: u32 = 0;
    while i < size
        invariant
            i <= size,
            r@.len() == i,
            half == (Binary32 { bits: HALF_BITS }),
            start == centre.difference(side.product(half)),
            scale == side.quotient(whole(size)),
            forall|k: int| 0 <= k < i ==> #[trigger] r@[k] == thumbnail_coordinate(centre, side, size, k as u32),
        decreases size - i,
    {
        r.push(Binary32::from_u32(i).plus(half).times_plus(scale, start).minus(half));
        i = i + 1;
    }
    r
}

/// Extracts a square, padded thumbnail for a face.
///
/// `padding_factor` says how much context to show: with 1 the crop is tight,
/// with 2 the face takes up half of the width. The thumbnail measures `size`
/// by `size` pixels; what lies outside the image is black.
#[must_use]
pub fn extract_face_thumbnail(
    img: &image::DynamicImage,
    bbox: &BoundingBox,
    padding_factor: Binary32,
    size: u32,
) -> (out: RgbImage)
    requires
        3 * (size * size) <= isize::MAX,
    ensures
        out.spec_width() == size,
        out.spec_height() == size,
        ({
            let (w, h) = (img.source_width(), img.source_height());
            let b = in_pixels(bbox, w, h);
            if !drawable(w, h, bbox, size) || !usable_padding(padding_factor) || flat(b) {
                out.black()
            } else {
                forall|px: int, py: int|
                    0 <= px < size && 0 <= py < size ==> #[trigger] out.pixel(px, py) == bilinear(
                        img,
                        thumbnail_coordinate(middle(b.x1, b.x2), square_side(b, padding_factor), size, px as u32),
                        thumbnail_coordinate(middle(b.y1, b.y2), square_side(b, padding_factor), size, py as u32),
                    )
            }
        }),
        shows_thumbnail(out, img, bbox, padding_factor, size),
{
    let (w, h) = img.source_size();
    if !padding_factor.is_finite() || padding_factor.is_at_most_zero() {
        return RgbImage::new(size, size);
    }
    match crop_square(w, h, bbox, size, padding_factor) {
        None => RgbImage::new(size, size),
        Some(square) => {
            let columns = thumbnail_coordinates(square.cx, square.side, size);
            let rows = thumbnail_coordinates(square.cy, square.side, size);
            sample_square(img, size, &columns, &rows)
        },
    }
}

} // verus!
