//! Square crops around a face.

use vstd::prelude::*;
use crate::binary32::{Binary32, HALF_BITS, whole};
use crate::detector::BoundingBox;

verus! {

/// There is something to draw: neither the crop nor the image is empty, and the
/// box is finite.
pub open spec fn drawable(width: u32, height: u32, bbox: &BoundingBox, size: u32) -> bool {
    size != 0 && width != 0 && height != 0 && bbox.finite()
}

/// A box given as fractions, cut to the image and counted in pixels.
pub open spec fn in_pixels(bbox: &BoundingBox, width: u32, height: u32) -> BoundingBox {
    BoundingBox {
        x1: bbox.x1.unit_clamped().product(whole(width)),
        y1: bbox.y1.unit_clamped().product(whole(height)),
        x2: bbox.x2.unit_clamped().product(whole(width)),
        y2: bbox.y2.unit_clamped().product(whole(height)),
    }
}

/// The box has no width or no height.
pub open spec fn flat(b: BoundingBox) -> bool {
    b.x2.difference(b.x1).at_most_zero() || b.y2.difference(b.y1).at_most_zero()
}

/// The length of a square that is `factor` times as long as the longer side of the box.
pub open spec fn square_side(b: BoundingBox, factor: Binary32) -> Binary32 {
    b.x2.difference(b.x1).larger(b.y2.difference(b.y1)).product(factor)
}

/// The point half way between two coordinates.
pub open spec fn middle(a: Binary32, b: Binary32) -> Binary32 {
    a.sum(b).product(Binary32 { bits: HALF_BITS })
}

/// A box around a face in pixels, and the square that a crop shows of it.
pub struct CropSquare {
    /// The centre of the box.
    pub cx: Binary32,
    pub cy: Binary32,
    /// The length of the square.
    pub side: Binary32,
}

/// The square to crop, or `None` where the crop stays black.
pub fn crop_square(width: u32, height: u32, bbox: &BoundingBox, size: u32, factor: Binary32) -> (r: Option<CropSquare>)
    ensures
        r is None <==> !drawable(width, height, bbox, size) || flat(in_pixels(bbox, width, height)),
        r matches Some(c) ==> {
            let b = in_pixels(bbox, width, height);
            &&& c.cx == middle(b.x1, b.x2)
            &&& c.cy == middle(b.y1, b.y2)
            &&& c.side == square_side(b, factor)
        },
{
    if size == 0 || width == 0 || height == 0 || !bbox.is_finite() {
        return None;
    }
    let w = Binary32::from_u32(width);
    let h = Binary32::from_u32(height);
    let x1 = bbox.x1.clamp_to_unit().times(w);
    let y1 = bbox.y1.clamp_to_unit().times(h);
    let x2 = bbox.x2.clamp_to_unit().times(w);
    let y2 = bbox.y2.clamp_to_unit().times(h);
    let box_width = x2.minus(x1);
    let box_height = y2.minus(y1);
    if box_width.is_at_most_zero() || box_height.is_at_most_zero() {
        return None;
    }
    let half = Binary32 { bits: HALF_BITS };
    Some(
        CropSquare {
            cx: x1.plus(x2).times(half),
            cy: y1.plus(y2).times(half),
            side: box_width.max(box_height).times(factor),
        },
    )
}

} // verus!
