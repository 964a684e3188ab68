//! What a face detector reports.

use vstd::prelude::*;
use crate::binary32::Binary32;

verus! {

/// A box around a face, as fractions of the width and height of the image.
#[derive(Clone, Copy, Debug, PartialEq)]
pub struct BoundingBox {
    pub x1: Binary32,
    pub y1: Binary32,
    pub x2: Binary32,
    pub y2: Binary32,
}

impl BoundingBox {
    /// No corner is infinite or NaN.
    pub open spec fn finite(self) -> bool {
        self.x1.finite() && self.y1.finite() && self.x2.finite() && self.y2.finite()
    }

    pub fn is_finite(&self) -> (r: bool)
        ensures
            r == self.finite(),
    {
        self.x1.is_finite() && self.y1.is_finite() && self.x2.is_finite() && self.y2.is_finite()
    }
}

/// A detected face.
#[derive(Clone, Debug, PartialEq)]
pub struct DetectedFace {
    pub bbox: BoundingBox,
    /// Facial keypoints, as fractions of the width and height of the image.
    pub landmarks: Option<Vec<(Binary32, Binary32)>>,
    /// The confidence of the detector.
    pub score: Binary32,
}

/// A box is finite if and only if all its four edges are.
pub proof fn law_finite_boxes(b: BoundingBox)
    ensures
        b.finite() <==> b.x1.finite() && b.y1.finite() && b.x2.finite() && b.y2.finite(),
{
}

} // verus!
