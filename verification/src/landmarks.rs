//! Facial keypoints.

use vstd::prelude::*;
use vstd::arithmetic::power2::{pow2, lemma2_to64, lemma_pow2_adds, lemma_pow2_pos};
use crate::arithmetic::law_rounding_keeps_exact_values;
use crate::binary32::{Binary32, INFINITY_BITS, MILLI_BITS, NEG_INFINITY_BITS, lemma_magnitude_order};
use crate::detector::DetectedFace;
use crate::error::{FaceIdError, FaceIdErrorView, invalid_model};
use crate::geometry::{about, absolute, law_larger_of_two, law_smaller_of_two, lemma_difference_value, lemma_ranges};
use crate::precision::{law_rounding_keeps_order, lemma_signed_sum_units};

verus! {

/// A point of an image: column and row.
pub type Point = (Binary32, Binary32);

/// Points given as fractions of the width and height, in pixels.
pub open spec fn scaled(points: Seq<Point>, width: Binary32, height: Binary32) -> Seq<Point> {
    points.map_values(|p: Point| (p.0.product(width), p.1.product(height)))
}

/// The smallest of some numbers; NaN does not count.
pub open spec fn least(values: Seq<Binary32>) -> Binary32
    decreases values.len(),
{
    if values.len() == 0 {
        Binary32 { bits: INFINITY_BITS }
    } else {
        least(values.drop_last()).smaller(values.last())
    }
}

/// The largest of some numbers; NaN does not count.
pub open spec fn greatest(values: Seq<Binary32>) -> Binary32
    decreases values.len(),
{
    if values.len() == 0 {
        Binary32 { bits: NEG_INFINITY_BITS }
    } else {
        greatest(values.drop_last()).larger(values.last())
    }
}

pub open spec fn columns(points: Seq<Point>) -> Seq<Binary32> {
    points.map_values(|p: Point| p.0)
}

pub open spec fn rows(points: Seq<Point>) -> Seq<Binary32> {
    points.map_values(|p: Point| p.1)
}

/// The points spread over an area that a face can be aligned to: it is bounded,
/// and at least a thousandth of a pixel long.
pub open spec fn spread_out(points: Seq<Point>) -> bool {
    let (min_x, max_x) = (least(columns(points)), greatest(columns(points)));
    let (min_y, max_y) = (least(rows(points)), greatest(rows(points)));
    &&& min_x.finite() && max_x.finite() && min_y.finite() && max_y.finite()
    &&& !max_x.difference(min_x).larger(max_y.difference(min_y)).below(Binary32 { bits: MILLI_BITS })
}

/// The five keypoints of a face in pixels, or why it cannot be aligned.
#[verifier::opaque]
pub open spec fn keypoints(face: DetectedFace, width: Binary32, height: Binary32) -> Result<Seq<Point>, FaceIdErrorView> {
    match face.landmarks {
        None => Err(FaceIdErrorView::InvalidModel("One or more faces missing landmarks for embedding"@)),
        Some(list) => {
            let points = scaled(list@, width, height);
            if list@.len() != 5 {
                Err(FaceIdErrorView::InvalidModel("Landmarks were not 5-point keypoints"@))
            } else if !spread_out(points) {
                Err(FaceIdErrorView::InvalidModel("Face landmarks are non-finite or degenerate"@))
            } else {
                Ok(points)
            }
        },
    }
}

/// The smallest and the largest of five numbers.
fn extent(a: Binary32, b: Binary32, c: Binary32, d: Binary32, e: Binary32) -> (r: (Binary32, Binary32))
    ensures
        r.0 == least(seq![a, b, c, d, e]),
        r.1 == greatest(seq![a, b, c, d, e]),
{
    proof {
        reveal_with_fuel(least, 6);
        reveal_with_fuel(greatest, 6);
        assert(seq![a, b, c, d, e].drop_last() =~= seq![a, b, c, d]);
        assert(seq![a, b, c, d].drop_last() =~= seq![a, b, c]);
        assert(seq![a, b, c].drop_last() =~= seq![a, b]);
        assert(seq![a, b].drop_last() =~= seq![a]);
        assert(seq![a].drop_last() =~= Seq::<Binary32>::empty());
    }
    let smallest = (Binary32 { bits: INFINITY_BITS }).min(a).min(b).min(c).min(d).min(e);
    let largest = (Binary32 { bits: NEG_INFINITY_BITS }).max(a).max(b).max(c).max(d).max(e);
    (smallest, largest)
}

/// The keypoints of a face in pixels.
pub fn absolute_keypoints(face: &DetectedFace, width: Binary32, height: Binary32) -> (r: Result<[Point; 5], FaceIdError>)
    ensures
        match keypoints(*face, width, height) {
            Ok(points) => r matches Ok(a) && a@ == points,
            Err(error) => r matches Err(e) && e@ == error,
        },
{
    proof {
        reveal(keypoints);
    }
    let list = match &face.landmarks {
        None => {
            return Err(invalid_model("One or more faces missing landmarks for embedding"));
        },
        Some(list) => list,
    };
    if list.len() != 5 {
        return Err(invalid_model("Landmarks were not 5-point keypoints"));
    }
    let p0: Point = (list[0].0.times(width), list[0].1.times(height));
    let p1: Point = (list[1].0.times(width), list[1].1.times(height));
    let p2: Point = (list[2].0.times(width), list[2].1.times(height));
    let p3: Point = (list[3].0.times(width), list[3].1.times(height));
    let p4: Point = (list[4].0.times(width), list[4].1.times(height));
    let (min_x, max_x) = extent(p0.0, p1.0, p2.0, p3.0, p4.0);
    let (min_y, max_y) = extent(p0.1, p1.1, p2.1, p3.1, p4.1);
    let absolute: [Point; 5] = [p0, p1, p2, p3, p4];
    proof {
        let points = scaled(list@, width, height);
        assert(absolute@ =~= points);
        assert(columns(points) =~= seq![p0.0, p1.0, p2.0, p3.0, p4.0]);
        assert(rows(points) =~= seq![p0.1, p1.1, p2.1, p3.1, p4.1]);
    }
    let milli = Binary32 { bits: MILLI_BITS };
    if !min_x.is_finite() || !max_x.is_finite() || !min_y.is_finite() || !max_y.is_finite() || max_x.minus(min_x).max(
        max_y.minus(min_y),
    ).less_than(milli) {
        return Err(invalid_model("Face landmarks are non-finite or degenerate"));
    }
    Ok(absolute)
}

/// The smallest number is not above any of them, and is one of them unless there
/// is none.
pub proof fn law_least_is_the_smallest(values: Seq<Binary32>, i: int)
    requires
        0 <= i < values.len(),
        !values[i].nan(),
    ensures
        !least(values).nan(),
        least(values).units() <= values[i].units(),
        values.contains(least(values)),
    decreases values.len(),
{
    let (front, last) = (values.drop_last(), values.last());
    lemma_infinities();
    law_smaller_of_two(least(front), last);
    if i < front.len() {
        assert(front[i] == values[i]);
        law_least_is_the_smallest(front, i);
        let j = choose|j: int| 0 <= j < front.len() && front[j] == least(front);
        assert(values[j] == least(front));
        assert(values[values.len() - 1] == last);
    } else {
        lemma_least_is_a_number(front);
        if least(values) != last {
            assert(least(front).units() <= last.units());
            assert(least(values) == least(front));
            if !front.contains(least(front)) {
                // Nothing is above infinity.
                lemma_top(last);
            } else {
                let j = choose|j: int| 0 <= j < front.len() && front[j] == least(front);
                assert(values[j] == least(front));
            }
        }
        assert(values[values.len() - 1] == last);
    }
}

/// The largest number is not below any of them, and is one of them unless there is
/// none.
pub proof fn law_greatest_is_the_largest(values: Seq<Binary32>, i: int)
    requires
        0 <= i < values.len(),
        !values[i].nan(),
    ensures
        !greatest(values).nan(),
        greatest(values).units() >= values[i].units(),
        values.contains(greatest(values)),
    decreases values.len(),
{
    let (front, last) = (values.drop_last(), values.last());
    lemma_infinities();
    law_larger_of_two(greatest(front), last);
    if i < front.len() {
        assert(front[i] == values[i]);
        law_greatest_is_the_largest(front, i);
        let j = choose|j: int| 0 <= j < front.len() && front[j] == greatest(front);
        assert(values[j] == greatest(front));
        assert(values[values.len() - 1] == last);
    } else {
        lemma_greatest_is_a_number(front);
        if greatest(values) != last {
            assert(greatest(front).units() >= last.units());
            assert(greatest(values) == greatest(front));
            if !front.contains(greatest(front)) {
                lemma_bottom(last);
            } else {
                let j = choose|j: int| 0 <= j < front.len() && front[j] == greatest(front);
                assert(values[j] == greatest(front));
            }
        }
        assert(values[values.len() - 1] == last);
    }
}

/// The infinities are numbers.
proof fn lemma_infinities()
    ensures
        !(Binary32 { bits: INFINITY_BITS }).nan(),
        !(Binary32 { bits: NEG_INFINITY_BITS }).nan(),
        (Binary32 { bits: INFINITY_BITS }).units() == pow2(277),
        (Binary32 { bits: NEG_INFINITY_BITS }).units() == -pow2(277),
{
    let (top, bottom) = (Binary32 { bits: INFINITY_BITS }, Binary32 { bits: NEG_INFINITY_BITS });
    lemma2_to64();
    assert(top.exponent() == 255 && top.fraction() == 0 && !top.sign_bit());
    assert(bottom.magnitude() == INFINITY_BITS);
    assert(bottom.exponent() == 255 && bottom.fraction() == 0 && bottom.sign_bit());
    lemma_pow2_adds(23, 254);
}

/// The smallest of some numbers is a number: one of them, or infinity.
proof fn lemma_least_is_a_number(values: Seq<Binary32>)
    ensures
        !least(values).nan(),
        values.contains(least(values)) || least(values) == (Binary32 { bits: INFINITY_BITS }),
    decreases values.len(),
{
    lemma_infinities();
    if values.len() > 0 {
        let (front, last) = (values.drop_last(), values.last());
        lemma_least_is_a_number(front);
        law_smaller_of_two(least(front), last);
        assert(values[values.len() - 1] == last);
        if front.contains(least(front)) {
            let j = choose|j: int| 0 <= j < front.len() && front[j] == least(front);
            assert(values[j] == least(front));
        }
    }
}

/// The largest of some numbers is a number: one of them, or negative infinity.
proof fn lemma_greatest_is_a_number(values: Seq<Binary32>)
    ensures
        !greatest(values).nan(),
        values.contains(greatest(values)) || greatest(values) == (Binary32 { bits: NEG_INFINITY_BITS }),
    decreases values.len(),
{
    lemma_infinities();
    if values.len() > 0 {
        let (front, last) = (values.drop_last(), values.last());
        lemma_greatest_is_a_number(front);
        law_larger_of_two(greatest(front), last);
        assert(values[values.len() - 1] == last);
        if front.contains(greatest(front)) {
            let j = choose|j: int| 0 <= j < front.len() && front[j] == greatest(front);
            assert(values[j] == greatest(front));
        }
    }
}

/// Only infinity is not below infinity.
proof fn lemma_top(a: Binary32)
    requires
        !a.nan(),
        a.units() >= pow2(277),
    ensures
        a == (Binary32 { bits: INFINITY_BITS }),
{
    let top = Binary32 { bits: INFINITY_BITS };
    lemma_infinities();
    lemma_pow2_pos(277);
    if a.magnitude() < top.magnitude() {
        lemma_magnitude_order(a, top);
    }
}

/// Only negative infinity is not above negative infinity.
proof fn lemma_bottom(a: Binary32)
    requires
        !a.nan(),
        a.units() <= -pow2(277),
    ensures
        a == (Binary32 { bits: NEG_INFINITY_BITS }),
{
    let top = Binary32 { bits: INFINITY_BITS };
    lemma_infinities();
    lemma_pow2_pos(277);
    if a.magnitude() < top.magnitude() {
        lemma_magnitude_order(a, top);
    }
}

/// All coordinates are finite, and no larger than 2^121.
pub open spec fn moderate(points: Seq<Point>) -> bool {
    forall|k: int|
        0 <= k < points.len() ==> {
            let p = #[trigger] points[k];
            p.0.finite() && p.1.finite() && absolute(p.0.units()) <= pow2(270) && absolute(p.1.units()) <= pow2(270)
        }
}

/// The smallest and the largest coordinate of some points, and how far apart they are.
proof fn lemma_extent(points: Seq<Point>)
    requires
        points.len() > 0,
        moderate(points),
    ensures
        ({
            let (min_x, max_x) = (least(columns(points)), greatest(columns(points)));
            let (min_y, max_y) = (least(rows(points)), greatest(rows(points)));
            &&& min_x.finite() && max_x.finite() && min_y.finite() && max_y.finite()
            &&& 0 <= max_x.units() - min_x.units() < pow2(272)
            &&& 0 <= max_y.units() - min_y.units() < pow2(272)
            &&& columns(points).contains(min_x) && columns(points).contains(max_x)
            &&& rows(points).contains(min_y) && rows(points).contains(max_y)
            &&& forall|k: int|
                0 <= k < points.len() ==> {
                    let p = #[trigger] points[k];
                    min_x.units() <= p.0.units() <= max_x.units() && min_y.units() <= p.1.units() <= max_y.units()
                }
        }),
{
    let (xs, ys) = (columns(points), rows(points));
    lemma_ranges();
    assert forall|k: int| 0 <= k < points.len() implies {
        let p = #[trigger] points[k];
        &&& least(xs).units() <= p.0.units() <= greatest(xs).units()
        &&& least(ys).units() <= p.1.units() <= greatest(ys).units()
    } by {
        assert(xs[k] == points[k].0 && ys[k] == points[k].1);
        law_least_is_the_smallest(xs, k);
        law_least_is_the_smallest(ys, k);
        law_greatest_is_the_largest(xs, k);
        law_greatest_is_the_largest(ys, k);
    }
    assert(xs[0] == points[0].0 && ys[0] == points[0].1);
    law_least_is_the_smallest(xs, 0);
    law_least_is_the_smallest(ys, 0);
    law_greatest_is_the_largest(xs, 0);
    law_greatest_is_the_largest(ys, 0);
    let i = choose|i: int| 0 <= i < xs.len() && xs[i] == least(xs);
    let j = choose|j: int| 0 <= j < xs.len() && xs[j] == greatest(xs);
    let a = choose|a: int| 0 <= a < ys.len() && ys[a] == least(ys);
    let b = choose|b: int| 0 <= b < ys.len() && ys[b] == greatest(ys);
    assert(points[i].0 == least(xs) && points[j].0 == greatest(xs));
    assert(points[a].1 == least(ys) && points[b].1 == greatest(ys));
}

/// A thousandth, as near as a number comes to it.
proof fn lemma_milli()
    ensures
        (Binary32 { bits: MILLI_BITS }).finite(),
        0 < (Binary32 { bits: MILLI_BITS }).units() < pow2(149),
        about(1000 * (Binary32 { bits: MILLI_BITS }).units(), pow2(149) as int, pow2(149) as int),
{
    let milli = Binary32 { bits: MILLI_BITS };
    lemma2_to64();
    assert(milli.exponent() == 117 && milli.fraction() == 0x3_126f);
    assert(0x80_0000 + milli.fraction() == 0x83_126f);
    assert((milli.exponent() - 1) as nat == 116);
    assert(milli.abs_units() == 0x83_126f * pow2(116));
    lemma_pow2_adds(33, 116);
    lemma_pow2_adds(1, 32);
    lemma_pow2_pos(116);
    assert(pow2(149) == 0x2_0000_0000 * pow2(116));
}

/// Points of which two lie a thousandth of a pixel apart on one of the axes are
/// spread out far enough.
pub proof fn law_points_apart_are_spread_out(points: Seq<Point>, i: int, j: int)
    requires
        moderate(points),
        0 <= i < points.len(),
        0 <= j < points.len(),
        ({
            let apart = (Binary32 { bits: MILLI_BITS }).units();
            points[i].0.units() - points[j].0.units() >= apart || points[i].1.units() - points[j].1.units() >= apart
        }),
    ensures
        spread_out(points),
{
    lemma_extent(points);
    lemma_milli();
    let (min_x, max_x) = (least(columns(points)), greatest(columns(points)));
    let (min_y, max_y) = (least(rows(points)), greatest(rows(points)));
    lemma_distance(max_x, min_x);
    lemma_distance(max_y, min_y);
    law_larger_of_two(max_x.difference(min_x), max_y.difference(min_y));
}

/// The rounded distance of two numbers reaches a number if the exact one does.
proof fn lemma_distance(a: Binary32, b: Binary32)
    requires
        a.finite(),
        b.finite(),
        0 <= a.units() - b.units() < pow2(272),
    ensures
        a.difference(b).finite(),
        a.units() - b.units() >= (Binary32 { bits: MILLI_BITS }).units() ==> a.difference(b).units() >= (Binary32 {
            bits: MILLI_BITS,
        }).units(),
        about(a.difference(b).units(), a.units() - b.units(), a.units() - b.units()),
{
    let milli = Binary32 { bits: MILLI_BITS };
    lemma_milli();
    lemma_ranges();
    lemma_difference_value(a, b);
    let c = b.signed(!b.sign_bit());
    assert(c.magnitude() == b.magnitude());
    assert(c.units() == -b.units());
    let n = (a.units() - b.units()) as nat;
    lemma_signed_sum_units(a, c, n);
    let t = milli.abs_units();
    law_rounding_keeps_exact_values(milli, 1);
    assert(t * 1 == t);
    if t <= n {
        law_rounding_keeps_order(t, n, 1);
    }
}

/// Points that lie closer together than a thousandth of a pixel on both axes are
/// not spread out, up to one part in 2^24.
pub proof fn law_points_in_one_place_are_not_spread_out(points: Seq<Point>)
    requires
        points.len() > 0,
        moderate(points),
        forall|i: int, j: int|
            #![trigger points[i], points[j]]
            0 <= i < points.len() && 0 <= j < points.len() ==> {
                let apart = (Binary32 { bits: MILLI_BITS }).units();
                &&& 0x100_0000 * (points[i].0.units() - points[j].0.units()) < 0xff_ffff * apart
                &&& 0x100_0000 * (points[i].1.units() - points[j].1.units()) < 0xff_ffff * apart
            },
    ensures
        !spread_out(points),
{
    lemma_extent(points);
    lemma_milli();
    let (xs, ys) = (columns(points), rows(points));
    let (min_x, max_x) = (least(xs), greatest(xs));
    let (min_y, max_y) = (least(ys), greatest(ys));
    lemma_distance(max_x, min_x);
    lemma_distance(max_y, min_y);
    law_larger_of_two(max_x.difference(min_x), max_y.difference(min_y));
    let i = choose|i: int| 0 <= i < xs.len() && xs[i] == min_x;
    let j = choose|j: int| 0 <= j < xs.len() && xs[j] == max_x;
    let a = choose|a: int| 0 <= a < ys.len() && ys[a] == min_y;
    let b = choose|b: int| 0 <= b < ys.len() && ys[b] == max_y;
    assert(points[i].0 == min_x && points[j].0 == max_x);
    assert(points[a].1 == min_y && points[b].1 == max_y);
}

/// A face can be aligned only by five keypoints. In pixels each is its fraction of
/// the width and height, in the same order, and none of them lies at infinity.
pub proof fn law_keypoints_of_a_face(face: DetectedFace, width: Binary32, height: Binary32, k: int)
    requires
        0 <= k < 5,
    ensures
        ({
            let r = keypoints(face, width, height);
            &&& face.landmarks is None ==> r == Err::<Seq<Point>, FaceIdErrorView>(
                FaceIdErrorView::InvalidModel("One or more faces missing landmarks for embedding"@),
            )
            &&& face.landmarks matches Some(list) ==> {
                &&& list@.len() != 5 ==> r == Err::<Seq<Point>, FaceIdErrorView>(
                    FaceIdErrorView::InvalidModel("Landmarks were not 5-point keypoints"@),
                )
                &&& list@.len() == 5 ==> (r is Ok || r == Err::<Seq<Point>, FaceIdErrorView>(
                    FaceIdErrorView::InvalidModel("Face landmarks are non-finite or degenerate"@),
                ))
            }
            &&& r matches Ok(points) ==> {
                &&& face.landmarks is Some && face.landmarks->0@.len() == 5
                &&& points.len() == 5
                &&& points[k] == (face.landmarks->0@[k].0.product(width), face.landmarks->0@[k].1.product(height))
                &&& points[k].0.nan() || points[k].0.finite()
                &&& points[k].1.nan() || points[k].1.finite()
            }
        }),
{
    reveal(keypoints);
    lemma_infinities();
    lemma_pow2_pos(277);
    if let Ok(points) = keypoints(face, width, height) {
        let (xs, ys) = (columns(points), rows(points));
        assert(xs[k] == points[k].0 && ys[k] == points[k].1);
        if !points[k].0.nan() {
            law_least_is_the_smallest(xs, k);
            law_greatest_is_the_largest(xs, k);
            lemma_between_finite(least(xs), points[k].0, greatest(xs));
        }
        if !points[k].1.nan() {
            law_least_is_the_smallest(ys, k);
            law_greatest_is_the_largest(ys, k);
            lemma_between_finite(least(ys), points[k].1, greatest(ys));
        }
    }
}

/// What lies between finite numbers is finite.
proof fn lemma_between_finite(a: Binary32, b: Binary32, c: Binary32)
    requires
        a.finite(),
        c.finite(),
        !b.nan(),
        a.units() <= b.units() <= c.units(),
    ensures
        b.finite(),
{
    let top = Binary32 { bits: INFINITY_BITS };
    lemma_infinities();
    lemma_pow2_pos(277);
    lemma_magnitude_order(a, top);
    lemma_magnitude_order(c, top);
}

/// A face with five keypoints of which two lie a thousandth of a pixel apart can be
/// aligned, and one whose keypoints all lie in one place cannot.
pub proof fn law_keypoints_that_can_be_aligned(face: DetectedFace, width: Binary32, height: Binary32, i: int, j: int)
    requires
        face.landmarks matches Some(list) && list@.len() == 5,
        ({
            let list = face.landmarks->0@;
            let points = Seq::new(5, |k: int| (list[k].0.product(width), list[k].1.product(height)));
            moderate(points)
        }),
        0 <= i < 5,
        0 <= j < 5,
    ensures
        ({
            let list = face.landmarks->0@;
            let apart = (Binary32 { bits: MILLI_BITS }).units();
            let dx = list[i].0.product(width).units() - list[j].0.product(width).units();
            let dy = list[i].1.product(height).units() - list[j].1.product(height).units();
            &&& dx >= apart || dy >= apart ==> keypoints(face, width, height) is Ok
            &&& about(1000 * apart, pow2(149) as int, pow2(149) as int)
        }),
        (forall|a: int, b: int|
            #![trigger face.landmarks->0@[a], face.landmarks->0@[b]]
            0 <= a < 5 && 0 <= b < 5 ==> {
                let (p, q) = (face.landmarks->0@[a], face.landmarks->0@[b]);
                let apart = (Binary32 { bits: MILLI_BITS }).units();
                &&& 0x100_0000 * (p.0.product(width).units() - q.0.product(width).units()) < 0xff_ffff * apart
                &&& 0x100_0000 * (p.1.product(height).units() - q.1.product(height).units()) < 0xff_ffff * apart
            }) ==> keypoints(face, width, height) is Err,
{
    reveal(keypoints);
    lemma_milli();
    let list = face.landmarks->0@;
    let points = scaled(list, width, height);
    assert(points =~= Seq::new(5, |k: int| (list[k].0.product(width), list[k].1.product(height))));
    let apart = (Binary32 { bits: MILLI_BITS }).units();
    if points[i].0.units() - points[j].0.units() >= apart || points[i].1.units() - points[j].1.units() >= apart {
        law_points_apart_are_spread_out(points, i, j);
    }
    if forall|a: int, b: int|
        #![trigger face.landmarks->0@[a], face.landmarks->0@[b]]
        0 <= a < 5 && 0 <= b < 5 ==> {
            let (p, q) = (face.landmarks->0@[a], face.landmarks->0@[b]);
            &&& 0x100_0000 * (p.0.product(width).units() - q.0.product(width).units()) < 0xff_ffff * apart
            &&& 0x100_0000 * (p.1.product(height).units() - q.1.product(height).units()) < 0xff_ffff * apart
        } {
        assert forall|a: int, b: int|
            #![trigger points[a], points[b]]
            0 <= a < points.len() && 0 <= b < points.len() implies {
            &&& 0x100_0000 * (points[a].0.units() - points[b].0.units()) < 0xff_ffff * apart
            &&& 0x100_0000 * (points[a].1.units() - points[b].1.units()) < 0xff_ffff * apart
        } by {
            assert(points[a] == (list[a].0.product(width), list[a].1.product(height)));
            assert(points[b] == (list[b].0.product(width), list[b].1.product(height)));
        }
        law_points_in_one_place_are_not_spread_out(points);
    }
}

} // verus!
