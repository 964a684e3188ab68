//! Gender and age of a face.

use vstd::prelude::*;
use vstd::arithmetic::div_mod::{lemma_fundamental_div_mod, lemma_fundamental_div_mod_converse, lemma_mod_pos_bound};
use vstd::arithmetic::power2::{pow2, lemma2_to64, lemma_pow2_adds, lemma_pow2_pos, lemma_pow2_strictly_increases, lemma_pow2_unfold};
use crate::arithmetic::{lemma_round_zero, lemma_rounded, rounded};
use crate::binary32::{Binary32, HALF_BITS, HUNDRED_BITS, INFINITY_BITS, ONE_AND_A_HALF_BITS, round24, whole};
use crate::crop::{crop_square, drawable, flat, in_pixels, middle, square_side};
use crate::detector::BoundingBox;
use crate::error::{FaceIdError, FaceIdErrorView, invalid_model, viewed};
use crate::precision::{law_rounding_is_to_nearest, lemma_round_absolute};
use crate::preprocess::{all_square, byte_table, byte_value, first_misfit, holds_images, image_tensor, lemma_same_scale, misfit_error, square};
use crate::raster::{RgbImage, converted};
use crate::sampling::{bilinear, sample_square};
use crate::session::{input_name, usable_input};
use crate::tensor::{ModelOutput, Tensor4, lemma_two_axes};
use crate::text::{append_bracketed, bracketed, decimal, numbered};

verus! {

#[derive(Clone, Copy, Debug, PartialEq, Eq, Structural)]
pub enum Gender {
    Female,
    Male,
}

#[derive(Clone, Copy, Debug, PartialEq, Eq, Structural)]
pub struct GenderAge {
    pub gender: Gender,
    pub age: u8,
}

/// The width and height of the images that the model takes.
pub const INPUT_SIZE: u32 = 96;

/// What the model says of one face: how likely it is female and male, and its
/// age in centuries.
pub struct AttributeRow {
    pub female: Binary32,
    pub male: Binary32,
    pub age: Binary32,
}

/// The values for face `i`, of three values per face.
pub open spec fn attribute_row(data: Seq<Binary32>, i: int) -> AttributeRow {
    AttributeRow { female: data[3 * i], male: data[3 * i + 1], age: data[3 * i + 2] }
}

impl AttributeRow {
    pub open spec fn finite(self) -> bool {
        self.female.finite() && self.male.finite() && self.age.finite()
    }

    /// Male where that is the likelier of the two, else female; the age in
    /// years, rounded to a whole number from 0 to 100.
    pub open spec fn attributes(self) -> GenderAge {
        GenderAge {
            gender: if self.female.below(self.male) {
                Gender::Male
            } else {
                Gender::Female
            },
            age: rounded_age(self.age.product(Binary32 { bits: HUNDRED_BITS })),
        }
    }
}

/// An age in years as the nearest whole number, halves up, within 0 to 100.
pub open spec fn rounded_age(years: Binary32) -> u8 {
    if years.units() <= 0 {
        0
    } else if years.units() >= 100 * pow2(149) {
        100
    } else {
        ((years.units() + pow2(148)) / pow2(149) as int) as u8
    }
}

fn round_age(years: Binary32) -> (r: u8)
    requires
        !years.nan(),
    ensures
        r == rounded_age(years),
        r <= 100,
{
    let hundred = Binary32 { bits: HUNDRED_BITS };
    let half = Binary32 { bits: HALF_BITS };
    proof {
        lemma2_to64();
        lemma_pow2_pos(148);
        lemma_pow2_unfold(149);
        assert(hundred.exponent() == 133 && hundred.fraction() == 0x48_0000);
        assert(0x80_0000 + hundred.fraction() == 0xc8_0000);
        assert((hundred.exponent() - 1) as nat == 132);
        lemma_pow2_adds(17, 132);
        assert(hundred.abs_units() == 0xc8_0000 * pow2(132));
        assert(hundred.units() == 100 * pow2(149));
        assert(half.exponent() == 126 && half.fraction() == 0);
        assert(0x80_0000 + half.fraction() == 0x80_0000);
        assert((half.exponent() - 1) as nat == 125);
        lemma_pow2_adds(23, 125);
        assert(half.abs_units() == 0x80_0000 * pow2(125));
        assert(half.units() == pow2(148));
    }
    if years.is_at_most_zero() {
        return 0;
    }
    if !years.less_than(hundred) {
        return 100;
    }
    proof {
        assert(years.finite()) by {
            if !years.finite() {
                assert(years.fraction() == 0);
                assert(0x80_0000 + years.fraction() == 0x80_0000);
                assert((years.exponent() - 1) as nat == 254);
                assert(years.abs_units() == 0x80_0000 * pow2(254));
                lemma_pow2_strictly_increases(149, 254);
            }
        }
        let one = pow2(149) as int;
        assert(years.units() / one < 100) by (nonlinear_arith)
            requires 0 < years.units() < 100 * one, one > 0;
    }
    let w: u32 = years.floor();
    let rest = years.fractional_part();
    proof {
        let one = pow2(149) as int;
        let h = pow2(148) as int;
        let u = years.units();
        lemma_fundamental_div_mod(u, one);
        lemma_mod_pos_bound(u, one);
        assert(one * w == w * one) by (nonlinear_arith);
        if rest.units() < h {
            lemma_fundamental_div_mod_converse(u + h, one, w as int, rest.units() + h);
        } else {
            assert((w + 1) * one == w * one + one) by (nonlinear_arith);
            lemma_fundamental_div_mod_converse(u + h, one, w + 1, rest.units() - h);
        }
    }
    if rest.less_than(half) {
        w as u8
    } else {
        (w + 1) as u8
    }
}

/// The first `i` faces have finite values.
pub open spec fn finite_until(data: Seq<Binary32>, i: int) -> bool {
    forall|k: int| 0 <= k < i ==> (#[trigger] attribute_row(data, k)).finite()
}

/// Face `i` is the first one with a value that is not finite.
pub open spec fn first_non_finite(data: Seq<Binary32>, n: int, i: int) -> bool {
    0 <= i < n && !attribute_row(data, i).finite() && finite_until(data, i)
}

/// What the first output of the model says of `n` faces.
pub open spec fn decoded(output: Option<ModelOutput>, n: nat) -> Result<Seq<GenderAge>, FaceIdErrorView> {
    match output {
        None => Err(FaceIdErrorView::InvalidModel("Gender/age model produced no outputs"@)),
        Some(o) => {
            let shape = o.spec_shape();
            if shape.len() != 2 || shape[0] != n || shape[1] != 3 {
                Err(
                    FaceIdErrorView::Ort(
                        "GenderAge output shape mismatch: expected ["@ + decimal(n) + ", 3], got "@ + bracketed(shape),
                    ),
                )
            } else if finite_until(o.spec_data(), n as int) {
                Ok(Seq::new(n, |i: int| attribute_row(o.spec_data(), i).attributes()))
            } else {
                let i = choose|i: int| first_non_finite(o.spec_data(), n as int, i);
                Err(
                    FaceIdErrorView::InvalidModel(
                        "Gender/age model produced non-finite values for batch item "@ + decimal(i as nat),
                    ),
                )
            }
        },
    }
}

/// Where a crop of `size` pixels, centred on `centre` and showing `side` source
/// pixels, takes its pixel number `i` from.
pub open spec fn crop_coordinate(centre: Binary32, side: Binary32, size: u32, i: u32) -> Binary32 {
    let half = Binary32 { bits: HALF_BITS };
    whole(i).difference(whole(size).product(half)).fused(side.quotient(whole(size)), centre)
}

/// `out` shows the face in the box, on a square half as long again as the box.
pub open spec fn shows_face(out: RgbImage, img: &RgbImage, bbox: &BoundingBox, size: u32) -> bool {
    let (w, h) = (img.spec_width(), img.spec_height());
    let b = in_pixels(bbox, w, h);
    let side = square_side(b, Binary32 { bits: ONE_AND_A_HALF_BITS });
    &&& out.spec_width() == size
    &&& out.spec_height() == size
    &&& if !drawable(w, h, bbox, size) || flat(b) {
        out.black()
    } else {
        forall|px: int, py: int|
            0 <= px < size && 0 <= py < size ==> #[trigger] out.pixel(px, py) == bilinear(
                img,
                crop_coordinate(middle(b.x1, b.x2), side, size, px as u32),
                crop_coordinate(middle(b.y1, b.y2), side, size, py as u32),
            )
    }
}

/// The tensor holds the crop of the face in the box, and nothing else.
pub open spec fn shows_crop(t: Tensor4, img: image::DynamicImage, bbox: &BoundingBox) -> bool {
    exists|rgb: RgbImage, crop: RgbImage|
        {
            &&& converted(rgb, img)
            &&& #[trigger] shows_face(crop, &rgb, bbox, INPUT_SIZE)
            &&& holds_images(t, seq![crop], INPUT_SIZE, byte_value())
        }
}

/// The coordinates of all pixels of a crop along one axis.
fn crop_coordinates(centre: Binary32, side: Binary32, size: u32) -> (r: Vec<Binary32>)
    ensures
        r@.len() == size,
        forall|i: int| 0 <= i < size ==> #[trigger] r@[i] == crop_coordinate(centre, side, size, i as u32),
{
    let output_size = Binary32::from_u32(size);
    let scale = side.over(output_size);
    let output_centre = output_size.times(Binary32 { bits: HALF_BITS });
    let mut r: Vec<Binary32> = Vec::new();
    let mut i: u32 = 0;
    while i < size
        invariant
            i <= size,
            r@.len() == i,
            scale == side.quotient(whole(size)),
            output_centre == whole(size).product(Binary32 { bits: HALF_BITS }),
            forall|k: int| 0 <= k < i ==> #[trigger] r@[k] == crop_coordinate(centre, side, size, k as u32),
        decreases size - i,
    {
        r.push(Binary32::from_u32(i).minus(output_centre).times_plus(scale, centre));
        i = i + 1;
    }
    r
}

/// The gender and age model.
pub struct GenderAgeEstimator {
    pub session: ort::session::Session,
    pub input_name: String,
}

/// What comes of handing a batch of images that fit to the model: for some
/// answer of the model to the tensor that holds them, the answer decoded.
pub open spec fn answered<F: FnOnce(Tensor4) -> Result<Option<ModelOutput>, FaceIdError>>(
    run: F,
    imgs: Seq<RgbImage>,
    result: Result<Seq<GenderAge>, FaceIdErrorView>,
) -> bool {
    exists|t: Tensor4, answer: Result<Option<ModelOutput>, FaceIdError>|
        #![trigger call_ensures(run, (t,), answer)]
        {
            &&& holds_images(t, imgs, INPUT_SIZE, byte_value())
            &&& call_ensures(run, (t,), answer)
            &&& result == (match answer {
                Ok(output) => decoded(output, imgs.len()),
                Err(e) => Err(e@),
            })
        }
}

impl GenderAgeEstimator {
    /// The estimator for a loaded model. The model has to have an input and an output.
    pub fn new(session: ort::session::Session) -> (r: Result<GenderAgeEstimator, FaceIdError>)
        ensures
            match usable_input(session, "Gender/age model has no inputs"@, "Gender/age model has no outputs"@) {
                Ok(name) => r matches Ok(e) && e.session == session && e.input_name@ == name,
                Err(error) => r matches Err(e) && e@ == error,
            },
    {
        match input_name(&session, "Gender/age model has no inputs", "Gender/age model has no outputs") {
            Ok(input_name) => Ok(GenderAgeEstimator { session, input_name }),
            Err(e) => Err(e),
        }
    }

    /// A square crop around the box, half as long again as its longer side, so
    /// that the model sees some context. Outside the image the crop is black.
    #[must_use]
    pub fn align_crop(img: &RgbImage, bbox: &BoundingBox, output_size: u32) -> (out: RgbImage)
        requires
            3 * (output_size * output_size) <= isize::MAX,
        ensures
            shows_face(out, img, bbox, output_size),
    {
        let (w, h) = img.dimensions();
        match crop_square(w, h, bbox, output_size, Binary32 { bits: ONE_AND_A_HALF_BITS }) {
            None => RgbImage::new(output_size, output_size),
            Some(square) => {
                let columns = crop_coordinates(square.cx, square.side, output_size);
                let rows = crop_coordinates(square.cy, square.side, output_size);
                sample_square(img, output_size, &columns, &rows)
            },
        }
    }

    /// The model input for a batch of images, with the bytes as they are.
    pub fn create_input_tensor_batch(imgs: &[RgbImage]) -> (r: Result<Tensor4, FaceIdError>)
        requires
            imgs@.len() * 3 * 96 * 96 * 4 <= isize::MAX,
        ensures
            r is Ok <==> all_square(imgs@, INPUT_SIZE),
            r matches Ok(t) ==> holds_images(t, imgs@, INPUT_SIZE, byte_value()),
            r matches Err(e) ==> exists|i: int| #[trigger] first_misfit(imgs@, INPUT_SIZE, i) && e@ == misfit_error(
                "GenderAge requires 96x96 input, got "@,
                imgs@[i],
            ),
    {
        let table = byte_table();
        let no_slice = FaceIdError::FailedToGetMutableSlice("Failed to get mutable slice from array".to_owned());
        let r = image_tensor(imgs, INPUT_SIZE, &table, "GenderAge requires 96x96 input, got ", no_slice);
        proof {
            if r is Ok {
                lemma_same_scale(r->Ok_0, imgs@, INPUT_SIZE, |b: u8| table@[b as int], byte_value());
            }
        }
        r
    }

    /// The model input for one image.
    pub fn create_input_tensor(img: &RgbImage) -> (r: Result<Tensor4, FaceIdError>)
        ensures
            r is Ok <==> square(*img, INPUT_SIZE),
            r matches Ok(t) ==> holds_images(t, seq![*img], INPUT_SIZE, byte_value()),
            r matches Err(e) ==> e@ == misfit_error("GenderAge requires 96x96 input, got "@, *img),
    {
        let imgs = std::slice::from_ref(img);
        let r = Self::create_input_tensor_batch(imgs);
        assert(imgs@[0] == *img);
        r
    }

    /// Estimates gender and age for a batch of cropped face images. `run` hands
    /// the tensor to the model and answers with its first output, if any. It is
    /// called only for images that fit, with a tensor that holds them.
    pub fn estimate_batch<F: FnOnce(Tensor4) -> Result<Option<ModelOutput>, FaceIdError>>(
        face_imgs: &[RgbImage],
        run: F,
    ) -> (r: Result<Vec<GenderAge>, FaceIdError>)
        requires
            face_imgs@.len() * 3 * 96 * 96 * 4 <= isize::MAX,
            face_imgs@.len() > 0 && all_square(face_imgs@, INPUT_SIZE) ==> (forall|t: Tensor4|
                holds_images(t, face_imgs@, INPUT_SIZE, byte_value()) ==> #[trigger] call_requires(run, (t,))),
        ensures
            face_imgs@.len() == 0 ==> viewed(r) == Ok::<Seq<GenderAge>, FaceIdErrorView>(Seq::empty()),
            face_imgs@.len() > 0 && all_square(face_imgs@, INPUT_SIZE) ==> answered(run, face_imgs@, viewed(r)),
            !all_square(face_imgs@, INPUT_SIZE) ==> (r matches Err(e) && exists|i: int| #[trigger]
                first_misfit(face_imgs@, INPUT_SIZE, i) && e@ == misfit_error(
                    "GenderAge requires 96x96 input, got "@,
                    face_imgs@[i],
                )),
    {
        if face_imgs.len() == 0 {
            return Ok(Vec::new());
        }
        let tensor = match Self::create_input_tensor_batch(face_imgs) {
            Ok(t) => t,
            Err(e) => {
                return Err(e);
            },
        };
        match run(tensor) {
            Ok(output) => Self::decode(&output, face_imgs.len()),
            Err(e) => Err(e),
        }
    }

    /// Estimates gender and age from an image and a detected face bounding box.
    pub fn estimate<F: FnOnce(Tensor4) -> Result<Option<ModelOutput>, FaceIdError>>(
        img: &image::DynamicImage,
        bbox: &BoundingBox,
        run: F,
    ) -> (r: Result<GenderAge, FaceIdError>)
        requires
            forall|t: Tensor4| shows_crop(t, *img, bbox) ==> #[trigger] call_requires(run, (t,)),
        ensures
            exists|rgb: RgbImage, crop: RgbImage, result: Result<Seq<GenderAge>, FaceIdErrorView>|
                #![trigger shows_face(crop, &rgb, bbox, INPUT_SIZE), answered(run, seq![crop], result)]
                {
                    &&& converted(rgb, *img)
                    &&& shows_face(crop, &rgb, bbox, INPUT_SIZE)
                    &&& answered(run, seq![crop], result)
                    &&& match result {
                        Ok(list) => list.len() == 1 && r == Ok::<GenderAge, FaceIdError>(list[0]),
                        Err(error) => r matches Err(e) && e@ == error,
                    }
                },
    {
        let rgb = RgbImage::from_dynamic(img);
        let crop = Self::align_crop(&rgb, bbox, INPUT_SIZE);
        let crops = std::slice::from_ref(&crop);
        assert(crops@ == seq![crop]);
        assert(shows_face(crop, &rgb, bbox, INPUT_SIZE));
        let result = Self::estimate_batch(crops, run);
        assert(all_square(crops@, INPUT_SIZE));
        assert(answered(run, seq![crop], viewed(result)));
        match result {
            Ok(list) => Ok(list[0]),
            Err(e) => Err(e),
        }
    }

    /// Reads the first output of the model for `batch_size` faces.
    pub fn decode(output: &Option<ModelOutput>, batch_size: usize) -> (r: Result<Vec<GenderAge>, FaceIdError>)
        ensures
            viewed(r) == decoded(*output, batch_size as nat),
    {
        let first = match output {
            None => {
                return Err(invalid_model("Gender/age model produced no outputs"));
            },
            Some(o) => o,
        };
        let shape = first.shape();
        if shape.len() != 2 || shape[0] != batch_size || shape[1] != 3 {
            let mut text = numbered("GenderAge output shape mismatch: expected [", batch_size, ", 3], got ");
            append_bracketed(&mut text, shape);
            return Err(FaceIdError::Ort(text));
        }
        let data = first.data();
        proof {
            lemma_two_axes(shape@);
            assert(data@.len() == batch_size * 3);
            assert(data.len() <= usize::MAX);
        }
        let mut results: Vec<GenderAge> = Vec::new();
        let mut i: usize = 0;
        while i < batch_size
            invariant
                i <= batch_size,
                data@.len() == batch_size * 3,
                data@.len() <= usize::MAX,
                data@ == first.spec_data(),
                *output == Some(*first),
                first.spec_shape().len() == 2,
                first.spec_shape()[0] == batch_size,
                first.spec_shape()[1] == 3,
                results@.len() == i,
                finite_until(data@, i as int),
                forall|k: int| 0 <= k < i ==> #[trigger] results@[k] == attribute_row(data@, k).attributes(),
            decreases batch_size - i,
        {
            let female = data[3 * i];
            let male = data[3 * i + 1];
            let age = data[3 * i + 2];
            if !female.is_finite() || !male.is_finite() || !age.is_finite() {
                proof {
                    assert(first_non_finite(data@, batch_size as int, i as int));
                    let j = choose|j: int| first_non_finite(data@, batch_size as int, j);
                    assert(j == i) by {
                        if j < i {
                            assert(attribute_row(data@, j).finite());
                        } else if i < j {
                            assert(attribute_row(data@, i as int).finite());
                        }
                    }
                    assert(!finite_until(data@, batch_size as int));
                    reveal_strlit("");
                }
                return Err(
                    FaceIdError::InvalidModel(
                        numbered("Gender/age model produced non-finite values for batch item ", i, ""),
                    ),
                );
            }
            let gender = if female.less_than(male) {
                Gender::Male
            } else {
                Gender::Female
            };
            let years = age.times(Binary32 { bits: HUNDRED_BITS });
            results.push(GenderAge { gender, age: round_age(years) });
            i = i + 1;
        }
        assert(results@ =~= decoded(*output, batch_size as nat)->Ok_0);
        Ok(results)
    }
}

/// There is one result for each face, and no age is above 100 years.
pub proof fn law_one_result_per_face(output: Option<ModelOutput>, n: nat)
    ensures
        decoded(output, n) matches Ok(list) ==> {
            &&& list.len() == n
            &&& forall|i: int| 0 <= i < n ==> (#[trigger] list[i]).age <= 100
        },
{
    if decoded(output, n) is Ok {
        let data = output->0.spec_data();
        let list = decoded(output, n)->Ok_0;
        assert forall|i: int| 0 <= i < n implies (#[trigger] list[i]).age <= 100 by {
            lemma_age(attribute_row(data, i));
        }
    }
}

proof fn lemma_age(row: AttributeRow)
    ensures
        row.attributes().age <= 100,
{
    let years = row.age.product(Binary32 { bits: HUNDRED_BITS });
    let one = pow2(149) as int;
    let half = pow2(148) as int;
    lemma_pow2_pos(148);
    lemma_pow2_unfold(149);
    let u = years.units();
    if 0 < u < 100 * one {
        let q = (u + half) / one;
        assert(0 <= q <= 100) by (nonlinear_arith)
            requires q == (u + half) / one, 0 < u < 100 * one, one == 2 * half, half > 0;
    }
}

/// A face is taken for male only where that is strictly the likelier.
pub proof fn law_ties_are_female(row: AttributeRow)
    requires
        row.female.units() == row.male.units(),
    ensures
        row.attributes().gender == Gender::Female,
{
}

/// An answer is accepted if and only if it has three finite values for each face.
pub proof fn law_accepted_answers(output: Option<ModelOutput>, n: nat)
    ensures
        decoded(output, n) is Ok <==> (output matches Some(o) && o.spec_shape().len() == 2 && o.spec_shape()[0] == n
            && o.spec_shape()[1] == 3 && forall|k: int| 0 <= k < 3 * n ==> (#[trigger] o.spec_data()[k]).finite()),
{
    if output is Some {
        let data = output->0.spec_data();
        if finite_until(data, n as int) {
            assert forall|k: int| 0 <= k < 3 * n implies (#[trigger] data[k]).finite() by {
                assert(attribute_row(data, k / 3).finite());
            }
        }
        if (forall|k: int| 0 <= k < 3 * n ==> (#[trigger] data[k]).finite()) {
            assert forall|k: int| 0 <= k < n implies (#[trigger] attribute_row(data, k)).finite() by {
                assert(data[3 * k].finite() && data[3 * k + 1].finite() && data[3 * k + 2].finite());
            }
        }
    }
}

/// The first face with a value that is not finite is the one that is named.
pub proof fn law_first_bad_face_is_named(output: Option<ModelOutput>, n: nat, i: int)
    requires
        output is Some,
        output->0.spec_shape().len() == 2,
        output->0.spec_shape()[0] == n,
        output->0.spec_shape()[1] == 3,
        0 <= i < n,
        !(output->0.spec_data()[3 * i].finite() && output->0.spec_data()[3 * i + 1].finite()
            && output->0.spec_data()[3 * i + 2].finite()),
        forall|k: int| 0 <= k < 3 * i ==> (#[trigger] output->0.spec_data()[k]).finite(),
    ensures
        decoded(output, n) == Err::<Seq<GenderAge>, FaceIdErrorView>(
            FaceIdErrorView::InvalidModel(
                "Gender/age model produced non-finite values for batch item "@ + decimal(i as nat),
            ),
        ),
{
    let data = output->0.spec_data();
    assert forall|k: int| 0 <= k < i implies (#[trigger] attribute_row(data, k)).finite() by {
        assert(data[3 * k].finite() && data[3 * k + 1].finite() && data[3 * k + 2].finite());
    }
    assert(!attribute_row(data, i).finite());
    assert(first_non_finite(data, n as int, i));
    assert(!finite_until(data, n as int));
    let j = choose|j: int| first_non_finite(data, n as int, j);
    assert(first_non_finite(data, n as int, j));
    if i < j {
        assert(attribute_row(data, i).finite());
    } else if j < i {
        assert(attribute_row(data, j).finite());
    }
}

/// What is read for face `i` depends on its own three values alone. It is male if
/// and only if the male value is larger than the female one. The age is a hundred
/// times the third value, to the nearest year, from 0 for what is not positive up
/// to 100 for one and more.
pub proof fn law_gender_and_age(output: Option<ModelOutput>, n: nat, i: int)
    requires
        decoded(output, n) is Ok,
        0 <= i < n,
    ensures
        ({
            let (data, r) = (output->0.spec_data(), decoded(output, n)->Ok_0[i]);
            let (female, male, age) = (data[3 * i].units(), data[3 * i + 1].units(), data[3 * i + 2].units());
            let (years, one) = (r.age as int, pow2(149) as int);
            &&& r.gender == Gender::Male <==> male > female
            &&& r.gender == Gender::Female <==> male <= female
            &&& age <= 0 ==> years == 0
            &&& age >= one ==> years == 100
            &&& 0 < age < one ==> 0x200_0000 * (years * one - 100 * age) <= 0x100_00ca * one
            &&& 0 < age < one ==> 0x200_0000 * (100 * age - years * one) <= 0x100_00ca * one
        }),
{
    let data = output->0.spec_data();
    let row = attribute_row(data, i);
    assert(row.finite());
    let hundred = Binary32 { bits: HUNDRED_BITS };
    let one = pow2(149);
    let (half, a) = (pow2(148), row.age.abs_units());
    lemma2_to64();
    lemma_pow2_pos(148);
    lemma_pow2_unfold(149);
    assert(hundred.exponent() == 133 && hundred.fraction() == 0x48_0000);
    assert(0x80_0000 + hundred.fraction() == 0xc8_0000);
    assert((hundred.exponent() - 1) as nat == 132);
    lemma_pow2_adds(17, 132);
    assert(hundred.abs_units() == 0xc8_0000 * pow2(132));
    let p = pow2(132);
    assert(hundred.abs_units() == 100 * one) by (nonlinear_arith)
        requires hundred.abs_units() == 0xc8_0000 * p, one == 0x2_0000 * p;
    let years = row.age.product(hundred);
    let z = a * hundred.abs_units();
    assert(z == (100 * a) * one) by (nonlinear_arith)
        requires z == a * (100 * one);
    lemma_product_value(row.age, hundred);
    if row.age.units() <= 0 {
        if !row.age.sign_bit() {
            assert(a == 0);
            assert(z == 0) by (nonlinear_arith)
                requires z == (100 * a) * one, a == 0;
            lemma_round_zero(one);
        }
    } else if row.age.units() >= one {
        lemma_pow2_adds(7, 149);
        lemma_pow2_strictly_increases(156, 277);
        law_rounding_is_to_nearest(z, one, hundred);
        assert(hundred.abs_units() * one <= z) by (nonlinear_arith)
            requires z == (100 * a) * one, hundred.abs_units() == 100 * one, a >= one, one > 0;
    } else {
        lemma_round_absolute(z, one);
        lemma_pow2_strictly_increases(26, 149);
        lemma_pow2_adds(7, 149);
        lemma_pow2_strictly_increases(157, 277);
        let y = round24(z, one);
        let ha = 100 * a;
        assert(0x100_0000 * y <= 0x100_0001 * ha + 0x100_0000 && 0xff_ffff * ha <= 0x100_0000 * y + 0x100_0000)
            by (nonlinear_arith)
            requires
                0x100_0000 * (y * one) <= 0x100_0001 * z + 0x100_0000 * one,
                0xff_ffff * z <= 0x100_0000 * (y * one) + 0x100_0000 * one,
                z == ha * one,
                one > 0;
        lemma_pow2_unfold(157);
        assert(y < pow2(277));
        if 0 < y < 100 * one {
            let (sum, step) = ((y + half) as int, one as int);
            let q = sum / step;
            lemma_fundamental_div_mod(sum, step);
            lemma_mod_pos_bound(sum, step);
            assert(0 <= q <= 100) by (nonlinear_arith)
                requires q == sum / step, sum == y + half, 0 < y < 100 * step, step == 2 * half, half > 0;
            assert(step * q == q * one) by (nonlinear_arith)
                requires step == one;
        }
    }
}

/// The value of a product, infinite ones counted as 2^128.
proof fn lemma_product_value(a: Binary32, b: Binary32)
    requires
        a.finite(),
        b.finite(),
    ensures
        ({
            let (r, n) = (a.product(b), round24(a.abs_units() * b.abs_units(), pow2(149)));
            &&& r.sign_bit() == (a.sign_bit() != b.sign_bit())
            &&& n < pow2(277) ==> r.abs_units() == n
            &&& n >= pow2(277) ==> r.abs_units() == pow2(277)
        }),
{
    reveal(Binary32::product);
    lemma_pow2_pos(149);
    lemma2_to64();
    let (n, d) = (a.abs_units() * b.abs_units(), pow2(149));
    lemma_rounded(n, d);
    let r = rounded(n, d);
    let negative = a.sign_bit() != b.sign_bit();
    assert(r.signed(negative).magnitude() == r.magnitude());
    let inf = Binary32 { bits: INFINITY_BITS };
    assert(inf.exponent() == 255 && inf.fraction() == 0);
    assert((inf.exponent() - 1) as nat == 254);
    assert(0x80_0000 + inf.fraction() == 0x80_0000);
    lemma_pow2_adds(23, 254);
    assert(inf.abs_units() == pow2(277));
}

/// Why an answer of the model is refused for its shape.
pub proof fn law_refused_attributes(output: Option<ModelOutput>, n: nat)
    ensures
        output is None ==> decoded(output, n) == Err::<Seq<GenderAge>, FaceIdErrorView>(
            FaceIdErrorView::InvalidModel("Gender/age model produced no outputs"@),
        ),
        output matches Some(o) ==> {
            let shape = o.spec_shape();
            shape.len() != 2 || shape[0] != n || shape[1] != 3 ==> decoded(output, n) == Err::<
                Seq<GenderAge>,
                FaceIdErrorView,
            >(
                FaceIdErrorView::Ort(
                    "GenderAge output shape mismatch: expected ["@ + decimal(n) + ", 3], got "@ + bracketed(shape),
                ),
            )
        },
{
}

} // verus!
