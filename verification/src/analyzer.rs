//! The whole pipeline: detection, alignment, embedding, gender and age.

use vstd::prelude::*;
use vstd::arithmetic::power2::pow2;
use crate::binary32::{Binary32, whole};
use crate::detector::DetectedFace;
use crate::embedder;
use crate::embedder::{ArcFaceEmbedder, viewed_embeddings};
use crate::error::{FaceIdError, FaceIdErrorView, viewed};
use crate::gender_age;
use crate::gender_age::{Gender, GenderAge, GenderAgeEstimator, law_gender_and_age, shows_face};
use crate::landmarks::{Point, absolute_keypoints, keypoints};
use crate::preprocess::{all_square, byte_value, centred_byte_value, first_misfit, holds_images, misfit_error, square};
use crate::raster::{RgbImage, converted};
use crate::tensor::{ModelOutput, Tensor4};
use crate::text::{append_decimal, decimal, numbered};
use vstd::string::StringExecFns;

verus! {

/// How many faces go through a model at once, at most.
pub const ANALYSIS_BATCH_SIZE: usize = 64;

/// Result of face analysis.
#[derive(Clone, Debug, PartialEq)]
pub struct FaceAnalysis {
    /// The face as it was detected (bbox, landmarks, score).
    pub detection: DetectedFace,
    /// A normalized embedding vector.
    pub embedding: Vec<Binary32>,
    /// Estimated gender.
    pub gender: Gender,
    /// Estimated age in years.
    pub age: u8,
}

/// The value of an analysis, with the embedding as a sequence.
pub struct FaceAnalysisView {
    pub detection: DetectedFace,
    pub embedding: Seq<Binary32>,
    pub gender: Gender,
    pub age: u8,
}

impl View for FaceAnalysis {
    type V = FaceAnalysisView;

    open spec fn view(&self) -> FaceAnalysisView {
        FaceAnalysisView {
            detection: self.detection,
            embedding: self.embedding@,
            gender: self.gender,
            age: self.age,
        }
    }
}

pub open spec fn viewed_analyses(v: Seq<FaceAnalysis>) -> Seq<FaceAnalysisView> {
    v.map_values(|a: FaceAnalysis| a@)
}

pub open spec fn viewed_result(r: Result<Vec<FaceAnalysis>, FaceIdError>) -> Result<Seq<FaceAnalysisView>, FaceIdErrorView> {
    match r {
        Ok(v) => Ok(viewed_analyses(v@)),
        Err(e) => Err(e@),
    }
}

/// Detections, embeddings and attributes put together, face by face.
pub open spec fn joined(
    faces: Seq<DetectedFace>,
    embeddings: Seq<Seq<Binary32>>,
    attributes: Seq<GenderAge>,
) -> Seq<FaceAnalysisView> {
    Seq::new(
        faces.len(),
        |i: int|
            FaceAnalysisView {
                detection: faces[i],
                embedding: embeddings[i],
                gender: attributes[i].gender,
                age: attributes[i].age,
            },
    )
}

/// Where batch number `k` of `n` faces starts.
pub open spec fn batch_start(n: nat, k: int) -> int {
    if k * ANALYSIS_BATCH_SIZE < n {
        k * ANALYSIS_BATCH_SIZE
    } else {
        n as int
    }
}

/// Batch number `k` of the faces.
pub open spec fn nth_batch(faces: Seq<DetectedFace>, k: int) -> Seq<DetectedFace> {
    faces.subrange(batch_start(faces.len(), k), batch_start(faces.len(), k + 1))
}

/// What comes of all batches together: the analyses one after the other, or the
/// error of the last batch.
pub open spec fn gathered(parts: Seq<Result<Seq<FaceAnalysisView>, FaceIdErrorView>>) -> Result<
    Seq<FaceAnalysisView>,
    FaceIdErrorView,
>
    decreases parts.len(),
{
    if parts.len() == 0 {
        Ok(Seq::empty())
    } else {
        match (gathered(parts.drop_last()), parts.last()) {
            (Ok(list), Ok(more)) => Ok(list + more),
            (_, Err(e)) => Err(e),
            (Err(e), _) => Err(e),
        }
    }
}

/// Puts detections, embeddings and attributes together, face by face.
pub fn join_results(batch: Vec<DetectedFace>, embeddings: Vec<Vec<Binary32>>, attributes: &Vec<GenderAge>) -> (r: Result<
    Vec<FaceAnalysis>,
    FaceIdError,
>)
    ensures
        batch@.len() == embeddings@.len() && batch@.len() == attributes@.len() ==> viewed_result(r) == Ok::<
            Seq<FaceAnalysisView>,
            FaceIdErrorView,
        >(joined(batch@, embeddings@.map_values(|e: Vec<Binary32>| e@), attributes@)),
        batch@.len() != embeddings@.len() || batch@.len() != attributes@.len() ==> (r matches Err(e) && e@
            == FaceIdErrorView::Ort(
            "Inconsistent batch results: expected "@ + decimal(batch@.len()) + ", got "@
                + decimal(embeddings@.len()) + " embeddings and "@ + decimal(attributes@.len())
                + " gender/age results"@,
        )),
{
    if batch.len() != embeddings.len() || batch.len() != attributes.len() {
        let mut text = numbered("Inconsistent batch results: expected ", batch.len(), ", got ");
        append_decimal(&mut text, embeddings.len());
        text.append(" embeddings and ");
        append_decimal(&mut text, attributes.len());
        text.append(" gender/age results");
        return Err(FaceIdError::Ort(text));
    }
    let ghost (faces, vectors) = (batch@, embeddings@);
    let ghost expected = joined(faces, vectors.map_values(|e: Vec<Binary32>| e@), attributes@);
    let mut left = batch;
    let mut left_embeddings = embeddings;
    let mut results: Vec<FaceAnalysis> = Vec::new();
    let count: usize = left.len();
    let mut i: usize = 0;
    while i < count
        invariant
            i <= count,
            count == faces.len(),
            count == vectors.len(),
            count == attributes@.len(),
            left@ == faces.skip(i as int),
            left_embeddings@ == vectors.skip(i as int),
            expected == joined(faces, vectors.map_values(|e: Vec<Binary32>| e@), attributes@),
            results@.len() == i,
            forall|k: int| 0 <= k < i ==> (#[trigger] results@[k])@ == expected[k],
        decreases count - i,
    {
        let detection = left.remove(0);
        let embedding = left_embeddings.remove(0);
        let face = FaceAnalysis { detection, embedding, gender: attributes[i].gender, age: attributes[i].age };
        assert(face@ == expected[i as int]);
        results.push(face);
        i = i + 1;
    }
    assert(viewed_analyses(results@) =~= expected);
    Ok(results)
}

/// The pipeline, put together from its models.
///
/// `detector` finds the faces of an image. `align` warps a face onto a square
/// of the given size by its five keypoints. `embedder` and `gender_age` hand a
/// tensor to their model and answer with its first output, if any.
pub struct FaceAnalyzer<D, N, E, G> {
    pub detector: D,
    pub align: N,
    pub embedder: E,
    pub gender_age: G,
}

/// The first face that has no usable keypoints.
pub open spec fn first_unaligned(faces: Seq<DetectedFace>, width: Binary32, height: Binary32, i: int) -> bool {
    &&& 0 <= i < faces.len()
    &&& keypoints(faces[i], width, height) is Err
    &&& forall|k: int| 0 <= k < i ==> keypoints(#[trigger] faces[k], width, height) is Ok
}

/// The points are the keypoints of a face, and all faces before it have some.
pub open spec fn alignable(rgb: RgbImage, faces: Seq<DetectedFace>, points: Seq<Point>) -> bool {
    let (width, height) = (whole(rgb.spec_width()), whole(rgb.spec_height()));
    exists|i: int|
        {
            &&& 0 <= i < faces.len()
            &&& keypoints(#[trigger] faces[i], width, height) == Ok::<Seq<Point>, FaceIdErrorView>(points)
            &&& forall|k: int| 0 <= k < i ==> keypoints(#[trigger] faces[k], width, height) is Ok
        }
}

/// `crop` is a face that `align` warped by its keypoints.
pub open spec fn aligned<N: Fn(&RgbImage, &[Point; 5], u32) -> RgbImage>(
    align: N,
    rgb: RgbImage,
    face: DetectedFace,
    crop: RgbImage,
) -> bool {
    exists|points: [Point; 5]|
        {
            &&& keypoints(face, whole(rgb.spec_width()), whole(rgb.spec_height())) == Ok::<Seq<Point>, FaceIdErrorView>(
                points@,
            )
            &&& #[trigger] call_ensures(align, (&rgb, &points, embedder::INPUT_SIZE), crop)
        }
}

pub open spec fn all_aligned<N: Fn(&RgbImage, &[Point; 5], u32) -> RgbImage>(
    align: N,
    rgb: RgbImage,
    faces: Seq<DetectedFace>,
    crops: Seq<RgbImage>,
) -> bool {
    &&& crops.len() == faces.len()
    &&& forall|i: int| 0 <= i < faces.len() ==> aligned(align, rgb, faces[i], #[trigger] crops[i])
}

/// `crops` show the faces for the gender and age model.
pub open spec fn all_shown(rgb: RgbImage, faces: Seq<DetectedFace>, crops: Seq<RgbImage>) -> bool {
    &&& crops.len() == faces.len()
    &&& forall|i: int|
        0 <= i < faces.len() ==> shows_face(#[trigger] crops[i], &rgb, &faces[i].bbox, gender_age::INPUT_SIZE)
}

/// What the embedder makes of aligned faces.
pub open spec fn embedded<E: FnOnce(Tensor4) -> Result<Option<ModelOutput>, FaceIdError>>(
    run: E,
    crops: Seq<RgbImage>,
    result: Result<Seq<Seq<Binary32>>, FaceIdErrorView>,
) -> bool {
    if all_square(crops, embedder::INPUT_SIZE) {
        embedder::answered(run, crops, result)
    } else {
        exists|i: int| #[trigger]
            first_misfit(crops, embedder::INPUT_SIZE, i) && result == Err::<Seq<Seq<Binary32>>, FaceIdErrorView>(
                misfit_error("ArcFace requires 112x112 input, got "@, crops[i]),
            )
    }
}

/// The crops for the gender and age model.
fn attribute_crops(rgb: &RgbImage, batch: &Vec<DetectedFace>) -> (crops: Vec<RgbImage>)
    ensures
        all_shown(*rgb, batch@, crops@),
        all_square(crops@, gender_age::INPUT_SIZE),
{
    let mut crops: Vec<RgbImage> = Vec::new();
    let mut i: usize = 0;
    while i < batch.len()
        invariant
            i <= batch.len(),
            crops@.len() == i,
            forall|k: int|
                0 <= k < i ==> shows_face(#[trigger] crops@[k], rgb, &batch@[k].bbox, gender_age::INPUT_SIZE),
        decreases batch.len() - i,
    {
        crops.push(GenderAgeEstimator::align_crop(rgb, &batch[i].bbox, gender_age::INPUT_SIZE));
        i = i + 1;
    }
    crops
}

impl<
    D: Fn(&image::DynamicImage) -> Result<Vec<DetectedFace>, FaceIdError>,
    N: Fn(&RgbImage, &[Point; 5], u32) -> RgbImage,
    E: Fn(Tensor4) -> Result<Option<ModelOutput>, FaceIdError>,
    G: Fn(Tensor4) -> Result<Option<ModelOutput>, FaceIdError>,
> FaceAnalyzer<D, N, E, G> {
    /// What comes of a batch of faces, once their crops are embedded.
    pub open spec fn attributed(
        self,
        rgb: RgbImage,
        faces: Seq<DetectedFace>,
        embeddings: Seq<Seq<Binary32>>,
        result: Result<Seq<FaceAnalysisView>, FaceIdErrorView>,
    ) -> bool {
        exists|crops: Seq<RgbImage>, answer: Result<Seq<GenderAge>, FaceIdErrorView>|
            {
                &&& all_shown(rgb, faces, crops)
                &&& #[trigger] gender_age::answered(self.gender_age, crops, answer)
                &&& result == (match answer {
                    Ok(attributes) => Ok(joined(faces, embeddings, attributes)),
                    Err(e) => Err(e),
                })
            }
    }

    /// What comes of one batch of faces.
    ///
    /// The error of the first face without usable keypoints, if there is one;
    /// else the error of the first model that fails; else the analyses, one for
    /// each face and in their order.
    pub open spec fn batch_analyzed(
        self,
        rgb: RgbImage,
        faces: Seq<DetectedFace>,
        result: Result<Seq<FaceAnalysisView>, FaceIdErrorView>,
    ) -> bool {
        let (width, height) = (whole(rgb.spec_width()), whole(rgb.spec_height()));
        ||| exists|i: int| #[trigger]
            first_unaligned(faces, width, height, i) && result == Err::<Seq<FaceAnalysisView>, FaceIdErrorView>(
                keypoints(faces[i], width, height)->Err_0,
            )
        ||| exists|crops: Seq<RgbImage>, answer: Result<Seq<Seq<Binary32>>, FaceIdErrorView>|
            {
                &&& all_aligned(self.align, rgb, faces, crops)
                &&& #[trigger] embedded(self.embedder, crops, answer)
                &&& match answer {
                    Ok(embeddings) => self.attributed(rgb, faces, embeddings, result),
                    Err(e) => result == Err::<Seq<FaceAnalysisView>, FaceIdErrorView>(e),
                }
            }
    }

    /// A tensor that the embedder may be given for a batch: all its faces have
    /// usable keypoints, and the tensor holds the aligned faces.
    pub open spec fn embedder_input(self, rgb: RgbImage, faces: Seq<DetectedFace>, t: Tensor4) -> bool {
        exists|crops: Seq<RgbImage>|
            {
                &&& all_aligned(self.align, rgb, faces, crops)
                &&& all_square(crops, embedder::INPUT_SIZE)
                &&& #[trigger] holds_images(t, crops, embedder::INPUT_SIZE, centred_byte_value())
            }
    }

    /// A tensor that the gender and age model may be given for a batch: its faces
    /// have been embedded, and the tensor holds their crops.
    pub open spec fn attribute_input(self, rgb: RgbImage, faces: Seq<DetectedFace>, t: Tensor4) -> bool {
        &&& exists|crops: Seq<RgbImage>, embeddings: Seq<Seq<Binary32>>|
            all_aligned(self.align, rgb, faces, crops) && #[trigger] embedded(self.embedder, crops, Ok(embeddings))
        &&& exists|crops: Seq<RgbImage>|
            all_shown(rgb, faces, crops) && #[trigger] holds_images(t, crops, gender_age::INPUT_SIZE, byte_value())
    }

    /// `align` and the models can be called with what a batch of faces asks for.
    pub open spec fn batch_ready(self, rgb: RgbImage, faces: Seq<DetectedFace>) -> bool {
        &&& forall|points: [Point; 5]|
            alignable(rgb, faces, points@) ==> #[trigger] call_requires(self.align, (&rgb, &points, embedder::INPUT_SIZE))
        &&& forall|t: Tensor4| self.embedder_input(rgb, faces, t) ==> #[trigger] call_requires(self.embedder, (t,))
        &&& forall|t: Tensor4| self.attribute_input(rgb, faces, t) ==> #[trigger] call_requires(self.gender_age, (t,))
    }

    /// Batch number `k` is looked at: there is such a batch, and those before it
    /// came out well.
    pub open spec fn reached(self, rgb: RgbImage, faces: Seq<DetectedFace>, k: int) -> bool {
        &&& 0 <= k && batch_start(faces.len(), k) < faces.len()
        &&& exists|parts: Seq<Result<Seq<FaceAnalysisView>, FaceIdErrorView>>| #[trigger]
            self.passed(rgb, faces, parts) && parts.len() == k
    }

    /// `parts` is what comes of the first batches, all of which came out well.
    pub open spec fn passed(
        self,
        rgb: RgbImage,
        faces: Seq<DetectedFace>,
        parts: Seq<Result<Seq<FaceAnalysisView>, FaceIdErrorView>>,
    ) -> bool {
        forall|k: int|
            0 <= k < parts.len() ==> #[trigger] parts[k] is Ok && self.batch_analyzed(rgb, nth_batch(faces, k), parts[k])
    }

    /// `align` and the models can be called with what the faces ask for, batch
    /// after batch until one fails.
    pub open spec fn ready(self, rgb: RgbImage, faces: Seq<DetectedFace>) -> bool {
        forall|k: int| #[trigger] self.reached(rgb, faces, k) ==> self.batch_ready(rgb, nth_batch(faces, k))
    }

    /// `parts` is what comes of the batches, up to the last one or the first that fails.
    pub open spec fn run_through(
        self,
        rgb: RgbImage,
        faces: Seq<DetectedFace>,
        parts: Seq<Result<Seq<FaceAnalysisView>, FaceIdErrorView>>,
    ) -> bool {
        &&& forall|k: int| 0 <= k < parts.len() ==> self.batch_analyzed(rgb, nth_batch(faces, k), #[trigger] parts[k])
        &&& forall|k: int| 0 <= k < parts.len() ==> batch_start(faces.len(), k) < faces.len() && (#[trigger] parts[k] is Err
            ==> k == parts.len() - 1)
        &&& gathered(parts) is Ok ==> batch_start(faces.len(), parts.len() as int) == faces.len()
    }

    /// What comes of all faces: batch after batch, until one fails.
    pub open spec fn analyzed(
        self,
        rgb: RgbImage,
        faces: Seq<DetectedFace>,
        result: Result<Seq<FaceAnalysisView>, FaceIdErrorView>,
    ) -> bool {
        exists|parts: Seq<Result<Seq<FaceAnalysisView>, FaceIdErrorView>>| #[trigger]
            self.run_through(rgb, faces, parts) && result == gathered(parts)
    }

    /// The pipeline with the given models.
    pub fn new(detector: D, align: N, embedder: E, gender_age: G) -> (r: FaceAnalyzer<D, N, E, G>)
        ensures
            r.detector == detector,
            r.align == align,
            r.embedder == embedder,
            r.gender_age == gender_age,
    {
        FaceAnalyzer { detector, align, embedder, gender_age }
    }

    /// The crops for the embedder.
    fn embedding_crops(&self, rgb: &RgbImage, batch: &Vec<DetectedFace>) -> (r: Result<Vec<RgbImage>, FaceIdError>)
        requires
            self.batch_ready(*rgb, batch@),
        ensures
            r matches Ok(crops) ==> all_aligned(self.align, *rgb, batch@, crops@),
            r matches Err(e) ==> exists|i: int| #[trigger]
                first_unaligned(batch@, whole(rgb.spec_width()), whole(rgb.spec_height()), i) && keypoints(
                    batch@[i],
                    whole(rgb.spec_width()),
                    whole(rgb.spec_height()),
                ) == Err::<Seq<Point>, FaceIdErrorView>(e@),
    {
        let width = Binary32::from_u32(rgb.width());
        let height = Binary32::from_u32(rgb.height());
        let mut crops: Vec<RgbImage> = Vec::new();
        let mut i: usize = 0;
        while i < batch.len()
            invariant
                i <= batch.len(),
                self.batch_ready(*rgb, batch@),
                width == whole(rgb.spec_width()),
                height == whole(rgb.spec_height()),
                crops@.len() == i,
                forall|k: int| 0 <= k < i ==> aligned(self.align, *rgb, batch@[k], #[trigger] crops@[k]),
                forall|k: int| 0 <= k < i ==> keypoints(#[trigger] batch@[k], width, height) is Ok,
            decreases batch.len() - i,
        {
            match absolute_keypoints(&batch[i], width, height) {
                Ok(points) => {
                    assert(alignable(*rgb, batch@, points@)) by {
                        assert(keypoints(batch@[i as int], width, height) == Ok::<Seq<Point>, FaceIdErrorView>(points@));
                    }
                    let crop = (self.align)(rgb, &points, embedder::INPUT_SIZE);
                    assert(aligned(self.align, *rgb, batch@[i as int], crop));
                    crops.push(crop);
                },
                Err(e) => {
                    assert(keypoints(batch@[i as int], width, height) == Err::<Seq<Point>, FaceIdErrorView>(e@));
                    assert(first_unaligned(batch@, width, height, i as int));
                    return Err(e);
                },
            }
            i = i + 1;
        }
        Ok(crops)
    }

    /// Analyzes faces batch by batch, which bounds the size of the tensors. No
    /// model is called for a batch with unusable keypoints, nor after a failure.
    pub fn analyze_faces(&self, rgb: &RgbImage, faces: Vec<DetectedFace>) -> (r: Result<Vec<FaceAnalysis>, FaceIdError>)
        requires
            self.ready(*rgb, faces@),
        ensures
            self.analyzed(*rgb, faces@, viewed_result(r)),
    {
        let ghost all = faces@;
        let ghost mut parts: Seq<Result<Seq<FaceAnalysisView>, FaceIdErrorView>> = Seq::empty();
        let mut remaining = faces;
        let mut final_results: Vec<FaceAnalysis> = Vec::new();
        proof {
            assert(all.skip(0) =~= all);
            assert(viewed_analyses(final_results@) =~= Seq::<FaceAnalysisView>::empty());
        }
        while remaining.len() > 0
            invariant
                self.ready(*rgb, all),
                all == faces@,
                remaining@ == all.skip(batch_start(all.len(), parts.len() as int)),
                gathered(parts) == Ok::<Seq<FaceAnalysisView>, FaceIdErrorView>(viewed_analyses(final_results@)),
                forall|k: int|
                    0 <= k < parts.len() ==> self.batch_analyzed(*rgb, nth_batch(all, k), #[trigger] parts[k]),
                forall|k: int|
                    0 <= k < parts.len() ==> batch_start(all.len(), k) < all.len() && #[trigger] parts[k] is Ok,
            decreases remaining.len(),
        {
            let ghost before = remaining@;
            let ghost list = viewed_analyses(final_results@);
            let ghost n = parts.len() as int;
            let size: usize = if remaining.len() < ANALYSIS_BATCH_SIZE {
                remaining.len()
            } else {
                ANALYSIS_BATCH_SIZE
            };
            let rest = remaining.split_off(size);
            let batch = remaining;
            remaining = rest;
            proof {
                assert(batch@ =~= nth_batch(all, n));
                assert(remaining@ =~= all.skip(batch_start(all.len(), n + 1)));
            }
            proof {
                assert(self.passed(*rgb, all, parts));
                assert(self.reached(*rgb, all, n));
            }
            let result = self.analyze_batch(rgb, batch);
            proof {
                let part = viewed_result(result);
                assert(parts.push(part).drop_last() =~= parts);
                parts = parts.push(part);
            }
            match result {
                Ok(mut analyses) => {
                    let ghost more = viewed_analyses(analyses@);
                    final_results.append(&mut analyses);
                    assert(viewed_analyses(final_results@) =~= list + more);
                },
                Err(e) => {
                    assert(self.run_through(*rgb, all, parts));
                    return Err(e);
                },
            }
        }
        assert(self.run_through(*rgb, all, parts));
        Ok(final_results)
    }

    /// Performs the full pipeline: detection, alignment, embedding, and
    /// gender and age estimation. Nothing but the detector is called where it
    /// fails or finds no face.
    pub fn analyze(&self, img: &image::DynamicImage) -> (r: Result<Vec<FaceAnalysis>, FaceIdError>)
        requires
            call_requires(self.detector, (img,)),
            forall|faces: Vec<DetectedFace>, rgb: RgbImage|
                #[trigger] call_ensures(self.detector, (img,), Ok(faces)) && faces@.len() > 0 && #[trigger] converted(
                    rgb,
                    *img,
                ) ==> self.ready(rgb, faces@),
        ensures
            exists|detected: Result<Vec<DetectedFace>, FaceIdError>|
                {
                    &&& #[trigger] call_ensures(self.detector, (img,), detected)
                    &&& match detected {
                        Err(e) => r == Err::<Vec<FaceAnalysis>, FaceIdError>(e),
                        Ok(faces) => if faces@.len() == 0 {
                            r matches Ok(list) && list@.len() == 0
                        } else {
                            exists|rgb: RgbImage|
                                #[trigger] converted(rgb, *img) && self.analyzed(rgb, faces@, viewed_result(r))
                        },
                    }
                },
    {
        let detected = (self.detector)(img);
        let ghost outcome = detected;
        let faces = match detected {
            Ok(faces) => faces,
            Err(e) => {
                assert(call_ensures(self.detector, (img,), outcome));
                return Err(e);
            },
        };
        if faces.len() == 0 {
            assert(call_ensures(self.detector, (img,), outcome));
            return Ok(Vec::new());
        }
        let rgb = RgbImage::from_dynamic(img);
        assert(call_ensures(self.detector, (img,), Ok(faces)));
        let r = self.analyze_faces(&rgb, faces);
        assert(call_ensures(self.detector, (img,), outcome));
        assert(converted(rgb, *img));
        r
    }

    /// Analyzes one batch of faces.
    fn analyze_batch(&self, rgb: &RgbImage, batch: Vec<DetectedFace>) -> (r: Result<Vec<FaceAnalysis>, FaceIdError>)
        requires
            self.batch_ready(*rgb, batch@),
            0 < batch@.len() <= ANALYSIS_BATCH_SIZE,
        ensures
            self.batch_analyzed(*rgb, batch@, viewed_result(r)),
    {
        let embed_crops = match self.embedding_crops(rgb, &batch) {
            Ok(crops) => crops,
            Err(e) => {
                return Err(e);
            },
        };
        let embed = |t: Tensor4| -> (r: Result<Option<ModelOutput>, FaceIdError>)
            requires
                call_requires(self.embedder, (t,)),
            ensures
                call_ensures(self.embedder, (t,), r),
            { (self.embedder)(t) };
        proof {
            assert forall|t: Tensor4|
                all_square(embed_crops@, embedder::INPUT_SIZE) && holds_images(
                    t,
                    embed_crops@,
                    embedder::INPUT_SIZE,
                    centred_byte_value(),
                ) implies #[trigger] call_requires(embed, (t,)) by {
                assert(self.embedder_input(*rgb, batch@, t));
            }
        }
        let embedding_result = ArcFaceEmbedder::compute_embeddings_batch(embed_crops.as_slice(), embed);
        assert(embedded(self.embedder, embed_crops@, viewed_embeddings(embedding_result)));
        let embeddings = match embedding_result {
            Ok(list) => list,
            Err(e) => {
                return Err(e);
            },
        };
        let ghost vectors = embeddings@.map_values(|e: Vec<Binary32>| e@);
        assert(vectors.len() == batch@.len());
        let ga_crops = attribute_crops(rgb, &batch);
        let estimate = |t: Tensor4| -> (r: Result<Option<ModelOutput>, FaceIdError>)
            requires
                call_requires(self.gender_age, (t,)),
            ensures
                call_ensures(self.gender_age, (t,), r),
            { (self.gender_age)(t) };
        proof {
            assert(embedded(self.embedder, embed_crops@, Ok(vectors)));
            assert forall|t: Tensor4|
                holds_images(t, ga_crops@, gender_age::INPUT_SIZE, byte_value()) implies #[trigger] call_requires(
                estimate,
                (t,),
            ) by {
                assert(self.attribute_input(*rgb, batch@, t));
            }
        }
        let attribute_result = GenderAgeEstimator::estimate_batch(ga_crops.as_slice(), estimate);
        assert(gender_age::answered(self.gender_age, ga_crops@, viewed(attribute_result)));
        match attribute_result {
            Ok(attributes) => {
                assert(attributes@.len() == batch@.len());
                let ghost faces = batch@;
                let r = join_results(batch, embeddings, &attributes);
                assert(self.attributed(*rgb, faces, vectors, viewed_result(r)));
                r
            },
            Err(e) => {
                assert(self.attributed(*rgb, batch@, vectors, Err(e@)));
                Err(e)
            },
        }
    }
}

impl<
    D: Fn(&image::DynamicImage) -> Result<Vec<DetectedFace>, FaceIdError>,
    N: Fn(&RgbImage, &[Point; 5], u32) -> RgbImage,
    E: Fn(Tensor4) -> Result<Option<ModelOutput>, FaceIdError>,
    G: Fn(Tensor4) -> Result<Option<ModelOutput>, FaceIdError>,
> FaceAnalyzer<D, N, E, G> {
    /// Every tensor that a model is given holds at least one image, and no more
    /// than the limit of a batch.
    pub proof fn law_tensors_are_bounded(self, rgb: RgbImage, faces: Seq<DetectedFace>, k: int, t: Tensor4)
        requires
            self.reached(rgb, faces, k),
            self.embedder_input(rgb, nth_batch(faces, k), t) || self.attribute_input(rgb, nth_batch(faces, k), t),
        ensures
            1 <= t.shape()[0] <= ANALYSIS_BATCH_SIZE,
    {
        assert(1 <= nth_batch(faces, k).len() <= ANALYSIS_BATCH_SIZE);
    }

    /// An analysis that succeeds has one entry for each face, in the order of
    /// the faces, with the face as it was detected.
    pub proof fn law_one_analysis_per_face(self, rgb: RgbImage, faces: Seq<DetectedFace>, list: Seq<FaceAnalysisView>)
        requires
            self.analyzed(rgb, faces, Ok(list)),
        ensures
            list.len() == faces.len(),
            forall|i: int| 0 <= i < faces.len() ==> (#[trigger] list[i]).detection == faces[i],
    {
        let parts = choose|parts: Seq<Result<Seq<FaceAnalysisView>, FaceIdErrorView>>| #[trigger]
            self.run_through(rgb, faces, parts) && Ok::<Seq<FaceAnalysisView>, FaceIdErrorView>(list) == gathered(parts);
        self.lemma_prefix(rgb, faces, parts, parts.len() as int);
        assert(parts.take(parts.len() as int) =~= parts);
    }

    /// The first `n` batches cover the faces from the beginning.
    proof fn lemma_prefix(
        self,
        rgb: RgbImage,
        faces: Seq<DetectedFace>,
        parts: Seq<Result<Seq<FaceAnalysisView>, FaceIdErrorView>>,
        n: int,
    )
        requires
            self.run_through(rgb, faces, parts),
            0 <= n <= parts.len(),
        ensures
            gathered(parts.take(n)) matches Ok(list) ==> {
                &&& list.len() == batch_start(faces.len(), n)
                &&& forall|i: int| 0 <= i < list.len() ==> (#[trigger] list[i]).detection == faces[i]
            },
        decreases n,
    {
        if n > 0 {
            self.lemma_prefix(rgb, faces, parts, n - 1);
            assert(parts.take(n).drop_last() =~= parts.take(n - 1));
            assert(parts.take(n).last() == parts[n - 1]);
            assert(self.batch_analyzed(rgb, nth_batch(faces, n - 1), parts[n - 1]));
            assert(batch_start(faces.len(), n - 1) < faces.len());
        }
    }
}

impl<
    D: Fn(&image::DynamicImage) -> Result<Vec<DetectedFace>, FaceIdError>,
    N: Fn(&RgbImage, &[Point; 5], u32) -> RgbImage,
    E: Fn(Tensor4) -> Result<Option<ModelOutput>, FaceIdError>,
    G: Fn(Tensor4) -> Result<Option<ModelOutput>, FaceIdError>,
> FaceAnalyzer<D, N, E, G> {
    /// Entry `i` comes from the batch that face `i` falls into, at its place there.
    proof fn lemma_entry(
        self,
        rgb: RgbImage,
        faces: Seq<DetectedFace>,
        parts: Seq<Result<Seq<FaceAnalysisView>, FaceIdErrorView>>,
        n: int,
        i: int,
    )
        requires
            self.run_through(rgb, faces, parts),
            0 <= n <= parts.len(),
            gathered(parts.take(n)) is Ok,
            0 <= i < batch_start(faces.len(), n),
        ensures
            ({
                let (k, j) = (i / 64, i % 64);
                &&& 0 <= k < n
                &&& parts[k] is Ok
                &&& j < parts[k]->Ok_0.len()
                &&& gathered(parts.take(n))->Ok_0[i] == parts[k]->Ok_0[j]
            }),
        decreases n,
    {
        self.lemma_prefix(rgb, faces, parts, n);
        self.lemma_prefix(rgb, faces, parts, n - 1);
        assert(parts.take(n).drop_last() =~= parts.take(n - 1));
        assert(parts.take(n).last() == parts[n - 1]);
        assert(self.batch_analyzed(rgb, nth_batch(faces, n - 1), parts[n - 1]));
        assert(batch_start(faces.len(), n - 1) < faces.len());
        if i < batch_start(faces.len(), n - 1) {
            self.lemma_entry(rgb, faces, parts, n - 1, i);
        }
    }

    /// What comes of the batch of face `i`.
    proof fn lemma_batch_of(self, rgb: RgbImage, faces: Seq<DetectedFace>, list: Seq<FaceAnalysisView>, i: int) -> (part: Seq<
        FaceAnalysisView,
    >)
        requires
            self.analyzed(rgb, faces, Ok(list)),
            0 <= i < faces.len(),
        ensures
            self.batch_analyzed(rgb, nth_batch(faces, i / 64), Ok(part)),
            list.len() == faces.len(),
            i % 64 < part.len(),
            list[i] == part[i % 64],
            nth_batch(faces, i / 64)[i % 64] == faces[i],
            i % 64 < nth_batch(faces, i / 64).len(),
    {
        let parts = choose|parts: Seq<Result<Seq<FaceAnalysisView>, FaceIdErrorView>>| #[trigger]
            self.run_through(rgb, faces, parts) && Ok::<Seq<FaceAnalysisView>, FaceIdErrorView>(list) == gathered(parts);
        assert(parts.take(parts.len() as int) =~= parts);
        self.law_one_analysis_per_face(rgb, faces, list);
        self.lemma_entry(rgb, faces, parts, parts.len() as int, i);
        assert(self.batch_analyzed(rgb, nth_batch(faces, i / 64), parts[i / 64]));
        parts[i / 64]->Ok_0
    }

    /// The embedding of face `i` is read where the face itself was put in. There is
    /// a tensor whose image at place `i % 64` is the face, aligned by its own
    /// keypoints, and an answer of the embedder to that tensor whose row at the same
    /// place, normalized, is the embedding.
    pub proof fn law_embedding_of_each_face(
        self,
        rgb: RgbImage,
        faces: Seq<DetectedFace>,
        list: Seq<FaceAnalysisView>,
        i: int,
    )
        requires
            self.analyzed(rgb, faces, Ok(list)),
            0 <= i < faces.len(),
        ensures
            list.len() == faces.len(),
            list[i].detection == faces[i],
            exists|t: Tensor4, o: ModelOutput, points: [Point; 5], crop: RgbImage|
                #![trigger call_ensures(self.embedder, (t,), Ok(Some(o))), call_ensures(self.align, (&rgb, &points, 112), crop)]
                {
                    let (j, d) = (i % 64, o.spec_shape()[1] as int);
                    &&& keypoints(faces[i], whole(rgb.spec_width()), whole(rgb.spec_height())) == Ok::<
                        Seq<Point>,
                        FaceIdErrorView,
                    >(points@)
                    &&& call_ensures(self.align, (&rgb, &points, 112), crop)
                    &&& crop.spec_width() == 112 && crop.spec_height() == 112
                    &&& t.shape()[0] == if faces.len() - (i - j) < 64 {
                        faces.len() - (i - j)
                    } else {
                        64
                    }
                    &&& forall|y: int, x: int|
                        #![trigger crop.pixel(x, y)]
                        0 <= y < 112 && 0 <= x < 112 ==> {
                            &&& t.element(j, 0, y, x) == centred_byte_value()(crop.pixel(x, y).0)
                            &&& t.element(j, 1, y, x) == centred_byte_value()(crop.pixel(x, y).1)
                            &&& t.element(j, 2, y, x) == centred_byte_value()(crop.pixel(x, y).2)
                        }
                    &&& call_ensures(self.embedder, (t,), Ok(Some(o)))
                    &&& o.spec_shape().len() == 2 && o.spec_shape()[0] == t.shape()[0]
                    &&& list[i].embedding == embedder::normalized(o.spec_data().subrange(j * d, j * d + d))
                },
    {
        let part = self.lemma_batch_of(rgb, faces, list, i);
        self.law_one_analysis_per_face(rgb, faces, list);
        let (batch, j) = (nth_batch(faces, i / 64), i % 64);
        let (crops, answer) = choose|crops: Seq<RgbImage>, answer: Result<Seq<Seq<Binary32>>, FaceIdErrorView>|
            {
                &&& all_aligned(self.align, rgb, batch, crops)
                &&& #[trigger] embedded(self.embedder, crops, answer)
                &&& match answer {
                    Ok(embeddings) => self.attributed(rgb, batch, embeddings, Ok(part)),
                    Err(e) => Ok::<Seq<FaceAnalysisView>, FaceIdErrorView>(part) == Err::<
                        Seq<FaceAnalysisView>,
                        FaceIdErrorView,
                    >(e),
                }
            };
        assert(answer is Ok);
        let embeddings = answer->Ok_0;
        assert(self.attributed(rgb, batch, embeddings, Ok(part)));
        assert(part[j].embedding == embeddings[j]);
        assert(all_square(crops, embedder::INPUT_SIZE));
        assert(embedder::answered(self.embedder, crops, answer));
        let (t, reply) = choose|t: Tensor4, reply: Result<Option<ModelOutput>, FaceIdError>|
            #![trigger call_ensures(self.embedder, (t,), reply)]
            {
                &&& holds_images(t, crops, embedder::INPUT_SIZE, centred_byte_value())
                &&& call_ensures(self.embedder, (t,), reply)
                &&& answer == (match reply {
                    Ok(output) => embedder::decoded(output, crops.len()),
                    Err(e) => Err(e@),
                })
            };
        let o = reply->Ok_0->0;
        assert(reply == Ok::<Option<ModelOutput>, FaceIdError>(Some(o)));
        let crop = crops[j];
        assert(square(crop, embedder::INPUT_SIZE));
        assert(aligned(self.align, rgb, batch[j], crop));
        let points = choose|points: [Point; 5]|
            {
                &&& keypoints(batch[j], whole(rgb.spec_width()), whole(rgb.spec_height())) == Ok::<
                    Seq<Point>,
                    FaceIdErrorView,
                >(points@)
                &&& #[trigger] call_ensures(self.align, (&rgb, &points, embedder::INPUT_SIZE), crop)
            };
        let d = o.spec_shape()[1] as int;
        assert((j + 1) * d == j * d + d) by (nonlinear_arith);
        assert(embeddings[j] == embedder::normalized(embedder::flat_row(o.spec_data(), d, j)));
        assert forall|y: int, x: int|
            #![trigger crop.pixel(x, y)]
            0 <= y < 112 && 0 <= x < 112 implies {
            &&& t.element(j, 0, y, x) == centred_byte_value()(crop.pixel(x, y).0)
            &&& t.element(j, 1, y, x) == centred_byte_value()(crop.pixel(x, y).1)
            &&& t.element(j, 2, y, x) == centred_byte_value()(crop.pixel(x, y).2)
        } by {
            assert(t.element(j, 0, y, x) == centred_byte_value()(crop.pixel(x, y).0));
            assert(t.element(j, 1, y, x) == centred_byte_value()(crop.pixel(x, y).1));
            assert(t.element(j, 2, y, x) == centred_byte_value()(crop.pixel(x, y).2));
        }
        assert(call_ensures(self.embedder, (t,), Ok(Some(o))));
        assert(call_ensures(self.align, (&rgb, &points, 112), crop));
    }

    /// Gender and age of face `i` are read where the face itself was put in. There is
    /// a tensor whose image at place `i % 64` is the crop of the face, and an answer
    /// of the model to that tensor whose three values at the same place say whether
    /// the face is male and how old it is.
    pub proof fn law_attributes_of_each_face(
        self,
        rgb: RgbImage,
        faces: Seq<DetectedFace>,
        list: Seq<FaceAnalysisView>,
        i: int,
    )
        requires
            self.analyzed(rgb, faces, Ok(list)),
            0 <= i < faces.len(),
        ensures
            exists|t: Tensor4, o: ModelOutput, crop: RgbImage|
                #![trigger call_ensures(self.gender_age, (t,), Ok(Some(o))), shows_face(crop, &rgb, &faces[i].bbox, 96)]
                {
                    let j = i % 64;
                    let (female, male, age) = (
                        o.spec_data()[3 * j].units(),
                        o.spec_data()[3 * j + 1].units(),
                        o.spec_data()[3 * j + 2].units(),
                    );
                    let (years, one) = (list[i].age as int, pow2(149) as int);
                    &&& shows_face(crop, &rgb, &faces[i].bbox, 96)
                    &&& t.shape()[0] == if faces.len() - (i - j) < 64 {
                        faces.len() - (i - j)
                    } else {
                        64
                    }
                    &&& forall|y: int, x: int|
                        #![trigger crop.pixel(x, y)]
                        0 <= y < 96 && 0 <= x < 96 ==> {
                            &&& t.element(j, 0, y, x) == whole(crop.pixel(x, y).0 as u32)
                            &&& t.element(j, 1, y, x) == whole(crop.pixel(x, y).1 as u32)
                            &&& t.element(j, 2, y, x) == whole(crop.pixel(x, y).2 as u32)
                        }
                    &&& call_ensures(self.gender_age, (t,), Ok(Some(o)))
                    &&& o.spec_shape().len() == 2 && o.spec_shape()[0] == t.shape()[0] && o.spec_shape()[1] == 3
                    &&& list[i].gender == Gender::Male <==> male > female
                    &&& age <= 0 ==> years == 0
                    &&& age >= one ==> years == 100
                    &&& 0 < age < one ==> 0x200_0000 * (years * one - 100 * age) <= 0x100_00ca * one
                    &&& 0 < age < one ==> 0x200_0000 * (100 * age - years * one) <= 0x100_00ca * one
                },
    {
        let part = self.lemma_batch_of(rgb, faces, list, i);
        let (batch, j) = (nth_batch(faces, i / 64), i % 64);
        let (aligned_crops, embedding_answer) = choose|
            crops: Seq<RgbImage>,
            answer: Result<Seq<Seq<Binary32>>, FaceIdErrorView>,
        |
            {
                &&& all_aligned(self.align, rgb, batch, crops)
                &&& #[trigger] embedded(self.embedder, crops, answer)
                &&& match answer {
                    Ok(embeddings) => self.attributed(rgb, batch, embeddings, Ok(part)),
                    Err(e) => Ok::<Seq<FaceAnalysisView>, FaceIdErrorView>(part) == Err::<
                        Seq<FaceAnalysisView>,
                        FaceIdErrorView,
                    >(e),
                }
            };
        let embeddings = embedding_answer->Ok_0;
        assert(self.attributed(rgb, batch, embeddings, Ok(part)));
        let (crops, answer) = choose|crops: Seq<RgbImage>, answer: Result<Seq<GenderAge>, FaceIdErrorView>|
            {
                &&& all_shown(rgb, batch, crops)
                &&& #[trigger] gender_age::answered(self.gender_age, crops, answer)
                &&& Ok::<Seq<FaceAnalysisView>, FaceIdErrorView>(part) == (match answer {
                    Ok(attributes) => Ok(joined(batch, embeddings, attributes)),
                    Err(e) => Err(e),
                })
            };
        let attributes = answer->Ok_0;
        assert(part[j].gender == attributes[j].gender && part[j].age == attributes[j].age);
        let (t, reply) = choose|t: Tensor4, reply: Result<Option<ModelOutput>, FaceIdError>|
            #![trigger call_ensures(self.gender_age, (t,), reply)]
            {
                &&& holds_images(t, crops, gender_age::INPUT_SIZE, byte_value())
                &&& call_ensures(self.gender_age, (t,), reply)
                &&& answer == (match reply {
                    Ok(output) => gender_age::decoded(output, crops.len()),
                    Err(e) => Err(e@),
                })
            };
        let o = reply->Ok_0->0;
        assert(reply == Ok::<Option<ModelOutput>, FaceIdError>(Some(o)));
        let crop = crops[j];
        assert(shows_face(crop, &rgb, &batch[j].bbox, gender_age::INPUT_SIZE));
        law_gender_and_age(Some(o), crops.len(), j);
        assert forall|y: int, x: int|
            #![trigger crop.pixel(x, y)]
            0 <= y < 96 && 0 <= x < 96 implies {
            &&& t.element(j, 0, y, x) == whole(crop.pixel(x, y).0 as u32)
            &&& t.element(j, 1, y, x) == whole(crop.pixel(x, y).1 as u32)
            &&& t.element(j, 2, y, x) == whole(crop.pixel(x, y).2 as u32)
        } by {
            assert(t.element(j, 0, y, x) == byte_value()(crop.pixel(x, y).0));
            assert(t.element(j, 1, y, x) == byte_value()(crop.pixel(x, y).1));
            assert(t.element(j, 2, y, x) == byte_value()(crop.pixel(x, y).2));
        }
        assert(call_ensures(self.gender_age, (t,), Ok(Some(o))));
        assert(shows_face(crop, &rgb, &faces[i].bbox, 96));
    }
}

/// Putting results together keeps each with its face.
pub proof fn law_joined_results_belong_together(
    faces: Seq<DetectedFace>,
    embeddings: Seq<Seq<Binary32>>,
    attributes: Seq<GenderAge>,
    i: int,
)
    requires
        faces.len() == embeddings.len(),
        faces.len() == attributes.len(),
        0 <= i < faces.len(),
    ensures
        joined(faces, embeddings, attributes).len() == faces.len(),
        joined(faces, embeddings, attributes)[i].detection == faces[i],
        joined(faces, embeddings, attributes)[i].embedding == embeddings[i],
        joined(faces, embeddings, attributes)[i].gender == attributes[i].gender,
        joined(faces, embeddings, attributes)[i].age == attributes[i].age,
{
}

impl<
    D: Fn(&image::DynamicImage) -> Result<Vec<DetectedFace>, FaceIdError>,
    N: Fn(&RgbImage, &[Point; 5], u32) -> RgbImage,
    E: Fn(Tensor4) -> Result<Option<ModelOutput>, FaceIdError>,
    G: Fn(Tensor4) -> Result<Option<ModelOutput>, FaceIdError>,
> FaceAnalyzer<D, N, E, G> {
    /// Without faces there is nothing to analyze, and that is no failure.
    pub proof fn law_nothing_to_analyze(
        self,
        rgb: RgbImage,
        faces: Seq<DetectedFace>,
        result: Result<Seq<FaceAnalysisView>, FaceIdErrorView>,
    )
        requires
            faces.len() == 0,
            self.analyzed(rgb, faces, result),
        ensures
            result == Ok::<Seq<FaceAnalysisView>, FaceIdErrorView>(Seq::empty()),
    {
        let parts = choose|parts: Seq<Result<Seq<FaceAnalysisView>, FaceIdErrorView>>| #[trigger]
            self.run_through(rgb, faces, parts) && result == gathered(parts);
        if parts.len() > 0 {
            assert(parts[0] is Err || parts[0] is Ok);
            assert(batch_start(faces.len(), 0) < faces.len());
        }
    }

    /// A face without usable keypoints makes the whole analysis fail.
    pub proof fn law_no_analysis_without_keypoints(
        self,
        rgb: RgbImage,
        faces: Seq<DetectedFace>,
        result: Result<Seq<FaceAnalysisView>, FaceIdErrorView>,
        i: int,
    )
        requires
            self.analyzed(rgb, faces, result),
            0 <= i < faces.len(),
            keypoints(faces[i], whole(rgb.spec_width()), whole(rgb.spec_height())) is Err,
        ensures
            result is Err,
    {
        if let Ok(list) = result {
            self.law_embedding_of_each_face(rgb, faces, list, i);
        }
    }

    /// Where the first face has no usable keypoints, the analysis fails with that
    /// very reason, before any model is asked.
    pub proof fn law_first_face_without_keypoints(
        self,
        rgb: RgbImage,
        faces: Seq<DetectedFace>,
        result: Result<Seq<FaceAnalysisView>, FaceIdErrorView>,
    )
        requires
            self.analyzed(rgb, faces, result),
            faces.len() > 0,
            keypoints(faces[0], whole(rgb.spec_width()), whole(rgb.spec_height())) is Err,
        ensures
            result == Err::<Seq<FaceAnalysisView>, FaceIdErrorView>(
                keypoints(faces[0], whole(rgb.spec_width()), whole(rgb.spec_height()))->Err_0,
            ),
    {
        let (width, height) = (whole(rgb.spec_width()), whole(rgb.spec_height()));
        let parts = choose|parts: Seq<Result<Seq<FaceAnalysisView>, FaceIdErrorView>>| #[trigger]
            self.run_through(rgb, faces, parts) && result == gathered(parts);
        assert(batch_start(faces.len(), 0) == 0);
        assert(parts.len() > 0);
        let batch = nth_batch(faces, 0);
        assert(batch[0] == faces[0]);
        assert(self.batch_analyzed(rgb, batch, parts[0]));
        let e = keypoints(faces[0], width, height)->Err_0;
        assert(parts[0] == Err::<Seq<FaceAnalysisView>, FaceIdErrorView>(e)) by {
            if exists|i: int| #[trigger]
                first_unaligned(batch, width, height, i) && parts[0] == Err::<Seq<FaceAnalysisView>, FaceIdErrorView>(
                    keypoints(batch[i], width, height)->Err_0,
                ) {
                let i = choose|i: int| #[trigger]
                    first_unaligned(batch, width, height, i) && parts[0] == Err::<Seq<FaceAnalysisView>, FaceIdErrorView>(
                        keypoints(batch[i], width, height)->Err_0,
                    );
                assert(i == 0) by {
                    if i > 0 {
                        assert(keypoints(batch[0], width, height) is Ok);
                    }
                }
            } else {
                let (crops, answer) = choose|crops: Seq<RgbImage>, answer: Result<Seq<Seq<Binary32>>, FaceIdErrorView>|
                    all_aligned(self.align, rgb, batch, crops) && #[trigger] embedded(self.embedder, crops, answer);
                assert(aligned(self.align, rgb, batch[0], crops[0]));
            }
        }
        assert(parts.len() == 1);
        assert(parts.drop_last() =~= Seq::<Result<Seq<FaceAnalysisView>, FaceIdErrorView>>::empty());
    }

    /// A failure is that of one of the batches of at most 64 faces.
    pub proof fn law_failures_come_from_a_batch(self, rgb: RgbImage, faces: Seq<DetectedFace>, e: FaceIdErrorView)
        requires
            self.analyzed(rgb, faces, Err(e)),
        ensures
            exists|first: int, next: int|
                {
                    &&& 0 <= first < next <= faces.len()
                    &&& first % 64 == 0
                    &&& next == first + 64 || next < first + 64 && next == faces.len()
                    &&& self.batch_analyzed(rgb, #[trigger] faces.subrange(first, next), Err(e))
                },
    {
        let parts = choose|parts: Seq<Result<Seq<FaceAnalysisView>, FaceIdErrorView>>| #[trigger]
            self.run_through(rgb, faces, parts) && Err::<Seq<FaceAnalysisView>, FaceIdErrorView>(e) == gathered(parts);
        assert(parts.take(parts.len() as int) =~= parts);
        let k = self.lemma_failed_batch(rgb, faces, parts, parts.len() as int, e);
        assert(self.batch_analyzed(rgb, nth_batch(faces, k), parts[k]));
        assert(batch_start(faces.len(), k) < faces.len());
        let (first, next) = (batch_start(faces.len(), k), batch_start(faces.len(), k + 1));
        assert(self.batch_analyzed(rgb, faces.subrange(first, next), Err(e)));
    }

    /// The batch that a failure comes from.
    proof fn lemma_failed_batch(
        self,
        rgb: RgbImage,
        faces: Seq<DetectedFace>,
        parts: Seq<Result<Seq<FaceAnalysisView>, FaceIdErrorView>>,
        n: int,
        e: FaceIdErrorView,
    ) -> (k: int)
        requires
            self.run_through(rgb, faces, parts),
            0 <= n <= parts.len(),
            gathered(parts.take(n)) == Err::<Seq<FaceAnalysisView>, FaceIdErrorView>(e),
        ensures
            0 <= k < n,
            parts[k] == Err::<Seq<FaceAnalysisView>, FaceIdErrorView>(e),
        decreases n,
    {
        assert(parts.take(n).drop_last() =~= parts.take(n - 1));
        assert(parts.take(n).last() == parts[n - 1]);
        if parts[n - 1] is Err {
            n - 1
        } else {
            self.lemma_failed_batch(rgb, faces, parts, n - 1, e)
        }
    }
}

/// The value of an analysis keeps all of it, and the value of a list has one for
/// each, in order.
pub proof fn law_values_of_analyses(r: Result<Vec<FaceAnalysis>, FaceIdError>, i: int)
    ensures
        r matches Ok(v) ==> 0 <= i < v@.len() ==> {
            &&& viewed_result(r) is Ok
            &&& viewed_result(r)->Ok_0.len() == v@.len()
            &&& viewed_result(r)->Ok_0[i].detection == v@[i].detection
            &&& viewed_result(r)->Ok_0[i].embedding == v@[i].embedding@
            &&& viewed_result(r)->Ok_0[i].gender == v@[i].gender
            &&& viewed_result(r)->Ok_0[i].age == v@[i].age
        },
        r matches Err(e) ==> viewed_result(r) == Err::<Seq<FaceAnalysisView>, FaceIdErrorView>(e@),
{
}

impl<
    D: Fn(&image::DynamicImage) -> Result<Vec<DetectedFace>, FaceIdError>,
    N: Fn(&RgbImage, &[Point; 5], u32) -> RgbImage,
    E: Fn(Tensor4) -> Result<Option<ModelOutput>, FaceIdError>,
    G: Fn(Tensor4) -> Result<Option<ModelOutput>, FaceIdError>,
> FaceAnalyzer<D, N, E, G> {
    /// What a batch can fail with: the reason why its first face without usable
    /// keypoints has none, an aligned face of the wrong size, a failure of one of the
    /// models, or an answer of one of them that cannot be used.
    pub proof fn law_reasons_to_fail(self, rgb: RgbImage, faces: Seq<DetectedFace>, e: FaceIdErrorView)
        requires
            self.batch_analyzed(rgb, faces, Err(e)),
        ensures
            ({
                let (width, height) = (whole(rgb.spec_width()), whole(rgb.spec_height()));
                ||| exists|i: int|
                    {
                        &&& 0 <= i < faces.len()
                        &&& keypoints(#[trigger] faces[i], width, height) == Err::<Seq<Point>, FaceIdErrorView>(e)
                        &&& forall|k: int| 0 <= k < i ==> keypoints(#[trigger] faces[k], width, height) is Ok
                    }
                ||| exists|crop: RgbImage|
                    {
                        &&& crop.spec_width() != 112 || crop.spec_height() != 112
                        &&& e == #[trigger] misfit_error("ArcFace requires 112x112 input, got "@, crop)
                    }
                ||| exists|t: Tensor4, answer: Result<Option<ModelOutput>, FaceIdError>|
                    #![trigger call_ensures(self.embedder, (t,), answer)]
                    {
                        &&& call_ensures(self.embedder, (t,), answer)
                        &&& match answer {
                            Ok(output) => embedder::decoded(output, faces.len()) == Err::<
                                Seq<Seq<Binary32>>,
                                FaceIdErrorView,
                            >(e),
                            Err(failure) => failure@ == e,
                        }
                    }
                ||| exists|t: Tensor4, answer: Result<Option<ModelOutput>, FaceIdError>|
                    #![trigger call_ensures(self.gender_age, (t,), answer)]
                    {
                        &&& call_ensures(self.gender_age, (t,), answer)
                        &&& match answer {
                            Ok(output) => gender_age::decoded(output, faces.len()) == Err::<Seq<GenderAge>, FaceIdErrorView>(
                                e,
                            ),
                            Err(failure) => failure@ == e,
                        }
                    }
            }),
    {
        let (width, height) = (whole(rgb.spec_width()), whole(rgb.spec_height()));
        let result = Err::<Seq<FaceAnalysisView>, FaceIdErrorView>(e);
        if exists|i: int| #[trigger]
            first_unaligned(faces, width, height, i) && result == Err::<Seq<FaceAnalysisView>, FaceIdErrorView>(
                keypoints(faces[i], width, height)->Err_0,
            ) {
            let i = choose|i: int| #[trigger]
                first_unaligned(faces, width, height, i) && result == Err::<Seq<FaceAnalysisView>, FaceIdErrorView>(
                    keypoints(faces[i], width, height)->Err_0,
                );
            assert(keypoints(faces[i], width, height) == Err::<Seq<Point>, FaceIdErrorView>(e));
        } else {
            let (crops, answer) = choose|crops: Seq<RgbImage>, answer: Result<Seq<Seq<Binary32>>, FaceIdErrorView>|
                {
                    &&& all_aligned(self.align, rgb, faces, crops)
                    &&& #[trigger] embedded(self.embedder, crops, answer)
                    &&& match answer {
                        Ok(embeddings) => self.attributed(rgb, faces, embeddings, result),
                        Err(x) => result == Err::<Seq<FaceAnalysisView>, FaceIdErrorView>(x),
                    }
                };
            if answer is Err {
                assert(answer == Err::<Seq<Seq<Binary32>>, FaceIdErrorView>(e));
                if all_square(crops, embedder::INPUT_SIZE) {
                    assert(embedder::answered(self.embedder, crops, answer));
                } else {
                    let i = choose|i: int| #[trigger]
                        first_misfit(crops, embedder::INPUT_SIZE, i) && answer == Err::<
                            Seq<Seq<Binary32>>,
                            FaceIdErrorView,
                        >(misfit_error("ArcFace requires 112x112 input, got "@, crops[i]));
                    assert(!square(crops[i], embedder::INPUT_SIZE));
                    assert(e == misfit_error("ArcFace requires 112x112 input, got "@, crops[i]));
                }
            } else {
                let embeddings = answer->Ok_0;
                assert(self.attributed(rgb, faces, embeddings, result));
                let (shown, reply) = choose|shown: Seq<RgbImage>, reply: Result<Seq<GenderAge>, FaceIdErrorView>|
                    {
                        &&& all_shown(rgb, faces, shown)
                        &&& #[trigger] gender_age::answered(self.gender_age, shown, reply)
                        &&& result == (match reply {
                            Ok(attributes) => Ok(joined(faces, embeddings, attributes)),
                            Err(x) => Err(x),
                        })
                    };
                assert(reply == Err::<Seq<GenderAge>, FaceIdErrorView>(e));
            }
        }
    }
}

} // verus!
