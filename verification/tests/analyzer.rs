use face_id::analyzer::{join_results, FaceAnalysis, FaceAnalyzer, ANALYSIS_BATCH_SIZE};
use face_id::binary32::Binary32;
use face_id::detector::{BoundingBox, DetectedFace};
use face_id::error::FaceIdError;
use face_id::gender_age::{Gender, GenderAge};
use face_id::landmarks::{absolute_keypoints, Point};
use face_id::raster::RgbImage;
use face_id::tensor::{ModelOutput, Tensor4};
use image::{DynamicImage, Rgb};
use std::cell::RefCell;

fn bits(v: f32) -> Binary32 {
    Binary32::from_bits(v.to_bits())
}

fn points(list: &[(f32, f32)]) -> Option<Vec<Point>> {
    Some(list.iter().map(|(x, y)| (bits(*x), bits(*y))).collect())
}

const FIVE: [(f32, f32); 5] = [(0.25, 0.25), (0.75, 0.25), (0.5, 0.5), (0.25, 0.75), (0.75, 0.75)];

fn face(landmarks: Option<Vec<Point>>, score: f32) -> DetectedFace {
    DetectedFace {
        bbox: BoundingBox { x1: bits(0.25), y1: bits(0.25), x2: bits(0.75), y2: bits(0.75) },
        landmarks,
        score: bits(score),
    }
}

fn faces(n: usize) -> Vec<DetectedFace> {
    (0..n).map(|i| face(points(&FIVE), i as f32)).collect()
}

fn picture() -> DynamicImage {
    DynamicImage::ImageRgb8(image::RgbImage::from_pixel(64, 32, Rgb([10, 20, 30])))
}

fn output(shape: Vec<usize>, values: &[f32]) -> Option<ModelOutput> {
    Some(ModelOutput::new(shape, values.iter().map(|v| bits(*v)).collect()).unwrap())
}

fn plain_align(_: &RgbImage, _: &[Point; 5], size: u32) -> RgbImage {
    RgbImage::new(size, size)
}

fn plain_embed(t: Tensor4) -> Result<Option<ModelOutput>, FaceIdError> {
    let n = t.dimensions().0;
    let values: Vec<f32> = (0..n).flat_map(|i| [3.0 + i as f32, 4.0]).collect();
    Ok(output(vec![n, 2], &values))
}

fn plain_attributes(t: Tensor4) -> Result<Option<ModelOutput>, FaceIdError> {
    let n = t.dimensions().0;
    let values: Vec<f32> = (0..n).flat_map(|i| [0.0, (i % 2) as f32, i as f32 / 100.0]).collect();
    Ok(output(vec![n, 3], &values))
}

fn analyzed(list: Vec<DetectedFace>) -> Result<Vec<FaceAnalysis>, FaceIdError> {
    let given = RefCell::new(Some(list));
    let detect = |_: &DynamicImage| Ok(given.borrow_mut().take().unwrap());
    FaceAnalyzer::new(detect, plain_align, plain_embed, plain_attributes).analyze(&picture())
}

#[test]
fn one_face_gets_all_results() {
    let r = analyzed(faces(1)).unwrap();
    assert_eq!(r.len(), 1);
    assert_eq!(r[0].detection, faces(1)[0]);
    assert_eq!(r[0].embedding, vec![bits(3.0 * (1.0 / 5.0)), bits(4.0 * (1.0 / 5.0))]);
    assert_eq!((r[0].gender, r[0].age), (Gender::Female, 0));
}

#[test]
fn no_faces_ask_no_model() {
    let detect = |_: &DynamicImage| Ok(vec![]);
    let align = |_: &RgbImage, _: &[Point; 5], _: u32| -> RgbImage { panic!("nothing to align") };
    let model = |_: Tensor4| -> Result<Option<ModelOutput>, FaceIdError> { panic!("nothing to ask") };
    assert_eq!(FaceAnalyzer::new(detect, align, model, model).analyze(&picture()).unwrap(), vec![]);
}

#[test]
fn every_face_gets_an_analysis_in_order() {
    for n in [1, 63, 64, 65, 128, 130] {
        let r = analyzed(faces(n)).unwrap();
        assert_eq!(r.len(), n);
        for (i, a) in r.iter().enumerate() {
            assert_eq!(a.detection.score, bits(i as f32));
            let place = i % ANALYSIS_BATCH_SIZE;
            assert_eq!(a.age as usize, place);
            assert_eq!(a.gender, if place % 2 == 1 { Gender::Male } else { Gender::Female });
        }
    }
}

#[test]
fn batches_are_bounded() {
    let sizes = RefCell::new(Vec::new());
    let detect = |_: &DynamicImage| Ok(faces(150));
    let embed = |t: Tensor4| {
        sizes.borrow_mut().push(t.dimensions());
        plain_embed(t)
    };
    let attributes = |t: Tensor4| {
        sizes.borrow_mut().push(t.dimensions());
        plain_attributes(t)
    };
    FaceAnalyzer::new(detect, plain_align, embed, attributes).analyze(&picture()).unwrap();
    assert_eq!(
        sizes.into_inner(),
        vec![
            (64, 3, 112, 112),
            (64, 3, 96, 96),
            (64, 3, 112, 112),
            (64, 3, 96, 96),
            (22, 3, 112, 112),
            (22, 3, 96, 96),
        ]
    );
}

#[test]
fn faces_are_aligned_by_their_keypoints_in_pixels() {
    let detect = |_: &DynamicImage| Ok(faces(1));
    let align = |img: &RgbImage, p: &[Point; 5], size: u32| {
        assert_eq!(img.dimensions(), (64, 32));
        assert_eq!(img.get_pixel(0, 0), (10, 20, 30));
        assert_eq!(size, 112);
        for (given, (x, y)) in p.iter().zip(FIVE) {
            assert_eq!(*given, (bits(x * 64.0), bits(y * 32.0)));
        }
        let mut crop = RgbImage::new(size, size);
        crop.put_pixel(0, 0, (255, 0, 0));
        crop
    };
    let embed = |t: Tensor4| {
        assert_eq!(t.get(0, 0, 0, 0), Some(bits(1.0)));
        plain_embed(t)
    };
    let attributes = |t: Tensor4| {
        assert_eq!(t.get(0, 1, 48, 48), Some(bits(20.0)));
        plain_attributes(t)
    };
    assert_eq!(FaceAnalyzer::new(detect, align, embed, attributes).analyze(&picture()).unwrap().len(), 1);
}

#[test]
fn the_first_unusable_face_of_a_batch_decides() {
    let mut list = faces(70);
    list[3].landmarks = points(&FIVE[..4]);
    list[5].landmarks = None;
    assert_eq!(
        analyzed(list).unwrap_err(),
        FaceIdError::InvalidModel("Landmarks were not 5-point keypoints".to_string())
    );
    let mut list = faces(70);
    list[69].landmarks = None;
    assert_eq!(
        analyzed(list).unwrap_err(),
        FaceIdError::InvalidModel("One or more faces missing landmarks for embedding".to_string())
    );
}

#[test]
fn no_model_is_asked_for_a_batch_without_keypoints_nor_after_a_failure() {
    let asked = RefCell::new(Vec::new());
    let attributes = |t: Tensor4| {
        asked.borrow_mut().push(("attributes", t.dimensions().0));
        plain_attributes(t)
    };
    let embed = |t: Tensor4| {
        let n = t.dimensions().0;
        asked.borrow_mut().push(("embedder", n));
        plain_embed(t)
    };
    let detect = |_: &DynamicImage| {
        let mut list = faces(200);
        list[70].landmarks = None;
        Ok(list)
    };
    assert!(FaceAnalyzer::new(detect, plain_align, embed, attributes).analyze(&picture()).is_err());
    assert_eq!(asked.take(), vec![("embedder", 64), ("attributes", 64)]);

    let detect = |_: &DynamicImage| Ok(faces(200));
    let broken = |t: Tensor4| -> Result<Option<ModelOutput>, FaceIdError> {
        asked.borrow_mut().push(("embedder", t.dimensions().0));
        Ok(None)
    };
    assert!(FaceAnalyzer::new(detect, plain_align, broken, attributes).analyze(&picture()).is_err());
    assert_eq!(asked.take(), vec![("embedder", 64)]);
}

#[test]
fn failures_come_through() {
    let poisoned = |_: &DynamicImage| Err(FaceIdError::MutexPoisoned("Detector".to_string()));
    let e = FaceAnalyzer::new(poisoned, plain_align, plain_embed, plain_attributes).analyze(&picture()).unwrap_err();
    assert_eq!(e, FaceIdError::MutexPoisoned("Detector".to_string()));

    let detect = |_: &DynamicImage| Ok(faces(2));
    let broken = |_: Tensor4| -> Result<Option<ModelOutput>, FaceIdError> { Err(FaceIdError::Ort("broken".to_string())) };
    let e = FaceAnalyzer::new(detect, plain_align, broken, plain_attributes).analyze(&picture()).unwrap_err();
    assert_eq!(e, FaceIdError::Ort("broken".to_string()));
    let e = FaceAnalyzer::new(detect, plain_align, plain_embed, broken).analyze(&picture()).unwrap_err();
    assert_eq!(e, FaceIdError::Ort("broken".to_string()));

    let none = |_: Tensor4| -> Result<Option<ModelOutput>, FaceIdError> { Ok(None) };
    let e = FaceAnalyzer::new(detect, plain_align, none, plain_attributes).analyze(&picture()).unwrap_err();
    assert_eq!(e, FaceIdError::InvalidModel("Embedder produced no outputs".to_string()));

    let small = |_: &RgbImage, _: &[Point; 5], _: u32| RgbImage::new(3, 4);
    let e = FaceAnalyzer::new(detect, small, plain_embed, plain_attributes).analyze(&picture()).unwrap_err();
    assert_eq!(e, FaceIdError::InvalidModel("ArcFace requires 112x112 input, got 3x4".to_string()));
}

#[test]
fn degenerate_keypoints_are_refused() {
    let refused = FaceIdError::InvalidModel("Face landmarks are non-finite or degenerate".to_string());
    let one = bits(1.0);
    let mut with_infinity = FIVE;
    with_infinity[2].0 = f32::INFINITY;
    let tight: Vec<(f32, f32)> = (0..5).map(|i| (0.5 + i as f32 * 1.0e-4, 0.5)).collect();
    for list in [with_infinity.to_vec(), vec![(0.5, 0.5); 5], vec![(f32::NAN, f32::NAN); 5], tight] {
        let r = absolute_keypoints(&face(points(&list), 0.0), one, one);
        assert_eq!(r.unwrap_err(), refused);
    }
    // Scaling can push them out of range, or spread them.
    let huge = bits(3.0e38);
    let far: Vec<(f32, f32)> = FIVE.iter().map(|(x, y)| (x * 10.0, y * 10.0)).collect();
    assert_eq!(absolute_keypoints(&face(points(&far), 0.0), huge, one).unwrap_err(), refused);
    let spread: Vec<(f32, f32)> = (0..5).map(|i| (0.5 + i as f32 * 1.0e-4, 0.5)).collect();
    assert!(absolute_keypoints(&face(points(&spread), 0.0), bits(100.0), one).is_ok());
}

#[test]
fn keypoints_that_are_not_numbers_do_not_count_for_the_extent() {
    let mut list = FIVE;
    list[1].1 = f32::NAN;
    let r = absolute_keypoints(&face(points(&list), 0.0), bits(2.0), bits(4.0)).unwrap();
    assert_eq!(r[0], (bits(0.5), bits(1.0)));
    assert!(r[1].1.is_nan());
}

#[test]
fn inconsistent_results_are_refused() {
    let attributes = vec![GenderAge { gender: Gender::Male, age: 9 }];
    let e = join_results(faces(2), vec![vec![]; 3], &attributes).unwrap_err();
    let expected = "Inconsistent batch results: expected 2, got 3 embeddings and 1 gender/age results";
    assert_eq!(e, FaceIdError::Ort(expected.to_string()));
    let r = join_results(faces(1), vec![vec![bits(1.0)]], &attributes).unwrap();
    assert_eq!(r[0], FaceAnalysis { detection: faces(1).remove(0), embedding: vec![bits(1.0)], gender: Gender::Male, age: 9 });
}
