use face_id::binary32::Binary32;
use face_id::detector::BoundingBox;
use face_id::error::FaceIdError;
use face_id::gender_age::{Gender, GenderAge, GenderAgeEstimator};
use face_id::raster::RgbImage;
use face_id::tensor::{ModelOutput, Tensor4};
use image::{DynamicImage, Rgb};

fn bits(v: f32) -> Binary32 {
    Binary32::from_bits(v.to_bits())
}

fn bbox(x1: f32, y1: f32, x2: f32, y2: f32) -> BoundingBox {
    BoundingBox { x1: bits(x1), y1: bits(y1), x2: bits(x2), y2: bits(y2) }
}

fn filled(width: u32, height: u32, p: (u8, u8, u8)) -> RgbImage {
    let mut img = RgbImage::new(width, height);
    for y in 0..height {
        for x in 0..width {
            img.put_pixel(x, y, p);
        }
    }
    img
}

fn output(shape: Vec<usize>, values: &[f32]) -> Option<ModelOutput> {
    Some(ModelOutput::new(shape, values.iter().map(|v| bits(*v)).collect()).unwrap())
}

fn decoded(values: &[f32]) -> Result<Vec<GenderAge>, FaceIdError> {
    let n = values.len() / 3;
    GenderAgeEstimator::decode(&output(vec![n, 3], values), n)
}

#[test]
fn input_tensor_preserves_rgb_channel_order() {
    let mut img = RgbImage::new(96, 96);
    img.put_pixel(0, 0, (10, 20, 30));

    let tensor = GenderAgeEstimator::create_input_tensor(&img).unwrap();

    let value = |c: usize| f32::from_bits(tensor.get(0, c, 0, 0).unwrap().bits);
    assert!((value(0) - 10.0).abs() < f32::EPSILON);
    assert!((value(1) - 20.0).abs() < f32::EPSILON);
    assert!((value(2) - 30.0).abs() < f32::EPSILON);
}

#[test]
fn crop_memory_is_bounded_by_output_size() {
    let img = filled(2, 2, (255, 255, 255));
    let bbox = bbox(-1.0e20, -1.0e20, 1.0e20, 1.0e20);

    let crop = GenderAgeEstimator::align_crop(&img, &bbox, 96);

    assert_eq!(crop.dimensions(), (96, 96));
}

#[test]
fn batch_tensor_has_every_byte_in_its_place() {
    let mut imgs = Vec::new();
    for n in 0..3u32 {
        let mut img = RgbImage::new(96, 96);
        for y in 0..96 {
            for x in 0..96 {
                img.put_pixel(x, y, ((x * 7 + y * 3 + n) as u8, (x + y * 5 + n * 11) as u8, (x * y + n) as u8));
            }
        }
        imgs.push(img);
    }
    let tensor = GenderAgeEstimator::create_input_tensor_batch(&imgs).unwrap();
    assert_eq!(tensor.dimensions(), (3, 3, 96, 96));
    for n in 0..3usize {
        for y in 0..96u32 {
            for x in 0..96u32 {
                let p = imgs[n].get_pixel(x, y);
                let at = |c: usize| tensor.get(n, c, y as usize, x as usize).unwrap();
                assert_eq!((at(0), at(1), at(2)), (bits(p.0.into()), bits(p.1.into()), bits(p.2.into())));
            }
        }
    }
    assert_eq!(tensor.get(3, 0, 0, 0), None);
    assert_eq!(tensor.get(0, 3, 0, 0), None);
    assert_eq!(tensor.get(0, 0, 96, 0), None);
    assert_eq!(tensor.get(0, 0, 0, 96), None);
}

#[test]
fn no_images_make_an_empty_attribute_tensor() {
    let tensor = GenderAgeEstimator::create_input_tensor_batch(&[]).unwrap();
    assert_eq!(tensor.dimensions(), (0, 3, 96, 96));
}

#[test]
fn attribute_images_of_the_wrong_size_are_refused() {
    let e = GenderAgeEstimator::create_input_tensor(&RgbImage::new(96, 112)).err().unwrap();
    assert_eq!(e, FaceIdError::InvalidModel("GenderAge requires 96x96 input, got 96x112".to_string()));
    let imgs = vec![RgbImage::new(96, 96), RgbImage::new(5, 0), RgbImage::new(1, 1)];
    let e = GenderAgeEstimator::create_input_tensor_batch(&imgs).err().unwrap();
    assert_eq!(e, FaceIdError::InvalidModel("GenderAge requires 96x96 input, got 5x0".to_string()));
}

#[test]
fn likelier_gender_wins_and_ties_are_female() {
    let list = decoded(&[0.2, 0.8, 0.25, 0.8, 0.2, 0.25, 0.5, 0.5, 0.25, 0.0, -0.0, 0.25]).unwrap();
    let genders: Vec<Gender> = list.iter().map(|a| a.gender).collect();
    assert_eq!(genders, vec![Gender::Male, Gender::Female, Gender::Female, Gender::Female]);
    assert!(list.iter().all(|a| a.age == 25));
}

#[test]
fn ages_are_rounded_and_kept_within_a_hundred() {
    let raw: Vec<f32> = vec![
        0.0, -0.0, -3.0, 0.004, 0.005, 0.0051, 0.25, 0.335, 0.345, 0.625, 0.9949, 0.995, 0.9951, 1.0, 7.0, 3.0e38, -3.0e38, 1.0e-40,
    ];
    let mut values = Vec::new();
    for age in &raw {
        values.extend([0.0, 1.0, *age]);
    }
    let list = decoded(&values).unwrap();
    for (a, age) in list.iter().zip(&raw) {
        assert_eq!(a.age, (age * 100.0).round().clamp(0.0, 100.0) as u8, "{age}");
        assert!(a.age <= 100);
    }
    assert_eq!(list[6].age, 25);
    assert_eq!(list[9].age, 63);
    assert_eq!(list[14].age, 100);
}

#[test]
fn non_finite_attributes_are_refused() {
    for bad in [f32::NAN, f32::INFINITY, f32::NEG_INFINITY] {
        for place in 0..3 {
            let mut values = [0.1; 9];
            values[3 + place] = bad;
            values[6] = f32::NAN;
            let e = decoded(&values).unwrap_err();
            assert_eq!(
                e,
                FaceIdError::InvalidModel("Gender/age model produced non-finite values for batch item 1".to_string())
            );
        }
    }
}

#[test]
fn attribute_shapes_are_checked() {
    let cases: Vec<(Vec<usize>, usize, &str)> = vec![
        (vec![2, 2], 4, "[2, 2]"),
        (vec![3, 3], 9, "[3, 3]"),
        (vec![6], 6, "[6]"),
        (vec![2, 3, 1], 6, "[2, 3, 1]"),
        (vec![], 1, "[]"),
    ];
    for (shape, count, text) in cases {
        let e = GenderAgeEstimator::decode(&output(shape, &vec![0.0; count]), 2).unwrap_err();
        let expected = format!("GenderAge output shape mismatch: expected [2, 3], got {text}");
        assert_eq!(e, FaceIdError::Ort(expected));
    }
}

#[test]
fn missing_attribute_output_is_refused() {
    let e = GenderAgeEstimator::decode(&None, 1).unwrap_err();
    assert_eq!(e, FaceIdError::InvalidModel("Gender/age model produced no outputs".to_string()));
}

#[test]
fn model_outputs_need_as_many_values_as_their_shape() {
    assert!(ModelOutput::new(vec![2, 3], vec![bits(0.0); 5]).is_none());
    assert!(ModelOutput::new(vec![usize::MAX, 2], vec![]).is_none());
    assert!(ModelOutput::new(vec![1 << 40, 1 << 40], vec![]).is_none());
    assert!(ModelOutput::new(vec![1 << 40, 1 << 40, 0], vec![]).is_some());
    let o = ModelOutput::new(vec![2, 3], vec![bits(1.0); 6]).unwrap();
    assert_eq!(o.shape(), &vec![2, 3]);
    assert_eq!(o.data().len(), 6);
}

#[test]
fn a_batch_goes_through_the_attribute_model() {
    let imgs = vec![filled(96, 96, (1, 2, 3)), filled(96, 96, (4, 5, 6))];
    let run = |t: Tensor4| {
        assert_eq!(t.dimensions(), (2, 3, 96, 96));
        let first = f32::from_bits(t.get(0, 2, 95, 95).unwrap().bits);
        let second = f32::from_bits(t.get(1, 0, 0, 0).unwrap().bits);
        Ok(output(vec![2, 3], &[1.0, 0.0, first / 100.0, 0.0, 1.0, second / 100.0]))
    };
    let list = GenderAgeEstimator::estimate_batch(&imgs, run).unwrap();
    assert_eq!(
        list,
        vec![GenderAge { gender: Gender::Female, age: 3 }, GenderAge { gender: Gender::Male, age: 4 }]
    );
}

#[test]
fn an_empty_attribute_batch_asks_nothing() {
    let run = |_: Tensor4| -> Result<Option<ModelOutput>, FaceIdError> { panic!("the model was asked") };
    assert_eq!(GenderAgeEstimator::estimate_batch(&[], run).unwrap(), vec![]);
}

#[test]
fn attribute_model_failures_come_through() {
    let imgs = vec![RgbImage::new(96, 96)];
    let run = |_: Tensor4| Err(FaceIdError::Ort("out of memory".to_string()));
    let e = GenderAgeEstimator::estimate_batch(&imgs, run).unwrap_err();
    assert_eq!(e, FaceIdError::Ort("out of memory".to_string()));
}

#[test]
fn an_estimate_crops_the_converted_image() {
    let gray = image::GrayImage::from_pixel(40, 40, image::Luma([77]));
    let img = DynamicImage::ImageLuma8(gray);
    let run = |t: Tensor4| {
        assert_eq!(t.dimensions(), (1, 3, 96, 96));
        let seen: Vec<f32> = (0..3).map(|c| f32::from_bits(t.get(0, c, 48, 48).unwrap().bits)).collect();
        assert_eq!(seen, vec![77.0, 77.0, 77.0]);
        Ok(output(vec![1, 3], &[0.1, 0.9, 0.42]))
    };
    let r = GenderAgeEstimator::estimate(&img, &bbox(0.25, 0.25, 0.75, 0.75), run).unwrap();
    assert_eq!(r, GenderAge { gender: Gender::Male, age: 42 });
    let none = |_: Tensor4| Ok(None);
    let e = GenderAgeEstimator::estimate(&img, &bbox(0.25, 0.25, 0.75, 0.75), none).unwrap_err();
    assert_eq!(e, FaceIdError::InvalidModel("Gender/age model produced no outputs".to_string()));
}

/// The crop as ordinary floating point arithmetic gives it.
fn expected_crop(img: &image::RgbImage, b: [f32; 4], size: u32) -> Vec<[u8; 3]> {
    let (w, h) = img.dimensions();
    let x1 = b[0].clamp(0.0, 1.0) * w as f32;
    let y1 = b[1].clamp(0.0, 1.0) * h as f32;
    let x2 = b[2].clamp(0.0, 1.0) * w as f32;
    let y2 = b[3].clamp(0.0, 1.0) * h as f32;
    let (cx, cy) = ((x1 + x2) * 0.5, (y1 + y2) * 0.5);
    let scale = (x2 - x1).max(y2 - y1) * 1.5 / size as f32;
    let half = size as f32 * 0.5;
    let mut list = Vec::new();
    for py in 0..size {
        let y = (py as f32 - half).mul_add(scale, cy);
        for px in 0..size {
            let x = (px as f32 - half).mul_add(scale, cx);
            list.push(expected_sample(img, x, y));
        }
    }
    list
}

fn expected_sample(img: &image::RgbImage, x: f32, y: f32) -> [u8; 3] {
    let (w, h) = img.dimensions();
    if x < 0.0 || y < 0.0 || x >= w as f32 || y >= h as f32 {
        return [0, 0, 0];
    }
    let (x0, y0) = (x.floor() as u32, y.floor() as u32);
    let (x1, y1) = ((x0 + 1).min(w - 1), (y0 + 1).min(h - 1));
    let (fx, fy) = (x - x0 as f32, y - y0 as f32);
    let mut r = [0; 3];
    for c in 0..3 {
        let at = |x: u32, y: u32| f32::from(img.get_pixel(x, y)[c]);
        let top = (at(x1, y0) - at(x0, y0)).mul_add(fx, at(x0, y0));
        let bottom = (at(x1, y1) - at(x0, y1)).mul_add(fx, at(x0, y1));
        r[c] = (bottom - top).mul_add(fy, top) as u8;
    }
    r
}

#[test]
fn crops_agree_with_floating_point() {
    let mut buffer = image::RgbImage::new(37, 23);
    for (x, y, p) in buffer.enumerate_pixels_mut() {
        *p = Rgb([(x * 9 + y) as u8, (y * 13 + x * 2) as u8, (x * y * 3) as u8]);
    }
    let img = RgbImage::from_raw(37, 23, buffer.as_raw().clone()).unwrap();
    for b in [[0.1, 0.2, 0.7, 0.9], [0.0, 0.0, 1.0, 1.0], [-2.0, 0.3, 0.4, 0.35], [0.9, 0.9, 3.0, 7.0]] {
        let crop = GenderAgeEstimator::align_crop(&img, &bbox(b[0], b[1], b[2], b[3]), 24);
        let expected = expected_crop(&buffer, b, 24);
        for py in 0..24 {
            for px in 0..24 {
                let (r, g, b) = crop.get_pixel(px, py);
                assert_eq!([r, g, b], expected[(py * 24 + px) as usize]);
            }
        }
    }
}

#[test]
fn crops_without_an_area_are_black() {
    let img = filled(8, 8, (200, 100, 50));
    for b in [
        bbox(0.5, 0.2, 0.5, 0.8),
        bbox(0.8, 0.2, 0.2, 0.8),
        bbox(0.2, 0.9, 0.8, 0.1),
        bbox(f32::NAN, 0.2, 0.8, 0.8),
        bbox(0.2, 0.2, f32::INFINITY, 0.8),
        bbox(1.5, 0.2, 1.9, 0.8),
    ] {
        let crop = GenderAgeEstimator::align_crop(&img, &b, 4);
        assert_eq!(crop.dimensions(), (4, 4));
        assert!(crop.as_raw().iter().all(|v| *v == 0));
    }
    assert_eq!(GenderAgeEstimator::align_crop(&img, &bbox(0.2, 0.2, 0.8, 0.8), 0).dimensions(), (0, 0));
    let none = GenderAgeEstimator::align_crop(&RgbImage::new(0, 5), &bbox(0.2, 0.2, 0.8, 0.8), 3);
    assert!(none.as_raw().iter().all(|v| *v == 0));
}
