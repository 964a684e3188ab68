use face_id::binary32::Binary32;
use face_id::embedder::ArcFaceEmbedder;
use face_id::error::FaceIdError;
use face_id::raster::RgbImage;
use face_id::tensor::{Matrix, ModelOutput, Tensor4};

fn bits(v: f32) -> Binary32 {
    Binary32::from_bits(v.to_bits())
}

fn all_bits(values: &[f32]) -> Vec<Binary32> {
    values.iter().map(|v| bits(*v)).collect()
}

fn values(list: &[Binary32]) -> Vec<f32> {
    list.iter().map(|b| f32::from_bits(b.bits)).collect()
}

fn output(shape: Vec<usize>, values: &[f32]) -> Option<ModelOutput> {
    Some(ModelOutput::new(shape, all_bits(values)).unwrap())
}

/// Normalization in ordinary floating point arithmetic.
fn expected_normal(v: &[f32]) -> Vec<f32> {
    let norm = v.iter().map(|x| x * x).sum::<f32>().sqrt();
    if norm > 1e-12 {
        v.iter().map(|x| x * (1.0 / norm)).collect()
    } else {
        v.to_vec()
    }
}

fn wave(n: usize, seed: u32) -> Vec<f32> {
    let mut state = seed;
    (0..n)
        .map(|_| {
            state = state.wrapping_mul(1664525).wrapping_add(1013904223);
            (state >> 8) as f32 / 8388608.0 - 1.0
        })
        .collect()
}

#[test]
fn checked_similarity_rejects_different_lengths() {
    let (one, two) = (all_bits(&[1.0]), all_bits(&[1.0, 0.0]));
    assert!(ArcFaceEmbedder::try_compute_similarity(&one, &two).is_err());
    assert!(ArcFaceEmbedder::compute_similarity(&one, &two).is_nan());
}

#[test]
fn batch_normalization_handles_zero_rows() {
    let mut embeddings = Matrix::from_shape_vec(2, 2, &all_bits(&[3.0, 4.0, 0.0, 0.0])).unwrap();
    ArcFaceEmbedder::l2_normalize_batch(&mut embeddings);
    let first = values(&embeddings.row_values(0));
    assert!((first[0] - 0.6).abs() < 1e-6);
    assert!((first[1] - 0.8).abs() < 1e-6);
    assert_eq!(values(&embeddings.row_values(1)), vec![0.0, 0.0]);
    assert_eq!(embeddings.row_count(), 2);
}

#[test]
fn similarity_errors_say_what_is_wrong() {
    let lengths = |a: &[f32], b: &[f32]| ArcFaceEmbedder::try_compute_similarity(&all_bits(a), &all_bits(b)).unwrap_err();
    assert_eq!(
        lengths(&[1.0], &[1.0, 0.0]),
        FaceIdError::InvalidModel("Embedding lengths must be equal and non-zero, got 1 and 2".to_string())
    );
    assert_eq!(
        lengths(&[], &[]),
        FaceIdError::InvalidModel("Embedding lengths must be equal and non-zero, got 0 and 0".to_string())
    );
    for bad in [f32::NAN, f32::INFINITY, f32::NEG_INFINITY] {
        let expected = FaceIdError::InvalidModel("Embeddings must contain only finite values".to_string());
        assert_eq!(lengths(&[1.0, bad], &[1.0, 0.0]), expected);
        assert_eq!(lengths(&[1.0, 0.0], &[bad, 0.0]), expected);
        assert!(ArcFaceEmbedder::compute_similarity(&all_bits(&[bad]), &all_bits(&[1.0])).is_nan());
    }
}

#[test]
fn similarity_agrees_with_floating_point() {
    for seed in 1..6 {
        let (a, b) = (wave(512, seed), wave(512, seed + 100));
        let expected = a.iter().zip(&b).map(|(x, y)| x * y).fold(-0.0f32, |s, p| s + p);
        let r = ArcFaceEmbedder::compute_similarity(&all_bits(&a), &all_bits(&b));
        assert_eq!(r, bits(expected));
        assert_eq!(ArcFaceEmbedder::try_compute_similarity(&all_bits(&a), &all_bits(&b)).unwrap(), r);
    }
    assert_eq!(ArcFaceEmbedder::compute_similarity(&all_bits(&[2.0, 3.0]), &all_bits(&[5.0, 7.0])), bits(31.0));
}

#[test]
fn similarity_is_symmetric() {
    let (a, b) = (all_bits(&wave(64, 3)), all_bits(&wave(64, 9)));
    assert_eq!(ArcFaceEmbedder::compute_similarity(&a, &b), ArcFaceEmbedder::compute_similarity(&b, &a));
}

#[test]
fn normalization_agrees_with_floating_point() {
    for v in [
        wave(512, 17),
        vec![3.0, 4.0],
        vec![1.0e-13, 0.0],
        vec![1.0e-11, 1.0e-11],
        vec![3.0e38, 3.0e38],
        vec![-5.0],
        vec![],
    ] {
        let mut list = all_bits(&v);
        ArcFaceEmbedder::l2_normalize(&mut list);
        assert_eq!(list, all_bits(&expected_normal(&v)), "{v:?}");
    }
}

#[test]
fn normalized_vectors_are_about_one_long() {
    let mut list = all_bits(&wave(512, 4));
    ArcFaceEmbedder::l2_normalize(&mut list);
    assert_eq!(list.len(), 512);
    let square: f64 = values(&list).iter().map(|x| f64::from(*x) * f64::from(*x)).sum();
    assert!((square - 1.0).abs() < 1e-5);
    let own = f32::from_bits(ArcFaceEmbedder::compute_similarity(&list, &list).bits);
    assert!((own - 1.0).abs() < 1e-5);
}

#[test]
fn similarities_of_normalized_vectors_stay_near_one() {
    for seed in 0..20 {
        let (mut a, mut b) = (all_bits(&wave(128, seed)), all_bits(&wave(128, seed / 2 + 1)));
        ArcFaceEmbedder::l2_normalize(&mut a);
        ArcFaceEmbedder::l2_normalize(&mut b);
        let s = f32::from_bits(ArcFaceEmbedder::compute_similarity(&a, &b).bits);
        let slack = (41.0 * 128.0 + 260.0) / 268435456.0;
        assert!(s.abs() <= 1.0 + slack);
        let own = f32::from_bits(ArcFaceEmbedder::compute_similarity(&a, &a).bits);
        assert!((own - 1.0).abs() <= slack);
    }
}

#[test]
fn negating_flips_the_similarity() {
    for seed in 1..10 {
        let (a, b) = (wave(100, seed), wave(100, seed + 50));
        let other: Vec<f32> = b.iter().map(|x| -x).collect();
        let s = f32::from_bits(ArcFaceEmbedder::compute_similarity(&all_bits(&a), &all_bits(&b)).bits);
        let t = ArcFaceEmbedder::compute_similarity(&all_bits(&a), &all_bits(&other));
        assert_eq!(t, bits(-s));
    }
    // Values that cancel leave a positive zero either way.
    let a = all_bits(&[1.0, 1.0]);
    assert_eq!(ArcFaceEmbedder::compute_similarity(&a, &all_bits(&[2.0, -2.0])), bits(0.0));
    assert_eq!(ArcFaceEmbedder::compute_similarity(&a, &all_bits(&[-2.0, 2.0])), bits(0.0));
}

#[test]
fn normalizing_keeps_the_direction() {
    for v in [wave(512, 8), wave(512, 9).iter().map(|x| x * 1.0e17).collect(), vec![1.0e-11, -2.0e-11]] {
        let mut list = all_bits(&v);
        ArcFaceEmbedder::l2_normalize(&mut list);
        let norm = v.iter().map(|x| f64::from(*x) * f64::from(*x)).sum::<f64>().sqrt();
        let slack = (19.0 * v.len() as f64 + 170.0) / 268435456.0;
        for (new, old) in values(&list).iter().zip(&v) {
            assert!((f64::from(*new) - f64::from(*old) / norm).abs() <= slack);
            assert_eq!(new.is_sign_negative(), old.is_sign_negative());
        }
    }
}

#[test]
fn normalizing_twice_changes_next_to_nothing() {
    for seed in 1..6 {
        let mut list = all_bits(&wave(512, seed));
        ArcFaceEmbedder::l2_normalize(&mut list);
        let once = values(&list);
        ArcFaceEmbedder::l2_normalize(&mut list);
        let slack = (44.0 * 512.0 + 420.0) / 268435456.0;
        assert!(values(&list).iter().zip(&once).all(|(b, a)| (b - a).abs() <= slack));
    }
}

#[test]
fn similarities_of_normalized_vectors_keep_their_range() {
    for v in [vec![3.0, 2.0], vec![2.0, 2.0, 1.0]] {
        let mut list = all_bits(&v);
        ArcFaceEmbedder::l2_normalize(&mut list);
        let other: Vec<Binary32> = values(&list).iter().map(|x| bits(-x)).collect();
        // The plain sum passes one by the last bit.
        assert_eq!(ArcFaceEmbedder::try_compute_similarity(&list, &list).unwrap(), bits(1.0 + f32::EPSILON));
        assert_eq!(ArcFaceEmbedder::compute_similarity(&list, &list), bits(1.0));
        assert_eq!(ArcFaceEmbedder::compute_similarity(&list, &other), bits(-1.0));
    }
    for seed in 0..200 {
        let (mut a, mut b) = (all_bits(&wave(16, seed)), all_bits(&wave(16, seed + 1)));
        ArcFaceEmbedder::l2_normalize(&mut a);
        ArcFaceEmbedder::l2_normalize(&mut b);
        for (x, y) in [(&a, &a), (&a, &b)] {
            let s = f32::from_bits(ArcFaceEmbedder::compute_similarity(x, y).bits);
            assert!((-1.0..=1.0).contains(&s));
        }
    }
}

#[test]
fn only_what_rounding_adds_is_taken_off() {
    let one_value = |x: f32| ArcFaceEmbedder::compute_similarity(&all_bits(&[x]), &all_bits(&[1.0]));
    let step = f32::EPSILON;
    // One value leaves room for 301 parts in 2^28, which is nine times the last bit.
    assert_eq!(one_value(1.0 + 9.0 * step), bits(1.0));
    assert_eq!(one_value(1.0 + 10.0 * step), bits(1.0 + 10.0 * step));
    assert_eq!(one_value(-1.0 - 9.0 * step), bits(-1.0));
    assert_eq!(one_value(-1.0 - 10.0 * step), bits(-1.0 - 10.0 * step));
    assert_eq!(one_value(2.0), bits(2.0));
    assert_eq!(one_value(0.999), bits(0.999));
    let many = vec![bits(1.0); 0x10_0001];
    let sum = ArcFaceEmbedder::compute_similarity(&many, &many);
    assert_eq!(sum, bits(0x10_0001 as f32));
}

#[test]
fn similarity_is_the_cosine() {
    for seed in 1..20 {
        let (mut a, mut b) = (all_bits(&wave(512, seed)), all_bits(&wave(512, seed + 7)));
        ArcFaceEmbedder::l2_normalize(&mut a);
        ArcFaceEmbedder::l2_normalize(&mut b);
        let wide = |v: &[Binary32]| values(v).iter().map(|x| f64::from(*x)).collect::<Vec<f64>>();
        let dot = |x: &[f64], y: &[f64]| x.iter().zip(y).map(|(p, q)| p * q).sum::<f64>();
        let (x, y) = (wide(&a), wide(&b));
        let cosine = dot(&x, &y) / (dot(&x, &x) * dot(&y, &y)).sqrt();
        let s = f64::from(f32::from_bits(ArcFaceEmbedder::compute_similarity(&a, &b).bits));
        assert!((s - cosine).abs() <= (48.0 * 512.0 + 500.0) / 268435456.0);
    }
}

#[test]
fn zero_vectors_stay() {
    let mut list = all_bits(&[0.0, -0.0, 0.0]);
    let before = list.clone();
    ArcFaceEmbedder::l2_normalize(&mut list);
    assert_eq!(list, before);
}

#[test]
fn matrices_need_as_many_values_as_their_shape() {
    let data = all_bits(&[1.0, 2.0, 3.0, 4.0, 5.0, 6.0]);
    assert!(Matrix::from_shape_vec(2, 2, &data).is_none());
    assert!(Matrix::from_shape_vec(usize::MAX, 1, &data).is_none());
    assert!(Matrix::from_shape_vec(1 << 40, 1 << 40, &data).is_none());
    let m = Matrix::from_shape_vec(2, 3, &data).unwrap();
    assert_eq!(m.row_count(), 2);
    assert_eq!(values(&m.row_values(0)), vec![1.0, 2.0, 3.0]);
    assert_eq!(values(&m.row_values(1)), vec![4.0, 5.0, 6.0]);
    assert_eq!(Matrix::from_shape_vec(0, 3, &vec![]).unwrap().row_count(), 0);
    assert_eq!(Matrix::from_shape_vec(2, 0, &vec![]).unwrap().row_values(1), vec![]);
}

#[test]
fn bytes_are_centred() {
    let mut img = RgbImage::new(112, 112);
    for i in 0..256u32 {
        img.put_pixel(i % 112, i / 112, (i as u8, 255 - i as u8, 7));
    }
    let tensor = ArcFaceEmbedder::create_input_tensor(&img).unwrap();
    assert_eq!(tensor.dimensions(), (1, 3, 112, 112));
    for i in 0..256usize {
        let at = |c: usize| tensor.get(0, c, i / 112, i % 112).unwrap();
        let centred = |b: u8| bits((f32::from(b) - 127.5) / 127.5);
        assert_eq!(at(0), centred(i as u8));
        assert_eq!(at(1), centred(255 - i as u8));
        assert_eq!(at(2), centred(7));
        let v = f32::from_bits(at(0).bits);
        assert!((-1.0..=1.0).contains(&v));
        // The byte can be read back, and the other end of the range is the negative.
        assert_eq!((v * 127.5 + 127.5).round(), i as f32);
        assert_eq!(at(1), bits(-v));
        if i > 0 {
            let before = tensor.get(0, 0, (i - 1) / 112, (i - 1) % 112).unwrap();
            assert!(before.less_than(at(0)));
        }
    }
    assert_eq!(tensor.get(0, 0, 0, 0), Some(bits(-1.0)));
    assert_eq!(tensor.get(0, 1, 0, 0), Some(bits(1.0)));
}

#[test]
fn embedder_images_of_the_wrong_size_are_refused() {
    let e = ArcFaceEmbedder::create_input_tensor(&RgbImage::new(96, 96)).err().unwrap();
    assert_eq!(e, FaceIdError::InvalidModel("ArcFace requires 112x112 input, got 96x96".to_string()));
    let imgs = vec![RgbImage::new(112, 112), RgbImage::new(112, 111)];
    let e = ArcFaceEmbedder::create_input_tensor_batch(&imgs).err().unwrap();
    assert_eq!(e, FaceIdError::InvalidModel("ArcFace requires 112x112 input, got 112x111".to_string()));
    let run = |_: Tensor4| -> Result<Option<ModelOutput>, FaceIdError> { panic!("the model was asked") };
    assert_eq!(
        ArcFaceEmbedder::compute_embedding(&RgbImage::new(1, 2), run).unwrap_err(),
        FaceIdError::InvalidModel("ArcFace requires 112x112 input, got 1x2".to_string())
    );
}

#[test]
fn embeddings_are_read_row_by_row_and_normalized() {
    let r = ArcFaceEmbedder::decode(&output(vec![2, 3], &[3.0, 0.0, 4.0, 0.0, 0.0, 0.0]), 2).unwrap();
    assert_eq!(values(&r[0]), expected_normal(&[3.0, 0.0, 4.0]));
    assert_eq!(values(&r[1]), vec![0.0, 0.0, 0.0]);
}

#[test]
fn embedder_outputs_are_checked() {
    let decode = |o: Option<ModelOutput>| ArcFaceEmbedder::decode(&o, 2).unwrap_err();
    assert_eq!(decode(None), FaceIdError::InvalidModel("Embedder produced no outputs".to_string()));
    assert_eq!(decode(output(vec![4], &[1.0; 4])), FaceIdError::Shape("incompatible shapes".to_string()));
    assert_eq!(decode(output(vec![2, 2, 1], &[1.0; 4])), FaceIdError::Shape("incompatible shapes".to_string()));
    assert_eq!(
        decode(output(vec![13, 2], &[1.0; 26])),
        FaceIdError::Ort("Embedder batch size mismatch: expected 2, got 13".to_string())
    );
    assert_eq!(
        decode(output(vec![2, 0], &[])),
        FaceIdError::InvalidModel("Embedder produced empty embeddings".to_string())
    );
    for bad in [f32::NAN, f32::INFINITY, f32::NEG_INFINITY] {
        assert_eq!(
            decode(output(vec![2, 2], &[1.0, 2.0, 3.0, bad])),
            FaceIdError::InvalidModel("Embedder produced non-finite values".to_string())
        );
    }
}

#[test]
fn a_batch_goes_through_the_embedder() {
    let mut marked = RgbImage::new(112, 112);
    marked.put_pixel(3, 2, (255, 0, 0));
    let imgs = vec![RgbImage::new(112, 112), marked];
    let run = |t: Tensor4| {
        assert_eq!(t.dimensions(), (2, 3, 112, 112));
        assert_eq!(t.get(1, 0, 2, 3), Some(bits(1.0)));
        assert_eq!(t.get(0, 0, 2, 3), Some(bits(-1.0)));
        Ok(output(vec![2, 2], &[0.0, 2.0, -8.0, 0.0]))
    };
    let r = ArcFaceEmbedder::compute_embeddings_batch(&imgs, run).unwrap();
    assert_eq!(r, vec![all_bits(&[0.0, 1.0]), all_bits(&[-1.0, 0.0])]);
}

#[test]
fn one_image_gives_one_embedding() {
    let run = |_: Tensor4| Ok(output(vec![1, 2], &[0.0, 4.0]));
    let r = ArcFaceEmbedder::compute_embedding(&RgbImage::new(112, 112), run).unwrap();
    assert_eq!(r, all_bits(&[0.0, 1.0]));
    let fail = |_: Tensor4| Err(FaceIdError::Ort("no device".to_string()));
    let e = ArcFaceEmbedder::compute_embedding(&RgbImage::new(112, 112), fail).unwrap_err();
    assert_eq!(e, FaceIdError::Ort("no device".to_string()));
}

#[test]
fn an_empty_embedder_batch_asks_nothing() {
    let run = |_: Tensor4| -> Result<Option<ModelOutput>, FaceIdError> { panic!("the model was asked") };
    assert_eq!(ArcFaceEmbedder::compute_embeddings_batch(&[], run).unwrap(), Vec::<Vec<Binary32>>::new());
}
