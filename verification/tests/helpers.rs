use face_id::binary32::Binary32;
use face_id::detector::BoundingBox;
use face_id::helpers::extract_face_thumbnail;
use image::{DynamicImage, GenericImageView, Rgb};

fn bits(v: f32) -> Binary32 {
    Binary32::from_bits(v.to_bits())
}

fn bbox(x1: f32, y1: f32, x2: f32, y2: f32) -> BoundingBox {
    BoundingBox { x1: bits(x1), y1: bits(y1), x2: bits(x2), y2: bits(y2) }
}

fn white(width: u32, height: u32) -> DynamicImage {
    DynamicImage::ImageRgb8(image::RgbImage::from_pixel(width, height, Rgb([255, 255, 255])))
}

#[test]
fn test_extract_face_thumbnail_edge_case() {
    // 50x100 white image
    let img = white(50, 100);

    // Face near the right edge, so with padding/aspect ratio 1 it would stick out
    let bbox = bbox(0.8, 0.5, 1.0, 0.6);

    let thumbnail = extract_face_thumbnail(&img, &bbox, bits(4.0), 100);

    assert_eq!(thumbnail.width(), 100);
    assert_eq!(thumbnail.height(), 100);
}

#[test]
fn thumbnails_show_the_face_and_pad_with_black() {
    let thumbnail = extract_face_thumbnail(&white(50, 100), &bbox(0.8, 0.5, 1.0, 0.6), bits(4.0), 100);
    assert_eq!(thumbnail.get_pixel(10, 50), (255, 255, 255));
    assert_eq!(thumbnail.get_pixel(99, 50), (0, 0, 0));
}

/// The thumbnail as ordinary floating point arithmetic gives it.
fn expected(img: &DynamicImage, b: [f32; 4], padding: f32, size: u32) -> Vec<[u8; 3]> {
    let (w, h) = img.dimensions();
    let x1 = b[0].clamp(0.0, 1.0) * w as f32;
    let y1 = b[1].clamp(0.0, 1.0) * h as f32;
    let x2 = b[2].clamp(0.0, 1.0) * w as f32;
    let y2 = b[3].clamp(0.0, 1.0) * h as f32;
    let side = (x2 - x1).max(y2 - y1) * padding;
    let left = (x1 + x2) * 0.5 - side * 0.5;
    let above = (y1 + y2) * 0.5 - side * 0.5;
    let scale = side / size as f32;
    let mut list = Vec::new();
    for py in 0..size {
        let y = (py as f32 + 0.5).mul_add(scale, above) - 0.5;
        for px in 0..size {
            let x = (px as f32 + 0.5).mul_add(scale, left) - 0.5;
            list.push(sample(img, x, y));
        }
    }
    list
}

fn sample(img: &DynamicImage, x: f32, y: f32) -> [u8; 3] {
    let (w, h) = img.dimensions();
    if !x.is_finite() || !y.is_finite() || x < 0.0 || y < 0.0 || x >= w as f32 || y >= h as f32 {
        return [0, 0, 0];
    }
    let (x0, y0) = (x.floor() as u32, y.floor() as u32);
    let (x1, y1) = ((x0 + 1).min(w - 1), (y0 + 1).min(h - 1));
    let (fx, fy) = (x - x0 as f32, y - y0 as f32);
    let mut r = [0; 3];
    for c in 0..3 {
        let at = |x: u32, y: u32| f32::from(img.get_pixel(x, y)[c]);
        let top = (at(x1, y0) - at(x0, y0)).mul_add(fx, at(x0, y0));
        let bottom = (at(x1, y1) - at(x0, y1)).mul_add(fx, at(x0, y1));
        r[c] = (bottom - top).mul_add(fy, top) as u8;
    }
    r
}

#[test]
fn thumbnails_agree_with_floating_point() {
    let mut rgb = image::RgbImage::new(31, 45);
    for (x, y, p) in rgb.enumerate_pixels_mut() {
        *p = Rgb([(x * 8 + y) as u8, (y * 5 + x * 3) as u8, (x * y) as u8]);
    }
    let img = DynamicImage::ImageRgb8(rgb);
    let gray = DynamicImage::ImageLuma8(img.to_luma8());
    let boxes = [[0.1, 0.2, 0.7, 0.9], [0.0, 0.0, 1.0, 1.0], [-2.0, 0.3, 0.4, 0.35], [0.9, 0.9, 3.0, 7.0]];
    for source in [&img, &gray] {
        for b in boxes {
            for padding in [0.5, 1.0, 1.7, 1.0e30] {
                let out = extract_face_thumbnail(source, &bbox(b[0], b[1], b[2], b[3]), bits(padding), 16);
                let list = expected(source, b, padding, 16);
                for py in 0..16 {
                    for px in 0..16 {
                        let (r, g, b) = out.get_pixel(px, py);
                        assert_eq!([r, g, b], list[(py * 16 + px) as usize]);
                    }
                }
            }
        }
    }
}

#[test]
fn thumbnails_of_nothing_are_black() {
    let img = white(10, 10);
    let good = bbox(0.2, 0.2, 0.8, 0.8);
    for padding in [0.0, -0.0, -1.0, f32::NAN, f32::INFINITY] {
        let out = extract_face_thumbnail(&img, &good, bits(padding), 5);
        assert_eq!(out.dimensions(), (5, 5));
        assert!(out.as_raw().iter().all(|v| *v == 0));
    }
    for b in [bbox(f32::NAN, 0.0, 1.0, 1.0), bbox(0.5, 0.0, 0.5, 1.0), bbox(0.0, 0.7, 1.0, 0.3)] {
        let out = extract_face_thumbnail(&img, &b, bits(1.5), 5);
        assert!(out.as_raw().iter().all(|v| *v == 0));
    }
    let empty = extract_face_thumbnail(&white(0, 0), &good, bits(1.5), 5);
    assert!(empty.as_raw().iter().all(|v| *v == 0));
    assert_eq!(extract_face_thumbnail(&img, &good, bits(1.5), 0).dimensions(), (0, 0));
}
