use face_id::binary32::Binary32;
use face_id::raster::{PixelSource, RgbImage};
use face_id::sampling::{bilerp, bilinear_sample, sample_square};
use image::{DynamicImage, Rgb, Rgba};

fn bits(v: f32) -> Binary32 {
    Binary32::from_bits(v.to_bits())
}

fn gradient() -> RgbImage {
    let mut img = RgbImage::new(5, 4);
    for y in 0..4 {
        for x in 0..5 {
            img.put_pixel(x, y, ((x * 50) as u8, (y * 60) as u8, (x * y) as u8));
        }
    }
    img
}

#[test]
fn images_keep_their_pixels() {
    let mut img = gradient();
    assert_eq!((img.width(), img.height()), (5, 4));
    assert_eq!(img.as_raw().len(), 60);
    assert_eq!(img.get_pixel(3, 2), (150, 120, 6));
    img.put_pixel(3, 2, (1, 2, 3));
    assert_eq!(img.get_pixel(3, 2), (1, 2, 3));
    assert_eq!(img.get_pixel(2, 2), (100, 120, 4));
    assert_eq!(img.get_pixel(4, 2), (200, 120, 8));
    assert_eq!(img.get_pixel(3, 1), (150, 60, 3));
}

#[test]
fn raw_bytes_have_to_fit() {
    assert!(RgbImage::from_raw(2, 2, vec![0; 12]).is_some());
    assert!(RgbImage::from_raw(2, 2, vec![0; 11]).is_none());
    assert!(RgbImage::from_raw(2, 2, vec![0; 15]).is_none());
    assert!(RgbImage::from_raw(u32::MAX, u32::MAX, vec![0; 3]).is_none());
    assert_eq!(RgbImage::from_raw(1, 2, vec![1, 2, 3, 4, 5, 6]).unwrap().get_pixel(0, 1), (4, 5, 6));
}

#[test]
fn other_formats_are_converted() {
    let gray = DynamicImage::ImageLuma8(image::GrayImage::from_raw(2, 1, vec![10, 200]).unwrap());
    let rgb = RgbImage::from_dynamic(&gray);
    assert_eq!(rgb.dimensions(), (2, 1));
    assert_eq!(rgb.as_raw(), &vec![10, 10, 10, 200, 200, 200]);
    let alpha = DynamicImage::ImageRgba8(image::RgbaImage::from_pixel(1, 2, Rgba([9, 8, 7, 6])));
    assert_eq!(RgbImage::from_dynamic(&alpha).as_raw(), &vec![9, 8, 7, 9, 8, 7]);
}

#[test]
fn longer_buffers_are_cut_to_the_image() {
    let buffer = image::RgbImage::from_raw(1, 1, vec![5, 6, 7, 8]).unwrap();
    let rgb = RgbImage::from_dynamic(&DynamicImage::ImageRgb8(buffer));
    assert_eq!(rgb.as_raw(), &vec![5, 6, 7]);
}

#[test]
fn pixels_of_any_format_can_be_read() {
    let mut buffer = image::RgbaImage::new(3, 2);
    buffer.put_pixel(2, 1, Rgba([11, 22, 33, 44]));
    let img = DynamicImage::ImageRgba8(buffer);
    assert_eq!(img.source_size(), (3, 2));
    assert_eq!(img.colour_at(2, 1), (11, 22, 33));
    assert_eq!(img.colour_at(1, 1), (0, 0, 0));
}

#[test]
fn outside_is_black() {
    let img = gradient();
    for (x, y) in [(-0.1, 1.0), (1.0, -0.1), (5.0, 1.0), (1.0, 4.0), (f32::NAN, 1.0), (1.0, f32::INFINITY)] {
        assert_eq!(bilinear_sample(&img, bits(x), bits(y)), (0, 0, 0), "{x} {y}");
    }
}

#[test]
fn whole_coordinates_give_the_pixels_themselves() {
    let img = gradient();
    for y in 0..4 {
        for x in 0..5 {
            let p = bilinear_sample(&img, bits(x as f32), bits(y as f32));
            assert_eq!(p, img.get_pixel(x, y));
        }
    }
    assert_eq!(bilinear_sample(&img, bits(-0.0), bits(-0.0)), (0, 0, 0));
}

#[test]
fn points_between_pixels_are_mixed() {
    let img = gradient();
    assert_eq!(bilinear_sample(&img, bits(1.5), bits(2.25)), (75, 135, 3));
    // The last row and column have no neighbour but themselves.
    assert_eq!(bilinear_sample(&img, bits(4.75), bits(3.5)), (200, 180, 12));
}

#[test]
fn one_colour_stays() {
    let img = DynamicImage::ImageRgb8(image::RgbImage::from_pixel(7, 7, Rgb([13, 254, 255])));
    for i in 0..70 {
        let v = bits(i as f32 / 10.0);
        assert_eq!(bilinear_sample(&img, v, bits(6.99 - i as f32 / 10.5)), (13, 254, 255));
    }
}

#[test]
fn mixing_agrees_with_floating_point() {
    let fractions = [0.0f32, 0.1, 0.25, 0.333, 0.5, 0.75, 0.999];
    let mut state: u32 = 7;
    for fx in fractions {
        for fy in fractions {
            for _ in 0..50 {
                state = state.wrapping_mul(1664525).wrapping_add(1013904223);
                let c = state.to_be_bytes();
                let f = |i: usize| f32::from(c[i]);
                let top = (f(1) - f(0)).mul_add(fx, f(0));
                let bottom = (f(3) - f(2)).mul_add(fx, f(2));
                let expected = (bottom - top).mul_add(fy, top) as u8;
                assert_eq!(bilerp(c[0], c[1], c[2], c[3], bits(fx), bits(fy)), expected);
            }
        }
    }
}

#[test]
fn squares_are_sampled_where_columns_and_rows_cross() {
    let img = gradient();
    let columns = vec![bits(0.0), bits(3.0)];
    let rows = vec![bits(2.0), bits(9.0)];
    let out = sample_square(&img, 2, &columns, &rows);
    assert_eq!(out.get_pixel(0, 0), (0, 120, 0));
    assert_eq!(out.get_pixel(1, 0), (150, 120, 6));
    assert_eq!(out.get_pixel(0, 1), (0, 0, 0));
    assert_eq!(out.get_pixel(1, 1), (0, 0, 0));
}
