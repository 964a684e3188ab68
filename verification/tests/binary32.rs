use face_id::binary32::Binary32;

fn bits(v: f32) -> Binary32 {
    Binary32::from_bits(v.to_bits())
}

fn value(b: Binary32) -> f32 {
    f32::from_bits(b.bits)
}

/// The same bits, or both NaN.
fn same(b: Binary32, v: f32) -> bool {
    b.bits == v.to_bits() || (value(b).is_nan() && v.is_nan())
}

/// Numbers at the edges of the format, and some in between.
fn samples() -> Vec<f32> {
    let mut list = vec![
        0.0,
        -0.0,
        1.0,
        -1.0,
        0.5,
        1.5,
        3.0,
        127.5,
        255.0,
        1.0e-3,
        1.0e-12,
        f32::MIN_POSITIVE,
        -f32::MIN_POSITIVE,
        f32::MAX,
        f32::MIN,
        f32::INFINITY,
        f32::NEG_INFINITY,
        f32::NAN,
        f32::EPSILON,
        1.0 + f32::EPSILON,
        1.0 - f32::EPSILON / 2.0,
        16777215.0,
        16777216.0,
        f32::from_bits(1),
        f32::from_bits(2),
        f32::from_bits(0x007f_ffff),
        f32::from_bits(0x8000_0001),
        f32::from_bits(0x7f7f_fffe),
    ];
    let mut state: u32 = 12345;
    for _ in 0..40 {
        state = state.wrapping_mul(1664525).wrapping_add(1013904223);
        list.push(f32::from_bits(state));
    }
    for _ in 0..20 {
        state = state.wrapping_mul(1664525).wrapping_add(1013904223);
        list.push((state >> 8) as f32 / 65536.0 - 100.0);
    }
    list
}

#[test]
fn classification_agrees() {
    for v in samples() {
        assert_eq!(bits(v).is_finite(), v.is_finite(), "{v:e}");
        assert_eq!(bits(v).is_nan(), v.is_nan(), "{v:e}");
        assert_eq!(bits(v).is_at_most_zero(), v <= 0.0, "{v:e}");
    }
}

#[test]
fn order_agrees() {
    for a in samples() {
        for b in samples() {
            assert_eq!(bits(a).less_than(bits(b)), a < b, "{a:e} {b:e}");
            let (low, high) = (bits(a).min(bits(b)), bits(a).max(bits(b)));
            if a.is_nan() && b.is_nan() {
                assert!(value(low).is_nan() && value(high).is_nan());
            } else {
                assert_eq!(value(low), a.min(b), "{a:e} {b:e}");
                assert_eq!(value(high), a.max(b), "{a:e} {b:e}");
            }
        }
    }
}

#[test]
fn equality_agrees() {
    for a in samples() {
        for b in samples() {
            assert_eq!(bits(a) == bits(b), a == b, "{a:e} {b:e}");
        }
    }
    assert!(bits(0.0) == bits(-0.0));
    assert!(bits(f32::NAN) != bits(f32::NAN));
}

#[test]
fn addition_and_subtraction_agree() {
    for a in samples() {
        for b in samples() {
            assert!(same(bits(a).plus(bits(b)), a + b), "{a:e} + {b:e}");
            assert!(same(bits(a).minus(bits(b)), a - b), "{a:e} - {b:e}");
        }
    }
}

#[test]
fn multiplication_and_division_agree() {
    for a in samples() {
        for b in samples() {
            assert!(same(bits(a).times(bits(b)), a * b), "{a:e} * {b:e}");
            assert!(same(bits(a).over(bits(b)), a / b), "{a:e} / {b:e}");
        }
    }
}

#[test]
fn fused_multiplication_agrees() {
    let list = samples();
    for (i, a) in list.iter().enumerate() {
        for (j, b) in list.iter().enumerate() {
            let c = list[(i * 7 + j * 13) % list.len()];
            assert!(same(bits(*a).times_plus(bits(*b), bits(c)), a.mul_add(*b, c)), "{a:e} * {b:e} + {c:e}");
        }
    }
}

#[test]
fn fused_multiplication_rounds_once() {
    let x = 1.0 + f32::EPSILON;
    let r = bits(x).times_plus(bits(x), bits(-(x * x)));
    assert_eq!(value(r), f32::EPSILON * f32::EPSILON);
}

#[test]
fn square_roots_agree() {
    for v in samples() {
        assert!(same(bits(v).square_root(), v.sqrt()), "{v:e}");
    }
    for n in 0..2000u32 {
        assert!(same(bits(n as f32).square_root(), (n as f32).sqrt()), "{n}");
    }
    assert_eq!(value(bits(2.0).square_root()), std::f32::consts::SQRT_2);
}

#[test]
fn whole_numbers_agree() {
    let mut n: u32 = 0;
    for _ in 0..4000 {
        assert!(same(Binary32::from_u32(n), n as f32), "{n}");
        n = n.wrapping_mul(1664525).wrapping_add(1013904223);
    }
    for n in [1, 255, 0xff_ffff, 0x100_0000, 0x100_0001, 0x100_0002, 0x100_0003, u32::MAX - 128, u32::MAX] {
        assert!(same(Binary32::from_u32(n), n as f32), "{n}");
    }
}

#[test]
fn whole_numbers_up_to_24_bits_are_exact() {
    for n in [0u32, 1, 2, 3, 1000, 0xab_cdef, 0xff_ffff] {
        assert_eq!(Binary32::from_u32(n).floor(), n);
        assert_eq!(Binary32::from_u32(n).fractional_part(), Binary32::from_bits(0));
    }
}

#[test]
fn bytes_are_cut_and_saturated() {
    for v in samples() {
        assert_eq!(bits(v).to_byte(), v as u8, "{v:e}");
    }
    for n in 0..2600u32 {
        let v = n as f32 / 10.0 - 1.0;
        assert_eq!(bits(v).to_byte(), v as u8, "{v:e}");
    }
}

#[test]
fn integer_and_fractional_parts_agree() {
    for v in samples() {
        if v >= 0.0 && v < 4294967296.0 {
            assert_eq!(bits(v).floor(), v.floor() as u32, "{v:e}");
            assert_eq!(value(bits(v).fractional_part()), v - v.floor(), "{v:e}");
        }
    }
}

#[test]
fn clamping_agrees() {
    for v in samples() {
        if v.is_finite() {
            assert_eq!(value(bits(v).clamp_to_unit()), v.clamp(0.0, 1.0), "{v:e}");
        }
    }
}

#[test]
fn sums_and_products_commute() {
    for a in samples() {
        for b in samples() {
            assert_eq!(bits(a).plus(bits(b)).bits, bits(b).plus(bits(a)).bits);
            assert_eq!(bits(a).times(bits(b)).bits, bits(b).times(bits(a)).bits);
        }
    }
}

#[test]
fn a_number_less_itself_is_zero() {
    for v in samples() {
        if v.is_finite() {
            assert_eq!(bits(v).minus(bits(v)).bits, 0);
        }
    }
}
