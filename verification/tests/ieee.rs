use streamconv::ieee::{widen_bits, Format};

#[test]
fn encode_gives_the_bits_of_known_numbers() {
    assert_eq!(Format::Binary32.encode(false, 0, 0), 0x0000_0000);
    assert_eq!(Format::Binary32.encode(true, 0, 0), 0x8000_0000);
    assert_eq!(Format::Binary32.encode(false, 1, 0), 0x3f80_0000);
    assert_eq!(Format::Binary32.encode(true, 1, 0), 0xbf80_0000);
    assert_eq!(Format::Binary32.encode(false, 128, 0), 0x4300_0000);
    assert_eq!(Format::Binary32.encode(false, 255, 0), 0x437f_0000);
    assert_eq!(Format::Binary32.encode(false, 3, -1), 0x3fc0_0000);
    assert_eq!(Format::Binary64.encode(false, 0, 0), 0);
    assert_eq!(Format::Binary64.encode(true, 0, 0), 0x8000_0000_0000_0000);
    assert_eq!(Format::Binary64.encode(false, 1, 0), 0x3ff0_0000_0000_0000);
    assert_eq!(Format::Binary64.encode(true, 2, 0), 0xc000_0000_0000_0000);
    assert_eq!(Format::Binary64.encode(false, 1, -1), 0x3fe0_0000_0000_0000);
    assert_eq!(Format::Binary64.encode(false, 255, 0), 0x406f_e000_0000_0000);
}

#[test]
fn encode_agrees_with_the_machine_on_every_short_integer() {
    for v in i16::MIN..=i16::MAX {
        let bits = Format::Binary32.encode(v < 0, v.unsigned_abs() as u64, 0);
        assert_eq!(bits, (v as f32).to_bits() as u64, "{}", v);
        let bits = Format::Binary64.encode(v < 0, v.unsigned_abs() as u64, 0);
        assert_eq!(bits, (v as f64).to_bits(), "{}", v);
    }
    for v in 0..=u16::MAX {
        assert_eq!(Format::Binary32.encode(false, v as u64, 0), (v as f32).to_bits() as u64);
        assert_eq!(Format::Binary64.encode(false, v as u64, 0), (v as f64).to_bits());
    }
}

#[test]
fn encode_agrees_with_the_machine_on_long_integers() {
    let mut x: u64 = 0x9e37_79b9_7f4a_7c15;
    for _ in 0..200_000 {
        x = x.wrapping_mul(6364136223846793005).wrapping_add(1442695040888963407);
        let v = (x >> 32) as u32;
        assert_eq!(Format::Binary64.encode(false, v as u64, 0), (v as f64).to_bits());
        let s = v as i32;
        assert_eq!(
            Format::Binary64.encode(s < 0, s.unsigned_abs() as u64, 0),
            (s as f64).to_bits()
        );
        let m = (v >> 8) as u64;
        assert_eq!(Format::Binary32.encode(false, m, 0), (m as f32).to_bits() as u64);
    }
    for v in [0u32, 1, 2, 3, u32::MAX, u32::MAX - 1, 1 << 31, (1 << 31) - 1, (1 << 31) + 1] {
        assert_eq!(Format::Binary64.encode(false, v as u64, 0), (v as f64).to_bits());
    }
    for v in [i32::MIN, i32::MIN + 1, -1, 0, 1, i32::MAX] {
        assert_eq!(
            Format::Binary64.encode(v < 0, v.unsigned_abs() as u64, 0),
            (v as f64).to_bits()
        );
    }
    assert_eq!(
        Format::Binary32.encode(false, 0xff_ffff, 0),
        (16777215.0f32).to_bits() as u64
    );
    assert_eq!(
        Format::Binary64.encode(true, 0x1f_ffff_ffff_ffff, 0),
        (-9007199254740991.0f64).to_bits()
    );
}

#[test]
fn encode_scales_by_powers_of_two() {
    for e in -126i64..=104 {
        let expected = (2.0f64.powi(e as i32) * 5.0) as f32;
        assert_eq!(Format::Binary32.encode(false, 5, e), expected.to_bits() as u64);
    }
    for e in -1000i64..=900 {
        let expected = -(2.0f64.powi(e as i32)) * 3.0;
        assert_eq!(Format::Binary64.encode(true, 3, e), expected.to_bits());
    }
}

#[test]
fn widen_agrees_with_the_machine_on_boundary_values() {
    let values = [
        0.0f32,
        -0.0,
        1.0,
        -1.0,
        0.1,
        1.5,
        f32::MAX,
        f32::MIN,
        f32::MIN_POSITIVE,
        -f32::MIN_POSITIVE,
        f32::EPSILON,
        f32::INFINITY,
        f32::NEG_INFINITY,
        f32::from_bits(1),
        f32::from_bits(0x8000_0001),
        f32::from_bits(0x007f_ffff),
        f32::from_bits(0x0040_0000),
        f32::from_bits(0x7f7f_ffff),
        f32::from_bits(0x0080_0000),
    ];
    for x in values {
        assert_eq!(widen_bits(x.to_bits()), (x as f64).to_bits(), "{:e}", x);
    }
}

#[test]
fn widen_agrees_with_the_machine_on_every_exponent_and_many_fractions() {
    let mut x: u64 = 1;
    for _ in 0..300_000 {
        x = x.wrapping_mul(6364136223846793005).wrapping_add(1442695040888963407);
        let bits = (x >> 32) as u32;
        let v = f32::from_bits(bits);
        if v.is_nan() {
            assert!(f64::from_bits(widen_bits(bits)).is_nan());
        } else {
            assert_eq!(widen_bits(bits), (v as f64).to_bits(), "{:#x}", bits);
        }
    }
    for e in 0..255u32 {
        for f in [0u32, 1, 2, 0x40_0000, 0x7f_ffff, 0x12_3456] {
            for s in [0u32, 1] {
                let bits = (s << 31) | (e << 23) | f;
                let v = f32::from_bits(bits);
                assert_eq!(widen_bits(bits), (v as f64).to_bits(), "{:#x}", bits);
            }
        }
    }
    for k in 0..23 {
        let bits = 1u32 << k;
        assert_eq!(widen_bits(bits), (f32::from_bits(bits) as f64).to_bits());
    }
}

#[test]
fn widen_keeps_a_nan_a_nan_with_its_sign_and_payload() {
    assert_eq!(widen_bits(0x7fc0_0000), 0x7ff8_0000_0000_0000);
    assert_eq!(widen_bits(0xffc0_0000), 0xfff8_0000_0000_0000);
    assert_eq!(widen_bits(0x7f80_0001), 0x7ff8_0000_2000_0000);
    assert_eq!(widen_bits(0x7fff_ffff), 0x7fff_ffff_e000_0000);
    assert_eq!(widen_bits(0xff80_0400), 0xfff8_0080_0000_0000);
    for bits in [0x7fc0_0000u32, 0xffc0_0000, 0x7f80_0001, 0x7fff_ffff, 0xff80_0400] {
        assert!(f64::from_bits(widen_bits(bits)).is_nan());
    }
    assert_eq!(widen_bits(0x7f80_0000), f64::INFINITY.to_bits());
    assert_eq!(widen_bits(0xff80_0000), f64::NEG_INFINITY.to_bits());
}
