//! Soft-float arithmetic against the machine's.
use qlora::single;
use qlora::widths;

/// Values of every size and both signs, with the special ones.
fn samples() -> Vec<u32> {
    let mut v: Vec<u32> = vec![
        0,
        0x8000_0000,
        1,
        0x8000_0001,
        0x007F_FFFF,
        0x0080_0000,
        0x7F7F_FFFF,
        0xFF7F_FFFF,
        0x7F80_0000,
        0xFF80_0000,
        1.0f32.to_bits(),
        (-1.0f32).to_bits(),
        0.1f32.to_bits(),
        16777216.0f32.to_bits(),
        16777217.0f32.to_bits(),
        1e-38f32.to_bits(),
        1e-45f32.to_bits(),
    ];
    let mut x: u32 = 0x1234_5678;
    for _ in 0..200 {
        x = x.wrapping_mul(1664525).wrapping_add(1013904223);
        if f32::from_bits(x).is_nan() {
            continue;
        }
        v.push(x);
        // Nearby exponents make cancellation and ties likely.
        v.push((x & 0x80FF_FFFF) | 0x3F00_0000);
    }
    v
}

/// Whether two patterns stand for the same result: NaN results are one.
fn same(got: u32, want: f32) -> bool {
    if want.is_nan() {
        f32::from_bits(got).is_nan()
    } else {
        got == want.to_bits()
    }
}

#[test]
fn binary_operations_match_the_machine() {
    let v = samples();
    for &a in &v {
        for &b in v.iter().step_by(3) {
            let (x, y) = (f32::from_bits(a), f32::from_bits(b));
            assert!(same(single::plus(a, b), x + y), "{x:e} + {y:e}");
            assert!(same(single::minus(a, b), x - y), "{x:e} - {y:e}");
            assert!(same(single::times(a, b), x * y), "{x:e} * {y:e}");
            assert!(same(single::over(a, b), x / y), "{x:e} / {y:e}");
            assert_eq!(single::less(a, b), x < y);
            assert_eq!(single::equal(a, b), x == y);
        }
    }
}

#[test]
fn unary_operations_match_the_machine() {
    for &a in &samples() {
        let x = f32::from_bits(a);
        assert!(same(single::sqrt(a), x.sqrt()), "sqrt {x:e}");
        assert_eq!(single::negate(a), (-x).to_bits());
        assert_eq!(single::abs(a), x.abs().to_bits());
        if x.is_finite() {
            assert_eq!(single::round_to_int8(a) as i8, (x.round().clamp(-127.0, 127.0)) as i8);
        }
    }
}

#[test]
fn not_a_number_spreads() {
    let nan = f32::NAN.to_bits();
    let one = 1.0f32.to_bits();
    for r in [
        single::plus(nan, one),
        single::minus(one, nan),
        single::times(nan, nan),
        single::over(one, nan),
        single::sqrt(nan),
        single::sqrt((-1.0f32).to_bits()),
        single::over(0, 0),
    ] {
        assert!(f32::from_bits(r).is_nan());
    }
    assert!(!single::less(nan, one));
    assert!(!single::equal(nan, nan));
    assert_eq!(single::max(nan, one), one);
    assert_eq!(single::max(one, nan), one);
}

#[test]
fn integers_convert_as_the_machine_does() {
    for n in [0u64, 1, 2, 127, 16777215, 16777216, 16777217, 16777219, 1 << 40, u64::MAX] {
        assert_eq!(single::from_u64(n), (n as f32).to_bits());
        assert_eq!(single::from_negated(n), (-(n as f32)).to_bits());
    }
    for n in -128i8..=127 {
        assert_eq!(single::from_int8(n as u8), (n as f32).to_bits());
    }
}

#[test]
fn wide_values_narrow_as_the_machine_does() {
    let mut x: u64 = 0x0123_4567_89AB_CDEF;
    let mut v: Vec<u64> = vec![0, 1, f64::MAX.to_bits(), f64::INFINITY.to_bits(), 0.1f64.to_bits()];
    for _ in 0..2000 {
        x = x.wrapping_mul(6364136223846793005).wrapping_add(1442695040888963407);
        v.push(x);
        v.push((x & 0x800F_FFFF_FFFF_FFFF) | 0x3FE0_0000_0000_0000);
        v.push((x & 0x800F_FFFF_FFFF_FFFF) | 0x3700_0000_0000_0000);
    }
    for b in v {
        let d = f64::from_bits(b);
        assert!(same(widths::f64_to_f32(b), d as f32), "{d:e}");
        assert_eq!(widths::f64_to_u32(b), d as u32, "{d:e}");
    }
}

#[test]
fn f16_known_values() {
    let f = |h: u16| f32::from_bits(widths::f16_to_f32(h));
    assert_eq!(f(0x3C00), 1.0);
    assert_eq!(f(0xBC00), -1.0);
    assert_eq!(f(0x0000), 0.0);
    assert_eq!(f(0x7C00), f32::INFINITY);
    assert!(f(0x7E00).is_nan());
    // Smallest subnormal: 2^-24.
    assert!((f(0x0001) - 5.9604645e-8).abs() < 1e-14);
    assert!((f(0x3555) - 0.33325195).abs() < 1e-7);
}

#[test]
fn bf16_is_the_upper_half() {
    assert_eq!(widths::bf16_to_f32(0x3F80), 1.0f32.to_bits());
    assert_eq!(widths::bf16_to_f32(0xC040), (-3.0f32).to_bits());
}

#[test]
fn bytes_round_trip() {
    let mut out: Vec<u8> = Vec::new();
    qlora::bytes::push_le(&mut out, 0x0102_0304, 4);
    assert_eq!(out, vec![4, 3, 2, 1]);
    assert_eq!(qlora::bytes::read_le(&out), 0x0102_0304);
    assert_eq!(qlora::bytes::read_be(&out), 0x0403_0201);
}

#[test]
fn decimals_round_as_the_parser_does() {
    for s in [
        "0", "-0", "1", "10", "123456789012345678901234567890", "0.1", "-2.5", "1e23", "9007199254740993",
        "1.7976931348623157e308", "1.8e308", "-1e400", "4.9e-324", "2e-324", "1e-400", "2.2250738585072011e-308",
        "0.000000000000000000000000000000000000001234", "179769313486231580793e289",
    ] {
        let want: f64 = s.parse().unwrap();
        assert_eq!(
            qlora::tokenizer::json::parse_float(s.as_bytes()),
            Some(want.to_bits()),
            "{s}"
        );
    }
}
