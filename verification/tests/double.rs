use finance::double::Double;

fn double(number: f64) -> Double {
    Double::from_bits(number.to_bits())
}

fn samples() -> Vec<f64> {
    vec![
        0.0,
        -0.0,
        5e-324,
        -5e-324,
        2.2250738585072009e-308,
        2.2250738585072014e-308,
        -2.2250738585072014e-308,
        1e-300,
        -1e-300,
        0.035,
        0.1,
        0.5,
        -0.5,
        0.9999999999999999,
        -0.9999999999999999,
        1.0,
        -1.0,
        1.0000000000000002,
        -1.0000000000000002,
        2.0,
        -2.0,
        1000.0,
        -1000.0,
        190000.0,
        1e300,
        -1e300,
        f64::MAX,
        f64::MIN,
    ]
}

#[test]
fn bits_round_trip() {
    for bits in [0u64, 1, 0x8000_0000_0000_0000, 0x3FF0_0000_0000_0000, u64::MAX] {
        assert_eq!(Double::from_bits(bits).to_bits(), bits);
    }
}

#[test]
fn zero_one_and_minus_one_are_the_hardware_patterns() {
    assert_eq!(Double::zero().to_bits(), 0.0f64.to_bits());
    assert_eq!(Double::one().to_bits(), 1.0f64.to_bits());
    assert_eq!(Double::minus_one().to_bits(), (-1.0f64).to_bits());
}

#[test]
fn a_number_is_its_significand_times_two_to_its_step() {
    assert_eq!(double(0.0).split(), (0, 0));
    assert_eq!(double(5e-324).split(), (1, 0));
    assert_eq!(double(-1.5e-323).split(), (3, 0));
    assert_eq!(double(2.2250738585072014e-308).split(), (1 << 52, 0));
    assert_eq!(double(1.0).split(), (1 << 52, 1022));
    assert_eq!(double(-72.0).split(), (9 << 49, 1028));
    assert_eq!(double(f64::MAX).split(), ((1 << 53) - 1, 2045));
    for number in samples() {
        let (significand, step) = double(number).split();
        let exponent = step as i32 - 1074;
        let first = exponent / 2;
        let size = significand as f64 * 2f64.powi(first) * 2f64.powi(exponent - first);
        assert_eq!(size, number.abs(), "{number:e}");
    }
}

#[test]
fn the_sign_bit_is_read_from_the_pattern() {
    assert!(!double(0.0).sign_is_set());
    assert!(double(-0.0).sign_is_set());
    assert!(double(-1.0).sign_is_set());
    assert!(!double(1.0).sign_is_set());
    assert!(double(f64::NEG_INFINITY).sign_is_set());
}

#[test]
fn real_numbers_are_the_finite_patterns() {
    for number in samples() {
        assert!(double(number).is_real());
    }
    assert!(!double(f64::INFINITY).is_real());
    assert!(!double(f64::NEG_INFINITY).is_real());
    assert!(!double(f64::NAN).is_real());
    assert!(!Double::from_bits(0x7FF0_0000_0000_0001).is_real());
    assert!(!Double::from_bits(0xFFFF_FFFF_FFFF_FFFF).is_real());
    assert!(Double::from_bits(0x7FEF_FFFF_FFFF_FFFF).is_real());
}

#[test]
fn zero_has_two_patterns() {
    assert!(double(0.0).is_zero());
    assert!(double(-0.0).is_zero());
    assert!(!double(5e-324).is_zero());
    assert!(!double(-5e-324).is_zero());
    assert!(!double(1.0).is_zero());
    assert!(!double(f64::NAN).is_zero());
    assert!(!double(f64::INFINITY).is_zero());
}

#[test]
fn less_than_agrees_with_the_hardware_order() {
    for a in samples() {
        for b in samples() {
            assert_eq!(double(a).less_than(double(b)), a < b, "{a} < {b}");
        }
    }
}

#[test]
fn less_than_refuses_what_is_not_real() {
    for other in samples() {
        assert!(!double(f64::NAN).less_than(double(other)));
        assert!(!double(other).less_than(double(f64::NAN)));
        assert!(!double(f64::NEG_INFINITY).less_than(double(other)));
        assert!(!double(other).less_than(double(f64::INFINITY)));
    }
}

#[test]
fn cancels_agrees_with_the_hardware_sum() {
    for a in samples() {
        for b in samples() {
            assert_eq!(double(a).cancels(double(b)), a == -b, "{a} + {b}");
        }
    }
    assert!(double(0.0).cancels(double(0.0)));
    assert!(double(-0.0).cancels(double(0.0)));
    assert!(double(2000000.0).cancels(double(-2000000.0)));
    assert!(!double(2000000.0).cancels(double(1000000.0)));
    assert!(!double(f64::INFINITY).cancels(double(f64::NEG_INFINITY)));
    assert!(!double(f64::NAN).cancels(double(0.0)));
}

#[test]
fn infinities_and_signed_zeros_are_the_hardware_patterns() {
    assert_eq!(Double::infinity(false).to_bits(), f64::INFINITY.to_bits());
    assert_eq!(Double::infinity(true).to_bits(), f64::NEG_INFINITY.to_bits());
    assert_eq!(Double::signed_zero(false).to_bits(), 0.0f64.to_bits());
    assert_eq!(Double::signed_zero(true).to_bits(), (-0.0f64).to_bits());
    assert!(double(f64::INFINITY).is_infinite());
    assert!(double(f64::NEG_INFINITY).is_infinite());
    assert!(!double(f64::NAN).is_infinite());
    assert!(!double(f64::MAX).is_infinite());
    assert!(!double(0.0).is_infinite());
}
