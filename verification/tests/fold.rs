use libm::{fabsf, floorf};
use wavegen::fold::{abs, floor};

/// The floor of a value, through its bit pattern.
fn floor_of(x: f32) -> f32 {
    f32::from_bits(floor(x.to_bits()))
}

/// The absolute value of a value, through its bit pattern.
fn abs_of(x: f32) -> f32 {
    f32::from_bits(abs(x.to_bits()))
}

/// The triangle wave: a ramp folded by the floor and the absolute value.
fn triangle(t: f32, frequency: f32) -> f32 {
    let ramp = t * frequency - 0.5;
    2.0 * abs_of(ramp - 2.0 * floor_of(ramp / 2.0) - 1.0) - 1.0
}

#[test]
fn floor_of_numbers_between_whole_numbers() {
    assert_eq!(floor_of(0.5), 0.0);
    assert_eq!(floor_of(0.1), 0.0);
    assert_eq!(floor_of(0.9), 0.0);
    assert_eq!(floor_of(1.1), 1.0);
    assert_eq!(floor_of(1.5), 1.0);
    assert_eq!(floor_of(1.9), 1.0);
    assert_eq!(floor_of(2.9), 2.0);
    assert_eq!(floor_of(1234.567), 1234.0);
}

#[test]
fn floor_of_negative_numbers_goes_down() {
    assert_eq!(floor_of(-0.1), -1.0);
    assert_eq!(floor_of(-0.9), -1.0);
    assert_eq!(floor_of(-1.1), -2.0);
    assert_eq!(floor_of(-1.5), -2.0);
    assert_eq!(floor_of(-1.9), -2.0);
    assert_eq!(floor_of(-1234.567), -1235.0);
}

#[test]
fn floor_of_a_whole_number_is_that_number() {
    for x in [0.0f32, 1.0, -1.0, 2.0, -2.0, 127.0, -4096.0, 8388608.0, 1e10, -1e30, f32::MAX, f32::MIN] {
        assert_eq!(floor(x.to_bits()), x.to_bits());
    }
}

#[test]
fn floor_keeps_the_sign_of_zero() {
    assert_eq!(floor(0.0f32.to_bits()), 0.0f32.to_bits());
    assert_eq!(floor((-0.0f32).to_bits()), (-0.0f32).to_bits());
    assert_eq!(floor(0.25f32.to_bits()), 0.0f32.to_bits());
}

#[test]
fn floor_of_subnormals() {
    assert_eq!(floor(0x0000_0001), 0.0f32.to_bits());
    assert_eq!(floor(0x8000_0001), (-1.0f32).to_bits());
    assert_eq!(floor(0x007f_ffff), 0.0f32.to_bits());
}

#[test]
fn floor_carries_into_the_exponent() {
    // Just below a power of two in magnitude: the step up reaches it.
    assert_eq!(floor_of(-3.5), -4.0);
    assert_eq!(floor_of(-7.999), -8.0);
    assert_eq!(floor_of(-8388607.5), -8388608.0);
    assert_eq!(floor_of(8388607.5), 8388607.0);
}

#[test]
fn floor_hands_infinities_and_nans_on_unchanged() {
    assert_eq!(floor(f32::INFINITY.to_bits()), f32::INFINITY.to_bits());
    assert_eq!(floor(f32::NEG_INFINITY.to_bits()), f32::NEG_INFINITY.to_bits());
    assert_eq!(floor(0x7fc0_0000), 0x7fc0_0000);
    assert_eq!(floor(0xffc0_1234), 0xffc0_1234);
}

#[test]
fn floor_agrees_with_libm_on_a_sweep_of_patterns() {
    let mut bits: u32 = 0;
    loop {
        assert_eq!(floor(bits), floorf(f32::from_bits(bits)).to_bits(), "pattern {bits:#010x}");
        match bits.checked_add(8_191) {
            Some(next) => bits = next,
            None => break,
        }
    }
}

#[test]
fn floor_agrees_with_libm_around_every_exponent() {
    for exponent in 0u32..=255 {
        for sign in [0u32, 0x8000_0000] {
            for fraction in [0u32, 1, 2, 3, 0x1000, 0x3f_ffff, 0x40_0000, 0x40_0001, 0x7f_fffe, 0x7f_ffff] {
                let bits = sign | (exponent << 23) | fraction;
                assert_eq!(floor(bits), floorf(f32::from_bits(bits)).to_bits(), "pattern {bits:#010x}");
            }
        }
    }
}

#[test]
fn floor_is_the_largest_whole_number_not_above() {
    for n in -4000..4000 {
        let x = n as f32 / 16.0 + 0.03125;
        let whole = floor_of(x);
        assert_eq!(whole, whole.trunc());
        assert!(whole <= x);
        assert!(x < whole + 1.0);
    }
}

#[test]
fn abs_clears_the_sign() {
    assert_eq!(abs_of(-1.0), 1.0);
    assert_eq!(abs_of(2.8), 2.8);
    assert_eq!(abs_of(-2.8), 2.8);
    assert_eq!(abs((-0.0f32).to_bits()), 0.0f32.to_bits());
    assert_eq!(abs(0.0f32.to_bits()), 0.0f32.to_bits());
    assert_eq!(abs(f32::NEG_INFINITY.to_bits()), f32::INFINITY.to_bits());
    assert_eq!(abs(0xffc0_1234), 0x7fc0_1234);
    assert_eq!(abs(0x7fc0_1234), 0x7fc0_1234);
}

#[test]
fn abs_agrees_with_libm_on_a_sweep_of_patterns() {
    let mut bits: u32 = 0;
    loop {
        assert_eq!(abs(bits), fabsf(f32::from_bits(bits)).to_bits(), "pattern {bits:#010x}");
        match bits.checked_add(8_191) {
            Some(next) => bits = next,
            None => break,
        }
    }
}

#[test]
fn triangle_exact_values() {
    assert_eq!(triangle(0.0, 1.0), 0.0);
    assert_eq!(triangle(0.25, 1.0), 0.5);
    assert_eq!(triangle(0.5, 1.0), 1.0);
    assert_eq!(triangle(0.75, 1.0), 0.5);
    assert_eq!(triangle(1.0, 1.0), 0.0);
    assert_eq!(triangle(1.25, 1.0), -0.5);
    assert_eq!(triangle(1.5, 1.0), -1.0);
    assert_eq!(triangle(1.75, 1.0), -0.5);
    assert_eq!(triangle(2.0, 1.0), 0.0);
    assert_eq!(triangle(-0.5, 1.0), -1.0);
    assert_eq!(triangle(0.125, 4.0), 1.0);
}

#[test]
fn triangle_stays_between_minus_one_and_one() {
    for n in -5000..5000 {
        let y = triangle(n as f32 / 997.0, 3.0);
        assert!((-1.0..=1.0).contains(&y));
    }
}

#[test]
fn triangle_reaches_both_peaks() {
    let mut highest = f32::MIN;
    let mut lowest = f32::MAX;
    for n in 0..2000 {
        let y = triangle(n as f32 / 1000.0, 1.0);
        highest = highest.max(y);
        lowest = lowest.min(y);
    }
    assert_eq!(highest, 1.0);
    assert_eq!(lowest, -1.0);
}

#[test]
fn triangle_repeats_after_two_over_the_frequency() {
    for n in 0..1000 {
        let t = n as f32 / 256.0;
        assert_eq!(triangle(t, 2.0), triangle(t + 1.0, 2.0));
    }
}

#[test]
fn triangle_is_mirrored_after_one_over_the_frequency() {
    for n in 0..1000 {
        let t = n as f32 / 256.0;
        assert_eq!(triangle(t + 0.5, 2.0), -triangle(t, 2.0));
    }
}

#[test]
fn triangle_has_zero_mean_over_its_repeat() {
    let mut sum = 0.0f64;
    for n in 0..4096 {
        sum += triangle(n as f32 / 2048.0, 1.0) as f64;
    }
    assert!((sum / 4096.0).abs() < 1e-6);
}

#[test]
fn triangle_sample_is_the_same_when_asked_twice() {
    for n in 0..100 {
        let t = n as f32 * 0.37;
        assert_eq!(triangle(t, 1.5).to_bits(), triangle(t, 1.5).to_bits());
    }
}

#[test]
fn triangle_takes_a_negative_frequency() {
    assert_eq!(triangle(0.5, -1.0), -1.0);
    assert_eq!(triangle(1.5, -1.0), 1.0);
}

#[test]
fn triangle_hands_a_nan_on() {
    assert!(triangle(f32::NAN, 1.0).is_nan());
    assert!(triangle(f32::INFINITY, 1.0).is_nan());
    assert!(triangle(1.0, f32::NAN).is_nan());
}

#[test]
fn triangle_of_frequency_zero_is_constant() {
    for n in 0..50 {
        assert_eq!(triangle(n as f32 * 0.3, 0.0), 0.0);
    }
}
