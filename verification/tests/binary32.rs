use damped_spring::binary32::{Binary32, INFINITY_BITS, MAGNITUDE_MASK, ONE_BITS, SIGN_BIT, ZERO_BITS};

fn b(bits: u32) -> Binary32 {
    Binary32 { bits }
}

fn f(x: f32) -> Binary32 {
    Binary32 { bits: x.to_bits() }
}

fn next(state: &mut u64) -> u32 {
    *state ^= *state << 13;
    *state ^= *state >> 7;
    *state ^= *state << 17;
    (*state >> 16) as u32
}

fn patterns() -> Vec<u32> {
    let magnitudes: [u32; 14] = [
        0x0000_0000,
        0x0000_0001,
        0x007f_ffff,
        0x0080_0000,
        0x38d1_b717,
        0x3f7f_f972,
        0x3f80_0000,
        0x3f80_0347,
        0x4000_0000,
        0x7f7f_ffff,
        0x7f80_0000,
        0x7f80_0001,
        0x7fc0_0000,
        0x7fff_ffff,
    ];
    let mut all = Vec::new();
    for m in magnitudes {
        all.push(m);
        all.push(m | 0x8000_0000);
    }
    all
}

#[test]
fn constants_are_the_patterns_of_their_numbers() {
    assert_eq!(ZERO_BITS, 0.0f32.to_bits());
    assert_eq!(ONE_BITS, 1.0f32.to_bits());
    assert_eq!(INFINITY_BITS, f32::INFINITY.to_bits());
    assert_eq!(SIGN_BIT, (-0.0f32).to_bits());
    assert_eq!(MAGNITUDE_MASK, !SIGN_BIT);
}

#[test]
fn lt_agrees_with_the_machine_on_edge_patterns() {
    let all = patterns();
    for &x in &all {
        for &y in &all {
            assert_eq!(b(x).lt(b(y)), f32::from_bits(x) < f32::from_bits(y), "{:08x} < {:08x}", x, y);
        }
    }
}

#[test]
fn lt_agrees_with_the_machine_on_scattered_patterns() {
    let mut state: u64 = 0x0bad_cafe_0bad_cafe;
    for _ in 0..200_000 {
        let x = next(&mut state);
        let y = next(&mut state);
        assert_eq!(b(x).lt(b(y)), f32::from_bits(x) < f32::from_bits(y), "{:08x} < {:08x}", x, y);
        let near = x.wrapping_add(next(&mut state) % 3).wrapping_sub(1);
        assert_eq!(b(x).lt(b(near)), f32::from_bits(x) < f32::from_bits(near));
    }
}

#[test]
fn lt_is_false_between_the_two_zeros() {
    assert!(!f(0.0).lt(f(-0.0)));
    assert!(!f(-0.0).lt(f(0.0)));
    assert!(f(-1.0).lt(f(0.0)));
    assert!(f(-2.0).lt(f(-1.0)));
    assert!(!f(-1.0).lt(f(-2.0)));
    assert!(f(1.0).lt(f(f32::INFINITY)));
    assert!(f(f32::NEG_INFINITY).lt(f(f32::MIN)));
}

#[test]
fn lt_is_false_of_a_nan() {
    let nan = f(f32::NAN);
    assert!(!nan.lt(f(1.0)));
    assert!(!f(1.0).lt(nan));
    assert!(!nan.lt(nan));
}

#[test]
fn is_nan_and_sign_agree_with_the_machine() {
    for &x in &patterns() {
        assert_eq!(b(x).is_nan(), f32::from_bits(x).is_nan());
        assert_eq!(b(x).is_sign_negative(), f32::from_bits(x).is_sign_negative());
    }
}

#[test]
fn clamp_gives_zero_for_what_is_below_zero() {
    assert_eq!(f(-1.0).clamp_non_negative(), f(0.0));
    assert_eq!(f(-1.0e-45).clamp_non_negative(), f(0.0));
    assert_eq!(f(f32::NEG_INFINITY).clamp_non_negative(), f(0.0));
    assert_eq!(f(3.5).clamp_non_negative(), f(3.5));
    assert_eq!(f(0.0).clamp_non_negative(), f(0.0));
}

#[test]
fn clamp_keeps_negative_zero_and_nan() {
    assert_eq!(f(-0.0).clamp_non_negative().bits, 0x8000_0000);
    assert_eq!(b(0x7fc0_0001).clamp_non_negative().bits, 0x7fc0_0001);
    assert_eq!(b(0xffc0_0000).clamp_non_negative().bits, 0xffc0_0000);
}

#[test]
fn clamp_agrees_with_the_machine() {
    let mut state: u64 = 0x5555_aaaa_5555_aaaa;
    for _ in 0..100_000 {
        let x = next(&mut state);
        let value = f32::from_bits(x);
        let expected = if value < 0.0 { 0.0 } else { value };
        assert_eq!(b(x).clamp_non_negative().bits, expected.to_bits());
    }
}

#[test]
fn zero_is_positive_zero() {
    assert_eq!(Binary32::zero().bits, 0);
}
