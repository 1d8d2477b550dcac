use damped_spring::binary32::Binary32;

fn b(bits: u32) -> Binary32 {
    Binary32 { bits }
}

fn next(state: &mut u64) -> u32 {
    *state ^= *state << 13;
    *state ^= *state >> 7;
    *state ^= *state << 17;
    (*state >> 16) as u32
}

fn edge_patterns() -> Vec<u32> {
    let magnitudes: [u32; 30] = [
        0x0000_0000,
        0x0000_0001,
        0x0000_0002,
        0x0000_0003,
        0x0040_0000,
        0x007f_ffff,
        0x0080_0000,
        0x0080_0001,
        0x00ff_ffff,
        0x0100_0000,
        0x0c7f_ffff,
        0x0d00_0000,
        0x3380_0000,
        0x3400_0000,
        0x3f7f_ffff,
        0x3f80_0000,
        0x3f80_0001,
        0x3fc0_0000,
        0x4000_0000,
        0x4040_0000,
        0x4b00_0000,
        0x4b7f_ffff,
        0x4b80_0000,
        0x4c00_0001,
        0x7f00_0000,
        0x7f7f_fffe,
        0x7f7f_ffff,
        0x7f80_0000,
        0x7f80_0001,
        0x7fc0_0000,
    ];
    let mut all = Vec::new();
    for m in magnitudes {
        all.push(m);
        all.push(m | 0x8000_0000);
    }
    all
}

fn check_add(x: u32, y: u32) {
    let expected = f32::from_bits(x) + f32::from_bits(y);
    let got = b(x).add(b(y));
    if expected.is_nan() {
        assert!(got.is_nan(), "{:08x} + {:08x}", x, y);
    } else {
        assert_eq!(got.bits, expected.to_bits(), "{:08x} + {:08x}", x, y);
    }
}

fn check_sub(x: u32, y: u32) {
    let expected = f32::from_bits(x) - f32::from_bits(y);
    let got = b(x).sub(b(y));
    if expected.is_nan() {
        assert!(got.is_nan(), "{:08x} - {:08x}", x, y);
    } else {
        assert_eq!(got.bits, expected.to_bits(), "{:08x} - {:08x}", x, y);
    }
}

fn check_mul(x: u32, y: u32) {
    let expected = f32::from_bits(x) * f32::from_bits(y);
    let got = b(x).mul(b(y));
    if expected.is_nan() {
        assert!(got.is_nan(), "{:08x} * {:08x}", x, y);
    } else {
        assert_eq!(got.bits, expected.to_bits(), "{:08x} * {:08x}", x, y);
    }
}

#[test]
fn add_agrees_with_the_machine_on_edge_patterns() {
    let all = edge_patterns();
    for &x in &all {
        for &y in &all {
            check_add(x, y);
        }
    }
}

#[test]
fn sub_agrees_with_the_machine_on_edge_patterns() {
    let all = edge_patterns();
    for &x in &all {
        for &y in &all {
            check_sub(x, y);
        }
    }
}

#[test]
fn mul_agrees_with_the_machine_on_edge_patterns() {
    let all = edge_patterns();
    for &x in &all {
        for &y in &all {
            check_mul(x, y);
        }
    }
}

#[test]
fn add_agrees_with_the_machine_on_scattered_patterns() {
    let mut state: u64 = 0x9e37_79b9_7f4a_7c15;
    for _ in 0..200_000 {
        let x = next(&mut state);
        let y = next(&mut state);
        check_add(x, y);
        check_sub(x, y);
    }
}

#[test]
fn add_agrees_with_the_machine_on_close_exponents() {
    let mut state: u64 = 0x2545_f491_4f6c_dd1d;
    for _ in 0..200_000 {
        let x = next(&mut state);
        let shift = next(&mut state) % 61;
        let exponent = ((x >> 23) & 0xff) as i64 + shift as i64 - 30;
        let exponent = exponent.clamp(0, 254) as u32;
        let y = (next(&mut state) & 0x807f_ffff) | (exponent << 23);
        check_add(x, y);
        check_sub(x, y);
        check_add(y, x);
    }
}

#[test]
fn add_agrees_with_the_machine_near_cancellation() {
    let mut state: u64 = 0x1234_5678_9abc_def1;
    for _ in 0..100_000 {
        let x = next(&mut state) & 0x7fff_ffff;
        let delta = next(&mut state) % 9;
        let y = (x.wrapping_add(delta).wrapping_sub(4) & 0x7fff_ffff) | 0x8000_0000;
        check_add(x, y);
        check_sub(x, y ^ 0x8000_0000);
    }
}

#[test]
fn mul_agrees_with_the_machine_on_scattered_patterns() {
    let mut state: u64 = 0xdead_beef_cafe_f00d;
    for _ in 0..200_000 {
        let x = next(&mut state);
        let y = next(&mut state);
        check_mul(x, y);
    }
}

#[test]
fn mul_agrees_with_the_machine_where_the_product_is_small_or_large() {
    let mut state: u64 = 0x0123_4567_89ab_cdef;
    for _ in 0..200_000 {
        let x = next(&mut state);
        let ex = (x >> 23) & 0xff;
        // exponents that sum to the edge of the subnormals or of overflow
        let around = if next(&mut state) % 2 == 0 { 127 - 126 - 12 } else { 127 + 127 } as i64;
        let ey = (around + 127 - ex as i64 + (next(&mut state) % 40) as i64 - 20).clamp(0, 254) as u32;
        let y = (next(&mut state) & 0x807f_ffff) | (ey << 23);
        check_mul(x, y);
    }
}

#[test]
fn neg_turns_the_sign_bit() {
    for &x in &edge_patterns() {
        assert_eq!(b(x).neg().bits, x ^ 0x8000_0000);
        assert_eq!(b(x).neg().bits, (-f32::from_bits(x)).to_bits());
    }
}

#[test]
fn sums_and_products_of_small_numbers() {
    let one = b(1.0f32.to_bits());
    let two = b(2.0f32.to_bits());
    let three = b(3.0f32.to_bits());
    assert_eq!(one.add(two), three);
    assert_eq!(three.sub(two), one);
    assert_eq!(two.mul(three).bits, 6.0f32.to_bits());
    assert_eq!(b(0.1f32.to_bits()).add(b(0.2f32.to_bits())).bits, (0.1f32 + 0.2f32).to_bits());
    assert_eq!(one.sub(one).bits, 0);
    assert_eq!(one.neg().add(one).bits, 0);
    assert_eq!(b(0x8000_0000).add(b(0x8000_0000)).bits, 0x8000_0000);
    assert_eq!(b(0x8000_0000).add(b(0)).bits, 0);
}

#[test]
fn a_nan_result_is_the_quiet_nan() {
    let inf = b(0x7f80_0000);
    assert_eq!(inf.sub(inf).bits, 0x7fc0_0000);
    assert_eq!(inf.mul(b(0)).bits, 0x7fc0_0000);
    assert_eq!(b(0x7f80_0001).add(b(0)).bits, 0x7fc0_0000);
    assert_eq!(b(0x3f80_0000).mul(b(0xffff_ffff)).bits, 0x7fc0_0000);
}

fn check_div(x: u32, y: u32) {
    let expected = f32::from_bits(x) / f32::from_bits(y);
    let got = b(x).div(b(y));
    if expected.is_nan() {
        assert!(got.is_nan(), "{:08x} / {:08x}", x, y);
    } else {
        assert_eq!(got.bits, expected.to_bits(), "{:08x} / {:08x}", x, y);
    }
}

#[test]
fn div_agrees_with_the_machine_on_edge_patterns() {
    let all = edge_patterns();
    for &x in &all {
        for &y in &all {
            check_div(x, y);
        }
    }
}

#[test]
fn div_agrees_with_the_machine_on_scattered_patterns() {
    let mut state: u64 = 0x0f0f_1234_8765_4321;
    for _ in 0..200_000 {
        let x = next(&mut state);
        let y = next(&mut state);
        check_div(x, y);
    }
}

#[test]
fn div_agrees_with_the_machine_where_the_quotient_is_small_or_large() {
    let mut state: u64 = 0x7777_1234_8765_4321;
    for _ in 0..200_000 {
        let x = next(&mut state);
        let ex = ((x >> 23) & 0xff) as i64;
        let around: i64 = if next(&mut state) % 2 == 0 { -138 } else { 127 };
        let ey = (ex - around + (next(&mut state) % 40) as i64 - 20).clamp(0, 254) as u32;
        let y = (next(&mut state) & 0x807f_ffff) | (ey << 23);
        check_div(x, y);
    }
}

#[test]
fn div_agrees_with_the_machine_on_short_fractions() {
    for i in 1u32..300 {
        for j in 1u32..300 {
            check_div((i as f32).to_bits(), (j as f32).to_bits());
            check_div(i, j);
            check_div(i << 12, j);
        }
    }
}

fn check_sqrt(x: u32) {
    let expected = f32::from_bits(x).sqrt();
    let got = b(x).sqrt();
    if expected.is_nan() {
        assert!(got.is_nan(), "sqrt {:08x}", x);
    } else {
        assert_eq!(got.bits, expected.to_bits(), "sqrt {:08x}", x);
    }
}

#[test]
fn sqrt_agrees_with_the_machine_on_edge_patterns() {
    for &x in &edge_patterns() {
        check_sqrt(x);
    }
}

#[test]
fn sqrt_agrees_with_the_machine_on_scattered_patterns() {
    let mut state: u64 = 0x1357_9bdf_0246_8ace;
    for _ in 0..300_000 {
        check_sqrt(next(&mut state));
        check_sqrt(next(&mut state) & 0x7fff_ffff);
    }
}

#[test]
fn sqrt_agrees_with_the_machine_on_squares_and_their_neighbours() {
    for i in 0u32..3000 {
        let square = (i as f32) * (i as f32);
        check_sqrt(square.to_bits());
        check_sqrt(square.to_bits().wrapping_add(1));
        check_sqrt(square.to_bits().wrapping_sub(1) & 0x7fff_ffff);
        check_sqrt(i);
    }
}

#[test]
fn a_tie_goes_to_the_even_neighbour() {
    let big = b(16777216.0f32.to_bits());
    // 2^24 + 1 lies halfway between 2^24 and 2^24 + 2
    assert_eq!(big.add(b(1.0f32.to_bits())).bits, 16777216.0f32.to_bits());
    // 2^24 + 3 lies halfway between 2^24 + 2 and 2^24 + 4
    assert_eq!(big.add(b(3.0f32.to_bits())).bits, 16777220.0f32.to_bits());
    // halves of the smallest subnormal
    assert_eq!(b(1).mul(b(0.5f32.to_bits())).bits, 0);
    assert_eq!(b(3).mul(b(0.5f32.to_bits())).bits, 2);
    assert_eq!(b(5).mul(b(0.5f32.to_bits())).bits, 2);
    assert_eq!(b(7).div(b(2.0f32.to_bits())).bits, 4);
}

#[test]
fn results_beyond_the_largest_number_are_infinite() {
    let max = b(f32::MAX.to_bits());
    assert_eq!(max.add(max).bits, 0x7f80_0000);
    assert_eq!(max.mul(b(2.0f32.to_bits())).bits, 0x7f80_0000);
    assert_eq!(max.neg().mul(b(2.0f32.to_bits())).bits, 0xff80_0000);
    assert_eq!(max.div(b(0.5f32.to_bits())).bits, 0x7f80_0000);
    // half a last place more rounds up, anything less does not
    assert_eq!(max.add(b(0x7300_0000)).bits, 0x7f80_0000);
    assert_eq!(max.add(b(0x72ff_ffff)).bits, 0x7f7f_ffff);
    assert_eq!(b(1.0f32.to_bits()).div(b(0)).bits, 0x7f80_0000);
}

#[test]
fn results_below_half_the_smallest_number_are_zero() {
    let least = b(1);
    assert_eq!(least.mul(b(0.25f32.to_bits())).bits, 0);
    assert_eq!(least.mul(b(0.75f32.to_bits())).bits, 1);
    assert_eq!(least.neg().mul(b(0.25f32.to_bits())).bits, 0x8000_0000);
    assert_eq!(least.div(b(4.0f32.to_bits())).bits, 0);
    assert_eq!(least.mul(least).bits, 0);
}

#[test]
fn square_roots_of_squares_are_exact() {
    assert_eq!(b(9.0f32.to_bits()).sqrt().bits, 3.0f32.to_bits());
    assert_eq!(b(0.5625f32.to_bits()).sqrt().bits, 0.75f32.to_bits());
    assert_eq!(b(2.0f32.to_bits()).sqrt().bits, 2.0f32.sqrt().to_bits());
    assert_eq!(b(0).sqrt().bits, 0);
    assert_eq!(b(0x8000_0000).sqrt().bits, 0x8000_0000);
    assert_eq!(b(0x7f80_0000).sqrt().bits, 0x7f80_0000);
    assert!(b((-1.0f32).to_bits()).sqrt().is_nan());
    assert!(b(0xff80_0000).sqrt().is_nan());
}
