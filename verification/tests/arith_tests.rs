use route_tracker::arith::{add_bits, grid_offset, negate_bits, subtract_bits, QUIET_NAN};

fn same(bits: u32, expected: f32) -> bool {
    if expected.is_nan() {
        bits == QUIET_NAN
    } else {
        bits == expected.to_bits()
    }
}

fn check_pair(a: u32, b: u32) {
    let x = f32::from_bits(a);
    let y = f32::from_bits(b);
    assert!(same(add_bits(a, b), x + y), "sum of {:#x} and {:#x}", a, b);
    assert!(same(subtract_bits(a, b), x - y), "difference of {:#x} and {:#x}", a, b);
}

#[test]
fn sums_agree_with_the_machine_on_chosen_values() {
    let samples: Vec<f32> = vec![
        0.0, -0.0, 1.0, -1.0, 0.5, 1.5, 2.0, 3.0, 0.1, 0.2, 0.3, 1.0e-3, 10.0, 100.0, 50.0,
        20.0, 30.0, 160.0, 75.0, 140.0, 10240.0, 8960.0, -514.0, 28.0, 200.0, 1.0e10, -1.0e10,
        1.0e-10, 1.0e-38, 1.0e-40, 1.0e-45, -1.0e-45, f32::MIN_POSITIVE, f32::MAX, f32::MIN,
        f32::EPSILON, 16777216.0, 16777215.0, 8388608.0, 8388607.5, 33554432.0, 1.0e38, 3.0e38,
        -3.0e38, f32::INFINITY, f32::NEG_INFINITY, f32::NAN, 65280.0, 256.0, 0.99999994,
        1.0000001, 2.9999998,
    ];
    for a in samples.iter() {
        for b in samples.iter() {
            check_pair(a.to_bits(), b.to_bits());
        }
    }
}

#[test]
fn sums_agree_with_the_machine_on_a_pseudo_random_walk() {
    let mut state: u32 = 0x9E37_79B9;
    let mut count = 0;
    while count < 300_000 {
        state = state.wrapping_mul(1_664_525).wrapping_add(1_013_904_223);
        let a = state;
        state = state.wrapping_mul(1_664_525).wrapping_add(1_013_904_223);
        let b = match count % 4 {
            0 => state,
            // Close exponents: heavy cancellation and rounding ties.
            1 => (a & 0xFF80_0000) ^ (state & 0x807F_FFFF),
            2 => (a.wrapping_add((state % 64) << 23)) ^ (state & 0x8000_0000),
            _ => a ^ 0x8000_0000 ^ (state & 0x0000_00FF),
        };
        check_pair(a, b);
        count += 1;
    }
}

#[test]
fn sums_round_ties_to_even() {
    // 2^24 + 1 lies halfway between two neighbours and goes to the even one.
    assert_eq!(add_bits(16777216.0f32.to_bits(), 1.0f32.to_bits()), 16777216.0f32.to_bits());
    assert_eq!(add_bits(16777218.0f32.to_bits(), 1.0f32.to_bits()), 16777220.0f32.to_bits());
    assert_eq!(add_bits(16777216.0f32.to_bits(), 3.0f32.to_bits()), 16777220.0f32.to_bits());
}

#[test]
fn sums_overflow_to_infinity_and_cancel_to_positive_zero() {
    assert_eq!(add_bits(f32::MAX.to_bits(), f32::MAX.to_bits()), f32::INFINITY.to_bits());
    assert_eq!(add_bits(f32::MIN.to_bits(), f32::MIN.to_bits()), f32::NEG_INFINITY.to_bits());
    assert_eq!(add_bits(1.5f32.to_bits(), (-1.5f32).to_bits()), 0);
    assert_eq!(add_bits((-0.0f32).to_bits(), (-0.0f32).to_bits()), 0x8000_0000);
    assert_eq!(add_bits(f32::INFINITY.to_bits(), f32::NEG_INFINITY.to_bits()), QUIET_NAN);
}

#[test]
fn negation_flips_the_sign_bit_only() {
    assert_eq!(negate_bits(1.0f32.to_bits()), (-1.0f32).to_bits());
    assert_eq!(negate_bits((-2.5f32).to_bits()), 2.5f32.to_bits());
    assert_eq!(negate_bits(0), 0x8000_0000);
}

#[test]
fn grid_offsets_are_the_index_times_the_tile_size() {
    let mut index: u32 = 0;
    while index < 256 {
        let expected = (index as u8 as f32) * 256.0;
        assert_eq!(grid_offset(index as u8), expected.to_bits(), "index {}", index);
        index += 1;
    }
}

#[test]
fn sums_agree_with_the_machine_for_every_gap_between_exponents() {
    let fractions: [u32; 9] = [
        0, 1, 2, 0x3F_FFFF, 0x40_0000, 0x40_0001, 0x7F_FFFE, 0x7F_FFFF, 0x12_3456,
    ];
    let mut low_exponent: u32 = 0;
    while low_exponent < 255 {
        let mut gap: u32 = 0;
        while gap <= 70 && low_exponent + gap < 255 {
            for fa in fractions.iter() {
                for fb in fractions.iter() {
                    let a = (low_exponent << 23) | fa;
                    let b = ((low_exponent + gap) << 23) | fb;
                    check_pair(a, b);
                    check_pair(a | 0x8000_0000, b);
                    check_pair(a, b | 0x8000_0000);
                    check_pair(b | 0x8000_0000, a | 0x8000_0000);
                }
            }
            gap += 1;
        }
        low_exponent += if low_exponent < 30 || low_exponent > 180 { 1 } else { 13 };
    }
}
