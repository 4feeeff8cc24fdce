use route_tracker::coord::Position;
use route_tracker::tolerance::{coords_close, positions_equal};

fn pos(x: f32, y: f32, z: f32) -> Position {
    Position { x: x.to_bits(), y: y.to_bits(), z: z.to_bits() }
}

fn reference(a: f32, b: f32) -> bool {
    (a - b).abs() < 0.001
}

#[test]
fn test_positions_equal() {
    assert!(positions_equal(pos(1.0, 2.0, 3.0), pos(1.0, 2.0, 3.0)));

    // Within epsilon
    assert!(positions_equal(pos(1.0, 2.0, 3.0), pos(1.0005, 2.0005, 3.0005)));

    // Outside epsilon
    assert!(!positions_equal(pos(1.0, 2.0, 3.0), pos(1.1, 2.0, 3.0)));
}

#[test]
fn close_agrees_with_rounded_difference_on_samples() {
    let samples: Vec<f32> = vec![
        0.0, -0.0, 1.0, -1.0, 0.001, -0.001, 0.0005, 0.00099, 0.0010001, 0.002, 1.0e-10,
        -1.0e-10, 1.0e-38, 1.0e-40, 1.0e-45, f32::MIN_POSITIVE, 3.0e38, -3.0e38, f32::MAX,
        f32::MIN, 1024.0, 1024.001, 1024.0009, -514.0, 28.0, 200.0, 100.0, 100.0005,
        65536.0, 65536.008, 0.5, 0.5009, 0.5011, 16777216.0, 16777217.0, 8388608.0,
        f32::INFINITY, f32::NEG_INFINITY, f32::NAN, 0.000999, 0.0009999999, 0.0019999999,
    ];
    for a in samples.iter() {
        for b in samples.iter() {
            assert_eq!(
                coords_close(a.to_bits(), b.to_bits()),
                reference(*a, *b),
                "a = {:?}, b = {:?}",
                a,
                b
            );
        }
    }
}

#[test]
fn close_agrees_with_rounded_difference_near_the_threshold() {
    // Walk bit patterns on both sides of the tolerance around several bases.
    let bases: Vec<f32> = vec![0.0, 0.001, 0.25, 1.0, 3.0, 100.0, 1000.0, 1.0e-5, 1.0e-20];
    for base in bases.iter() {
        let target = *base + 0.001;
        let centre = target.to_bits();
        let mut offset: u32 = 0;
        while offset < 4000 {
            let up = f32::from_bits(centre + offset);
            let down = f32::from_bits(centre - offset.min(centre));
            for other in [up, down, -up, -down] {
                assert_eq!(coords_close(base.to_bits(), other.to_bits()), reference(*base, other));
                assert_eq!(coords_close(other.to_bits(), base.to_bits()), reference(other, *base));
            }
            offset += 1;
        }
    }
}

#[test]
fn close_agrees_with_rounded_difference_on_a_pseudo_random_walk() {
    let mut state: u32 = 0x1234_5678;
    let mut count = 0;
    while count < 200_000 {
        state = state.wrapping_mul(1_664_525).wrapping_add(1_013_904_223);
        let a = state;
        state = state.wrapping_mul(1_664_525).wrapping_add(1_013_904_223);
        // Keep the second value near the first half of the time.
        let b = if count % 2 == 0 { state } else { a.wrapping_add(state % 33_000).wrapping_sub(16_500) };
        assert_eq!(
            coords_close(a, b),
            reference(f32::from_bits(a), f32::from_bits(b)),
            "a = {:#x}, b = {:#x}",
            a,
            b
        );
        count += 1;
    }
}

#[test]
fn values_that_are_not_finite_are_close_to_nothing() {
    let inf = f32::INFINITY.to_bits();
    let nan = f32::NAN.to_bits();
    assert!(!coords_close(inf, inf));
    assert!(!coords_close(nan, nan));
    assert!(!coords_close(inf, 1.0f32.to_bits()));
    assert!(coords_close(0.0f32.to_bits(), (-0.0f32).to_bits()));
}
