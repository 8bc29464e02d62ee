use boids::fixed::fixed_multiply;
use boids::fixed::floor_div;
use boids::fixed::isqrt;
use boids::fixed::nearest_div;
use boids::fixed::SCALE;
use boids::vector::unit_vector;

#[test]
fn floor_div_rounds_towards_negative_infinity() {
    assert_eq!(floor_div(7, 2), 3);
    assert_eq!(floor_div(-7, 2), -4);
    assert_eq!(floor_div(-8, 2), -4);
    assert_eq!(floor_div(0, 5), 0);
    assert_eq!(floor_div(-1, 1_000_000), -1);
}

#[test]
fn fixed_multiply_is_exact_on_decimals() {
    // 0.04 * 0.3 = 0.012
    assert_eq!(fixed_multiply(40_000, 300_000), 12_000);
    // 0.1 * 3.0 = 0.3
    assert_eq!(fixed_multiply(100_000, 3_000_000), 300_000);
    // 1.0 * x = x
    assert_eq!(fixed_multiply(SCALE, -123_456_789), -123_456_789);
    // 0.5 * -0.000001 rounds down to -0.000001
    assert_eq!(fixed_multiply(500_000, -1), -1);
    assert_eq!(fixed_multiply(500_000, 1), 0);
}

#[test]
fn isqrt_rounds_down() {
    assert_eq!(isqrt(0), 0);
    assert_eq!(isqrt(1), 1);
    assert_eq!(isqrt(2), 1);
    assert_eq!(isqrt(3), 1);
    assert_eq!(isqrt(4), 2);
    assert_eq!(isqrt(99), 9);
    assert_eq!(isqrt(100), 10);
    assert_eq!(isqrt(2_250_000_000_000), 1_500_000);
    assert_eq!(isqrt(u128::MAX), u64::MAX);
}

#[test]
fn unit_vector_of_a_three_four_five_triangle() {
    assert_eq!(unit_vector(3_000_000, 4_000_000), (600_000, 800_000));
    assert_eq!(unit_vector(3, 4), (600_000, 800_000));
    assert_eq!(unit_vector(-3, 4), (-600_000, 800_000));
}

#[test]
fn unit_vector_along_the_axes() {
    assert_eq!(unit_vector(1_500_000, 0), (1_000_000, 0));
    assert_eq!(unit_vector(200_000, 0), (1_000_000, 0));
    assert_eq!(unit_vector(0, -1), (0, -1_000_000));
    assert_eq!(unit_vector(i64::MAX, 0), (1_000_000, 0));
    assert_eq!(unit_vector(0, i64::MIN), (0, -1_000_000));
}

#[test]
fn unit_vector_rounds_to_the_nearest_raw_unit() {
    // 1 / sqrt(2) = 0.70710678...
    assert_eq!(unit_vector(1, 1), (707_107, 707_107));
    assert_eq!(unit_vector(-1, -1), (-707_107, -707_107));
    // (1, 2) / sqrt(5) = (0.4472135..., 0.8944271...)
    assert_eq!(unit_vector(1, 2), (447_214, 894_427));
    assert_eq!(unit_vector(-1_000_000, 2_000_000), (-447_214, 894_427));
}

#[test]
fn nearest_div_rounds_halves_upwards() {
    assert_eq!(nearest_div(7, 2), 4);
    assert_eq!(nearest_div(-7, 2), -3);
    assert_eq!(nearest_div(6, 4), 2);
    assert_eq!(nearest_div(5, 4), 1);
    assert_eq!(nearest_div(-5, 4), -1);
    assert_eq!(nearest_div(-6, 4), -1);
    assert_eq!(nearest_div(0, 9), 0);
}

#[test]
fn unit_vector_has_length_one_up_to_rounding() {
    let samples: [(i64, i64); 10] = [
        (1, 1),
        (-1, -1),
        (1, 2),
        (99_999_999_999, 1),
        (100_000_000_000, -1),
        (-7, 3),
        (123_456, -654_321),
        (5_000_000_000, 1),
        (-999_999, -999_999),
        (1, -2_000_000_000_000_000_000),
    ];
    for (x, y) in samples {
        let (ux, uy) = unit_vector(x, y);
        let norm_sq = ux * ux + uy * uy;
        // Within one raw unit, a millionth, of length 1.0.
        assert!((SCALE - 1) * (SCALE - 1) <= norm_sq && norm_sq <= (SCALE + 1) * (SCALE + 1), "{} {}", x, y);
        assert!(ux.abs() <= SCALE && uy.abs() <= SCALE);
    }
}
