use boids::boids::get_average_position;
use boids::boids::get_cohesion_deltav;
use boids::boids::Boid;
use boids::boids::Movement;

fn boid(x: i64, y: i64, vx: i64, vy: i64) -> Boid {
    Boid { position: [x, y], velocity: [vx, vy] }
}

fn speed_sq(b: &Boid) -> i64 {
    b.velocity[0] * b.velocity[0] + b.velocity[1] * b.velocity[1]
}

#[test]
fn two_agents_under_cohesion_only() {
    let mut flock = [boid(2_000_000, 5_000_000, 1_000_000, 0), boid(8_000_000, 5_000_000, 1_000_000, 0)];
    let (com_x, com_y) = get_average_position(&flock);
    let d0 = get_cohesion_deltav(&flock[0], &com_x, &com_y);
    let d1 = get_cohesion_deltav(&flock[1], &com_x, &com_y);
    assert_eq!(d0, (300_000, 0));
    assert_eq!(d1, (-300_000, 0));
    flock[0].accelerate(&40_000, &d0.0, &d0.1);
    flock[1].accelerate(&40_000, &d1.0, &d1.1);
    // Speeds 1.012 and 0.988 lie inside [0.8, 1.2]: no clamp fires.
    assert_eq!(flock[0].velocity, [1_012_000, 0]);
    assert_eq!(flock[1].velocity, [988_000, 0]);
    assert_eq!(flock[0].position, [2_000_000, 5_000_000]);
    assert_eq!(flock[1].position, [8_000_000, 5_000_000]);
}

#[test]
fn speed_clamp_fires_above_the_band() {
    let mut b = boid(5_000_000, 5_000_000, 1_500_000, 0);
    b.accelerate(&0, &0, &0);
    assert_eq!(b.velocity, [1_000_000, 0]);
}

#[test]
fn speed_clamp_fires_below_the_band() {
    let mut b = boid(9_800_000, 5_000_000, 1_000_000, 0);
    b.accelerate(&1_000_000, &-800_000, &0);
    // 1 - 0.8 = 0.2 < 0.8, clamped to 1.0
    assert_eq!(b.velocity, [1_000_000, 0]);
}

#[test]
fn speed_clamp_keeps_the_direction() {
    let mut b = boid(0, 0, 3_000_000, -4_000_000);
    b.accelerate(&0, &0, &0);
    assert_eq!(b.velocity, [600_000, -800_000]);
    let mut slow = boid(0, 0, -30, 40);
    slow.accelerate(&0, &0, &0);
    assert_eq!(slow.velocity, [-600_000, 800_000]);
}

#[test]
fn speed_clamp_leaves_the_band_alone() {
    for v in [800_000i64, 800_001, 1_000_000, 1_199_999, 1_200_000] {
        let mut b = boid(0, 0, v, 0);
        b.accelerate(&0, &0, &0);
        assert_eq!(b.velocity, [v, 0]);
        let mut c = boid(0, 0, 0, -v);
        c.accelerate(&40_000, &0, &0);
        assert_eq!(c.velocity, [0, -v]);
    }
}

#[test]
fn speed_clamp_edges_are_exact() {
    let mut below = boid(0, 0, 799_999, 0);
    below.accelerate(&0, &0, &0);
    assert_eq!(below.velocity, [1_000_000, 0]);
    let mut above = boid(0, 0, 1_200_001, 0);
    above.accelerate(&0, &0, &0);
    assert_eq!(above.velocity, [1_000_000, 0]);
}

#[test]
fn clamped_speed_is_within_a_millionth_of_one() {
    let slow_and_fast: [(i64, i64); 8] = [
        (1, 1),
        (-1, -1),
        (-7, 3),
        (799_999, 1),
        (565_685, 565_684),
        (848_529, 848_529),
        (-123_456_789, 987_654_321),
        (1_000_000_000_000, -999_999_999_999),
    ];
    for (vx, vy) in slow_and_fast {
        let mut b = boid(0, 0, vx, vy);
        b.accelerate(&0, &0, &0);
        let s = speed_sq(&b);
        assert!(999_999 * 999_999 <= s && s <= 1_000_001 * 1_000_001, "{} {}", vx, vy);
    }
}

#[test]
fn zero_velocity_stays_zero() {
    let mut b = boid(1_000_000, 1_000_000, 0, 0);
    b.accelerate(&40_000, &0, &0);
    assert_eq!(b.velocity, [0, 0]);
    let mut c = boid(1_000_000, 1_000_000, 500_000, -250_000);
    c.accelerate(&1_000_000, &-500_000, &250_000);
    assert_eq!(c.velocity, [0, 0]);
}

#[test]
fn speed_after_acceleration_is_zero_or_in_the_band() {
    let increments: [(i64, i64); 7] = [
        (0, 0),
        (300_000, -700_000),
        (-25_000_000, 1),
        (1, 1),
        (-1_000_000, 0),
        (9_999_999_999_999_999, -9_999_999_999_999_999),
        (-123_456_789, 987_654_321),
    ];
    let velocities: [(i64, i64); 5] =
        [(1_000_000, 0), (0, 0), (-600_000, 800_000), (1, 0), (1_000_000_000_000, -1_000_000_000_000)];
    for dtau in [0i64, 40_000, 1_000_000, -40_000, 100_000_000] {
        for (ax, ay) in increments {
            for (vx, vy) in velocities {
                let mut b = boid(0, 0, vx, vy);
                b.accelerate(&dtau, &ax, &ay);
                let s = speed_sq(&b);
                assert!(s == 0 || (640_000_000_000 <= s && s <= 1_440_000_000_000));
                assert!(b.is_valid());
            }
        }
    }
}

#[test]
fn update_position_moves_along_the_velocity() {
    let mut b = boid(2_000_000, 5_000_000, 1_012_000, -500_000);
    b.update_position(&40_000);
    assert_eq!(b.position, [2_040_480, 4_980_000]);
    assert_eq!(b.velocity, [1_012_000, -500_000]);
}

#[test]
fn update_position_does_not_clamp_at_the_world_edge() {
    let mut b = boid(9_990_000, 10_000, 1_000_000, -1_000_000);
    b.update_position(&40_000);
    assert_eq!(b.position, [10_030_000, -30_000]);
}

#[test]
fn update_position_is_the_plain_sum_at_the_edge_of_the_range() {
    // At a million grid units, moving on by one: nothing holds the agent back.
    let mut b = boid(1_000_000_000_000, -1_000_000_000_000, 1_000_000, -1_000_000);
    b.update_position(&1_000_000);
    assert_eq!(b.position, [1_000_001_000_000, -1_000_001_000_000]);
    assert_eq!(b.velocity, [1_000_000, -1_000_000]);
    // The agent has left the representable range, and says so.
    assert!(!b.is_valid());
}

#[test]
fn update_position_goes_backwards_for_a_negative_step() {
    let mut b = boid(2_000_000, 5_000_000, 1_000_000, -500_000);
    b.update_position(&-40_000);
    assert_eq!(b.position, [1_960_000, 5_020_000]);
}

#[test]
fn displacement_is_the_step_times_the_speed() {
    // Speeds 0.8, 1.0 and 1.2 over a step of 0.04 and of 1.0.
    let cases: [(i64, i64, i64, i64); 6] = [
        (480_000, 640_000, 40_000, 32_000),
        (600_000, -800_000, 40_000, 40_000),
        (-720_000, -960_000, 40_000, 48_000),
        (480_000, 640_000, 1_000_000, 800_000),
        (-600_000, 800_000, 1_000_000, 1_000_000),
        (720_000, 960_000, 1_000_000, 1_200_000),
    ];
    for (vx, vy, dt, expected) in cases {
        let mut b = boid(3_000_000, 4_000_000, vx, vy);
        b.update_position(&dt);
        let (dx, dy) = (b.position[0] - 3_000_000, b.position[1] - 4_000_000);
        assert_eq!(dx * dx + dy * dy, expected * expected);
        assert_eq!(b.velocity, [vx, vy]);
    }
}
