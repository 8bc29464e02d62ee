use boids::boids::can_perceive;
use boids::boids::get_alignment_deltav;
use boids::boids::get_average_position;
use boids::boids::get_boundary_deltav;
use boids::boids::get_cohesion_deltav;
use boids::boids::get_neighbors;
use boids::boids::get_separation_deltav;
use boids::boids::is_crowding;
use boids::boids::Boid;

fn boid(x: i64, y: i64, vx: i64, vy: i64) -> Boid {
    Boid { position: [x, y], velocity: [vx, vy] }
}

#[test]
fn boundary_pulls_back_from_the_far_band() {
    // Agent at (9.5, 5) in a 10 by 10 world: dx = (10 - 1) - 9.5 = -0.5.
    let b = boid(9_500_000, 5_000_000, 1_000_000, 0);
    assert_eq!(get_boundary_deltav(&b, &10, &10), (-500_000, 0));
}

#[test]
fn boundary_pulls_back_from_the_near_band() {
    // Agent at (0.25, 5): dx = 1 - 0.25 = 0.75.
    let b = boid(250_000, 5_000_000, 1_000_000, 0);
    assert_eq!(get_boundary_deltav(&b, &10, &10), (750_000, 0));
}

#[test]
fn boundary_acts_on_both_axes() {
    let b = boid(-500_000, 9_750_000, 0, 0);
    assert_eq!(get_boundary_deltav(&b, &10, &10), (1_500_000, -750_000));
}

#[test]
fn boundary_is_zero_inside_the_safe_region() {
    for x in [1_000_000i64, 1_000_001, 5_000_000, 8_999_999, 9_000_000] {
        for y in [1_000_000i64, 4_250_000, 9_000_000] {
            let b = boid(x, y, 700_000, -700_000);
            assert_eq!(get_boundary_deltav(&b, &10, &10), (0, 0));
        }
    }
}

#[test]
fn boundary_starts_just_outside_the_safe_region() {
    assert_eq!(get_boundary_deltav(&boid(999_999, 5_000_000, 0, 0), &10, &10), (1, 0));
    assert_eq!(get_boundary_deltav(&boid(9_000_001, 5_000_000, 0, 0), &10, &10), (-1, 0));
}

#[test]
fn cohesion_is_a_tenth_of_the_way_to_the_centroid() {
    let a = boid(2_000_000, 5_000_000, 1_000_000, 0);
    let b = boid(8_000_000, 5_000_000, 1_000_000, 0);
    let flock = [a, b];
    let (com_x, com_y) = get_average_position(&flock);
    assert_eq!((com_x, com_y), (5_000_000, 5_000_000));
    assert_eq!(get_cohesion_deltav(&flock[0], &com_x, &com_y), (300_000, 0));
    assert_eq!(get_cohesion_deltav(&flock[1], &com_x, &com_y), (-300_000, 0));
}

#[test]
fn average_position_rounds_down() {
    let flock = [boid(1, -1, 0, 0), boid(2, -2, 0, 0)];
    assert_eq!(get_average_position(&flock), (1, -2));
    let three = [boid(3_000_000, 0, 0, 0), boid(6_000_000, 0, 0, 0), boid(0, 9_000_000, 0, 0)];
    assert_eq!(get_average_position(&three), (3_000_000, 3_000_000));
}

#[test]
fn alignment_is_half_the_gap_to_the_mean_velocity() {
    let me = boid(5_000_000, 5_000_000, 1_000_000, 0);
    let n1 = boid(5_100_000, 5_000_000, 0, 1_000_000);
    let n2 = boid(5_200_000, 5_000_000, 0, -400_000);
    let nbrs = [&n1, &n2];
    // mean velocity (0, 0.3); gap (-1, 0.3); half of it (-0.5, 0.15)
    assert_eq!(get_alignment_deltav(&me, &nbrs), (-500_000, 150_000));
}

#[test]
fn alignment_without_neighbours_is_zero() {
    let me = boid(5_000_000, 5_000_000, 1_000_000, 300_000);
    let nbrs: [&Boid; 0] = [];
    assert_eq!(get_alignment_deltav(&me, &nbrs), (0, 0));
}

#[test]
fn separation_without_neighbours_is_zero() {
    let me = boid(5_000_000, 5_000_000, 1_000_000, 300_000);
    let nbrs: [&Boid; 0] = [];
    assert_eq!(get_separation_deltav(&me, &nbrs), (0, 0));
}

#[test]
fn separation_acts_only_under_half_a_unit() {
    let a = boid(5_000_000, 5_000_000, 1_000_000, 0);
    let b = boid(5_400_000, 5_000_000, 1_000_000, 0);
    let c = boid(5_000_000, 5_600_000, 1_000_000, 0);
    // a is pushed away from b along x; c is too far to count.
    assert_eq!(get_separation_deltav(&a, &[&b, &c]), (-400_000, 0));
    // b is pushed away from a along x; c is too far to count.
    assert_eq!(get_separation_deltav(&b, &[&a, &c]), (400_000, 0));
    // c on its own contributes nothing to either.
    assert_eq!(get_separation_deltav(&a, &[&c]), (0, 0));
    assert_eq!(get_separation_deltav(&b, &[&c]), (0, 0));
}

#[test]
fn separation_radius_is_exclusive() {
    let a = boid(5_000_000, 5_000_000, 0, 0);
    let at_radius = boid(5_500_000, 5_000_000, 0, 0);
    let inside = boid(5_499_999, 5_000_000, 0, 0);
    assert!(!is_crowding(&a, &at_radius));
    assert!(is_crowding(&a, &inside));
    assert_eq!(get_separation_deltav(&a, &[&at_radius]), (0, 0));
    assert_eq!(get_separation_deltav(&a, &[&inside]), (-499_999, 0));
}

#[test]
fn separation_is_no_longer_than_its_radius() {
    let a = boid(5_000_000, 5_000_000, 0, 0);
    // Neighbours just inside the radius, on one side and all around.
    let east = boid(5_499_999, 5_000_000, 0, 0);
    let north_east = boid(5_353_553, 5_353_553, 0, 0);
    let north = boid(5_000_000, 5_499_999, 0, 0);
    let west = boid(4_500_001, 5_000_001, 0, 0);
    let lists: [&[&Boid]; 5] =
        [&[&east], &[&east, &north_east], &[&east, &north_east, &north], &[&west], &[&east, &west, &north]];
    for nbrs in lists {
        let (dx, dy) = get_separation_deltav(&a, nbrs);
        assert!(dx.abs() <= 500_000 && dy.abs() <= 500_000);
        assert!(dx * dx + dy * dy <= 500_000 * 500_000 + 4 * 500_000 + 2);
    }
    // mean (5.426776, 5.1767765 rounded down to 5.176776)
    assert_eq!(get_separation_deltav(&a, &[&east, &north_east]), (-426_776, -176_776));
}

#[test]
fn separation_pushes_away_from_the_mean_of_the_close_ones() {
    let a = boid(5_000_000, 5_000_000, 0, 0);
    let b = boid(5_200_000, 5_100_000, 0, 0);
    let c = boid(4_900_000, 5_300_000, 0, 0);
    // mean (5.05, 5.2); a - mean = (-0.05, -0.2)
    assert_eq!(get_separation_deltav(&a, &[&b, &c]), (-50_000, -200_000));
}

#[test]
fn neighbors_exclude_self_and_keep_flock_order() {
    let flock = [
        boid(5_300_000, 5_000_000, 1, 0),
        boid(5_000_000, 5_000_000, 2, 0),
        boid(5_100_000, 5_100_000, 3, 0),
        boid(5_000_000, 5_000_000, 4, 0),
    ];
    // Agent 1 sits at (5, 5). Agents 0 and 2 are ahead of it as seen from
    // the origin; agent 3 shares its position, so the offset is zero.
    let nbrs = get_neighbors(&flock, &1);
    assert_eq!(nbrs.len(), 2);
    assert_eq!(nbrs[0].velocity, [1, 0]);
    assert_eq!(nbrs[1].velocity, [3, 0]);
}

#[test]
fn neighbors_lie_in_the_cone_anchored_at_the_origin() {
    let me = boid(5_000_000, 5_000_000, 1_000_000, 0);
    let ahead = boid(5_400_000, 5_000_000, 0, 0);
    let behind = boid(4_600_000, 5_000_000, 0, 0);
    let across = boid(5_400_000, 4_600_000, 0, 0);
    assert!(can_perceive(&me, &ahead));
    assert!(!can_perceive(&me, &behind));
    // offset (0.4, -0.4) is at right angles to the position (5, 5)
    assert!(!can_perceive(&me, &across));
    // The cone follows the position, not the velocity: mirrored through the
    // origin, the same offsets are seen the other way round.
    let mirrored = boid(-5_000_000, -5_000_000, 1_000_000, 0);
    assert!(!can_perceive(&mirrored, &boid(-4_600_000, -5_000_000, 0, 0)));
    assert!(can_perceive(&mirrored, &boid(-5_400_000, -5_000_000, 0, 0)));
}

#[test]
fn perception_radius_is_exclusive() {
    let me = boid(5_000_000, 5_000_000, 0, 0);
    assert!(!can_perceive(&me, &boid(6_000_000, 5_000_000, 0, 0)));
    assert!(can_perceive(&me, &boid(5_999_999, 5_000_000, 0, 0)));
}

#[test]
fn an_isolated_agent_has_no_neighbours() {
    let flock = [
        boid(5_000_000, 5_000_000, 1_000_000, 0),
        boid(6_100_000, 5_000_000, 0, 1_000_000),
        boid(5_000_000, 6_200_000, 0, 1_000_000),
        boid(3_000_000, 3_000_000, 0, 1_000_000),
    ];
    let nbrs = get_neighbors(&flock, &0);
    assert!(nbrs.is_empty());
    assert_eq!(get_alignment_deltav(&flock[0], nbrs.as_slice()), (0, 0));
    assert_eq!(get_separation_deltav(&flock[0], nbrs.as_slice()), (0, 0));
}

#[test]
fn a_flock_of_one_steers_by_nothing() {
    let flock = [boid(4_200_000, 6_100_000, 900_000, -300_000)];
    let nbrs = get_neighbors(&flock, &0);
    assert!(nbrs.is_empty());
    let (com_x, com_y) = get_average_position(&flock);
    assert_eq!((com_x, com_y), (4_200_000, 6_100_000));
    assert_eq!(get_cohesion_deltav(&flock[0], &com_x, &com_y), (0, 0));
    assert_eq!(get_alignment_deltav(&flock[0], nbrs.as_slice()), (0, 0));
    assert_eq!(get_separation_deltav(&flock[0], nbrs.as_slice()), (0, 0));
}

#[test]
fn translation_leaves_alignment_and_separation_unchanged() {
    let me = boid(5_000_000, 5_000_000, 1_000_000, 0);
    let n1 = boid(5_200_001, 5_100_000, 300_000, 900_000);
    let n2 = boid(4_900_000, 5_300_002, -200_000, 1_100_000);
    let n3 = boid(5_700_000, 5_000_000, 0, 1_000_000);
    let before_a = get_alignment_deltav(&me, &[&n1, &n2, &n3]);
    let before_s = get_separation_deltav(&me, &[&n1, &n2, &n3]);
    for (dx, dy) in [(1i64, 0i64), (-12_345_678, 7), (3_000_000, -9_999_999), (-1, -1)] {
        let shift = |b: &Boid| boid(b.position[0] + dx, b.position[1] + dy, b.velocity[0], b.velocity[1]);
        let (m, a, b, c) = (shift(&me), shift(&n1), shift(&n2), shift(&n3));
        assert_eq!(get_alignment_deltav(&m, &[&a, &b, &c]), before_a);
        assert_eq!(get_separation_deltav(&m, &[&a, &b, &c]), before_s);
    }
}

#[test]
fn translation_can_change_who_is_perceived() {
    // Perception looks along the position vector, so moving the flock
    // across the origin turns an agent's back on its neighbour.
    let flock = [boid(5_000_000, 5_000_000, 1_000_000, 0), boid(5_400_000, 5_000_000, 0, 1_000_000)];
    let nbrs = get_neighbors(&flock, &0);
    assert_eq!(nbrs.len(), 1);
    assert_eq!(get_separation_deltav(&flock[0], nbrs.as_slice()), (-400_000, 0));
    let moved = [boid(-5_000_000, 5_000_000, 1_000_000, 0), boid(-4_600_000, 5_000_000, 0, 1_000_000)];
    let moved_nbrs = get_neighbors(&moved, &0);
    assert!(moved_nbrs.is_empty());
    assert_eq!(get_separation_deltav(&moved[0], moved_nbrs.as_slice()), (0, 0));
}

#[test]
fn translation_that_keeps_perception_keeps_the_increments() {
    let flock = [
        boid(5_000_000, 5_000_000, 1_000_000, 0),
        boid(5_400_000, 5_100_000, 0, 1_000_000),
        boid(5_200_000, 4_900_000, -600_000, 800_000),
    ];
    let moved: Vec<Boid> = flock
        .iter()
        .map(|b| boid(b.position[0] + 2_000_000, b.position[1] + 3_000_000, b.velocity[0], b.velocity[1]))
        .collect();
    for i in 0..flock.len() {
        let nbrs = get_neighbors(&flock, &i);
        let moved_nbrs = get_neighbors(&moved, &i);
        assert_eq!(nbrs.len(), moved_nbrs.len());
        assert_eq!(
            get_alignment_deltav(&flock[i], nbrs.as_slice()),
            get_alignment_deltav(&moved[i], moved_nbrs.as_slice())
        );
        assert_eq!(
            get_separation_deltav(&flock[i], nbrs.as_slice()),
            get_separation_deltav(&moved[i], moved_nbrs.as_slice())
        );
    }
}

#[test]
fn validity_is_the_representable_range() {
    assert!(boid(1_000_000_000_000, -1_000_000_000_000, 0, 0).is_valid());
    assert!(!boid(1_000_000_000_001, 0, 0, 0).is_valid());
    assert!(!boid(0, 0, 0, -1_000_000_000_001).is_valid());
}
