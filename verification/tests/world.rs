use boids::boids::Boid;
use boids::simulation::elapsed_micros;
use boids::simulation::plot;
use boids::simulation::time_step;
use boids::simulation::window_conf;
use boids::simulation::ClockError;
use boids::simulation::Simulation;
use boids::universe::Disc;
use boids::universe::Frame;
use boids::universe::Universe;

fn boid(x: i64, y: i64, vx: i64, vy: i64) -> Boid {
    Boid { position: [x, y], velocity: [vx, vy] }
}

#[test]
fn window_is_640_square_and_titled() {
    let conf = window_conf();
    assert_eq!(conf.window_title, "Boids");
    assert_eq!(conf.window_width, 640);
    assert_eq!(conf.window_height, 640);
}

#[test]
fn universe_scales_are_pixels_per_grid_unit() {
    let u = Universe::new(640_000_000, 640_000_000, 10, 10);
    assert_eq!((u.nx, u.ny), (10, 10));
    assert_eq!((u.scale_x, u.scale_y), (64_000_000, 64_000_000));
    let v = Universe::new(640_000_000, 480_000_000, 12, 7);
    assert_eq!((v.scale_x, v.scale_y), (53_333_333, 68_571_428));
    assert!(v.is_valid());
}

#[test]
fn add_point_draws_a_six_pixel_disc_at_the_scaled_point() {
    let u = Universe::new(640_000_000, 320_000_000, 10, 10);
    let mut frame = Frame::new();
    u.add_point(&mut frame, 5_500_000, 2_250_000);
    u.add_point(&mut frame, -250_000, 0);
    assert_eq!(
        frame.discs,
        vec![
            Disc { x: 352_000_000, y: 72_000_000, radius: 6_000_000 },
            Disc { x: -16_000_000, y: 0, radius: 6_000_000 },
        ]
    );
}

#[test]
fn reset_clears_the_frame() {
    let u = Universe::new(640_000_000, 640_000_000, 10, 10);
    let mut frame = Frame::new();
    u.add_point(&mut frame, 1_000_000, 1_000_000);
    u.add_point(&mut frame, 2_000_000, 2_000_000);
    u.reset(&mut frame);
    assert!(frame.discs.is_empty());
}

#[test]
fn plot_shows_the_flock_in_order_on_a_cleared_frame() {
    let u = Universe::new(640_000_000, 640_000_000, 10, 10);
    let flock = [boid(1_000_000, 2_000_000, 0, 0), boid(9_000_000, 500_000, 0, 0)];
    let mut frame = Frame::new();
    u.add_point(&mut frame, 3_000_000, 3_000_000);
    plot(&u, &flock, &mut frame);
    assert_eq!(
        frame.discs,
        vec![
            Disc { x: 64_000_000, y: 128_000_000, radius: 6_000_000 },
            Disc { x: 576_000_000, y: 32_000_000, radius: 6_000_000 },
        ]
    );
}

#[test]
fn time_step_is_the_reciprocal_of_the_time_scale() {
    assert_eq!(time_step(25_000_000), 40_000);
    assert_eq!(time_step(1_000_000), 1_000_000);
    assert_eq!(time_step(3_000_000), 333_333);
    assert_eq!(time_step(10_000), 100_000_000);
}

#[test]
fn elapsed_micros_is_the_difference_of_the_readings() {
    assert_eq!(elapsed_micros(1_000, 1_016), Ok(16));
    assert_eq!(elapsed_micros(5, 5), Ok(0));
}

#[test]
fn clock_going_backwards_is_an_error() {
    assert_eq!(elapsed_micros(1_016, 1_000), Err(ClockError::WentBackwards));
    assert_eq!(ClockError::WentBackwards.message(), "Time went backwards");
}

#[test]
fn tick_plots_the_flock_and_then_advances_it() {
    let mut sim = Simulation {
        flock: vec![boid(9_800_000, 5_000_000, 1_000_000, 0)],
        universe: Universe::new(640_000_000, 640_000_000, 10, 10),
        dtau: time_step(25_000_000),
        t_prev: 100,
    };
    assert!(sim.is_valid());
    let mut frame = Frame::new();
    assert_eq!(sim.tick(116, &mut frame), Ok(16));
    // The frame shows the flock as it stood before the tick.
    assert_eq!(frame.discs, vec![Disc { x: 627_200_000, y: 320_000_000, radius: 6_000_000 }]);
    assert_eq!(sim.flock[0].velocity, [968_000, 0]);
    assert_eq!(sim.flock[0].position, [9_838_720, 5_000_000]);
    assert_eq!(sim.t_prev, 116);
    assert_eq!(sim.dtau, 40_000);
}

#[test]
fn tick_ignores_the_measured_time() {
    let start = vec![boid(3_000_000, 4_000_000, 600_000, 800_000), boid(3_200_000, 4_100_000, 1_000_000, 0)];
    let universe = Universe::new(640_000_000, 640_000_000, 10, 10);
    let mut quick = Simulation { flock: start.clone(), universe, dtau: 40_000, t_prev: 0 };
    let mut slow = Simulation { flock: start.clone(), universe, dtau: 40_000, t_prev: 0 };
    let mut frame = Frame::new();
    assert_eq!(quick.tick(1, &mut frame), Ok(1));
    assert_eq!(slow.tick(5_000_000, &mut frame), Ok(5_000_000));
    assert_eq!(quick.flock, slow.flock);
}

#[test]
fn tick_with_the_clock_gone_backwards_changes_nothing() {
    let universe = Universe::new(640_000_000, 640_000_000, 10, 10);
    let mut sim = Simulation {
        flock: vec![boid(9_800_000, 5_000_000, 1_000_000, 0)],
        universe,
        dtau: 40_000,
        t_prev: 100,
    };
    let mut frame = Frame::new();
    universe.add_point(&mut frame, 1_000_000, 1_000_000);
    assert_eq!(sim.tick(99, &mut frame), Err(ClockError::WentBackwards));
    assert_eq!(sim.flock, vec![boid(9_800_000, 5_000_000, 1_000_000, 0)]);
    assert_eq!(sim.t_prev, 100);
    assert_eq!(frame.discs.len(), 1);
}

#[test]
fn tick_may_carry_the_flock_out_of_the_representable_range() {
    // A world as wide as the range, and an agent on its far edge heading out.
    let mut sim = Simulation {
        flock: vec![boid(1_000_000_000_000, 5_000_000, 1_000_000, 0)],
        universe: Universe::new(640_000_000, 640_000_000, 1_000_000, 10),
        dtau: 40_000,
        t_prev: 0,
    };
    assert!(sim.is_valid());
    let mut frame = Frame::new();
    assert_eq!(sim.tick(1, &mut frame), Ok(1));
    // The far band begins one unit short of the edge: the pull is -1, the
    // velocity 1 - 0.04 = 0.96, and the agent moves on by 0.04 * 0.96.
    assert_eq!(sim.flock[0].velocity, [960_000, 0]);
    assert_eq!(sim.flock[0].position, [1_000_000_038_400, 5_000_000]);
    // It has left the range, which the next tick would ask for.
    assert!(!sim.is_valid());
}

#[test]
fn simulation_validity_covers_flock_world_and_step() {
    let universe = Universe::new(640_000_000, 640_000_000, 10, 10);
    let good = Simulation { flock: vec![boid(0, 0, 0, 0)], universe, dtau: 100_000_000, t_prev: 0 };
    assert!(good.is_valid());
    let long_step = Simulation { flock: vec![boid(0, 0, 0, 0)], universe, dtau: 100_000_001, t_prev: 0 };
    assert!(!long_step.is_valid());
    let far = Simulation {
        flock: vec![boid(0, 0, 0, 0), boid(0, 2_000_000_000_000, 0, 0)],
        universe,
        dtau: 40_000,
        t_prev: 0,
    };
    assert!(!far.is_valid());
    let wide = Universe { nx: 1, ny: 1, scale_x: 1_000_000_000_001, scale_y: 0 };
    assert!(!wide.is_valid());
    let stretched = Simulation { flock: Vec::new(), universe: wide, dtau: 40_000, t_prev: 0 };
    assert!(!stretched.is_valid());
}
