//! The driver's decisions: what a tick of the wall clock does to a running
//! simulation, and what the window shows for it.

use crate::boids::all_in_range;
use crate::boids::is_spawn;
use crate::boids::states;
use crate::boids::Boid;
use crate::boids::State;
use crate::boids::GRID_LIMIT;
use crate::fixed::floor_div;
use crate::fixed::LIMIT;
use crate::fixed::SCALE;
use crate::fixed::STEP_LIMIT;
use crate::flock::step;
use crate::flock::stepped;
use crate::universe::Disc;
use crate::universe::Frame;
use crate::universe::Universe;
use vstd::arithmetic::div_mod::lemma_div_is_ordered;
use vstd::arithmetic::div_mod::lemma_div_multiples_vanish;
use vstd::arithmetic::div_mod::lemma_div_pos_is_pos;
use vstd::prelude::*;

verus! {

/// Shortest characteristic time for which the time step stays within
/// `STEP_LIMIT`: 0.01.
pub const MIN_TIME_SCALE: i64 = 10_000;

/// The options of the window: its title and its size in whole pixels.
#[derive(Debug)]
pub struct WindowConf {
    pub window_title: String,
    pub window_height: i32,
    pub window_width: i32,
}

/// The window of the simulation: 640 by 640 pixels, titled "Boids".
pub fn window_conf() -> (conf: WindowConf)
    ensures
        conf.window_title@ == "Boids"@,
        conf.window_height == 640,
        conf.window_width == 640,
{
    WindowConf { window_title: "Boids".to_owned(), window_height: 640, window_width: 640 }
}

/// What can go wrong with the wall clock.
#[derive(Debug, Clone, Copy, PartialEq, Eq)]
pub enum ClockError {
    /// The clock was read at a time before the previous reading.
    WentBackwards,
}

impl ClockError {
    /// The message to end the run with.
    pub fn message(&self) -> (text: String)
        ensures
            text@ == "Time went backwards"@,
    {
        "Time went backwards".to_owned()
    }
}

/// The microseconds between two readings of the wall clock, or the error
/// that the clock went backwards.
pub fn elapsed_micros(t_prev: u128, t_now: u128) -> (r: Result<u128, ClockError>)
    ensures
        t_prev <= t_now ==> r == Ok::<u128, ClockError>((t_now - t_prev) as u128),
        t_now < t_prev ==> r == Err::<u128, ClockError>(ClockError::WentBackwards),
{
    if t_now < t_prev {
        Err(ClockError::WentBackwards)
    } else {
        Ok(t_now - t_prev)
    }
}

/// The time step that belongs to the characteristic time `t_c`: its
/// reciprocal, rounded down.
pub open spec fn reciprocal(t_c: int) -> int {
    (SCALE * SCALE) / t_c
}

/// The time step `1 / t_c` for a characteristic time `t_c`.
pub fn time_step(t_c: i64) -> (dtau: i64)
    requires
        0 < t_c,
    ensures
        dtau == reciprocal(t_c as int),
        0 <= dtau <= SCALE * SCALE,
        MIN_TIME_SCALE <= t_c ==> dtau <= STEP_LIMIT,
{
    let one: i128 = SCALE as i128;
    proof {
        lemma_div_pos_is_pos(1_000_000_000_000, t_c as int);
        lemma_div_is_ordered(1_000_000_000_000, (t_c as int) * 1_000_000_000_000, t_c as int);
        lemma_div_multiples_vanish(1_000_000_000_000, t_c as int);
        if MIN_TIME_SCALE <= t_c {
            lemma_div_is_ordered(1_000_000_000_000, (t_c as int) * 100_000_000, t_c as int);
            lemma_div_multiples_vanish(100_000_000, t_c as int);
        }
    }
    let q: i128 = floor_div(one * one, t_c as i128);
    q as i64
}

/// A flock of `n` random agents of a world of `nx` by `ny` grid units, each
/// at speed `max_velocity`.
pub fn random_flock(n: usize, max_velocity: &i64, nx: &i32, ny: &i32) -> (flock: Vec<Boid>)
    requires
        -LIMIT <= *max_velocity <= LIMIT,
        -GRID_LIMIT <= *nx <= GRID_LIMIT,
        -GRID_LIMIT <= *ny <= GRID_LIMIT,
    ensures
        flock.len() == n,
        all_in_range(states(flock@)),
        forall|i: int|
            0 <= i < n ==> is_spawn(
                (#[trigger] flock@[i])@,
                *max_velocity as int,
                *nx as int,
                *ny as int,
            ),
{
    let mut flock: Vec<Boid> = Vec::new();
    let mut i: usize = 0;
    while i < n
        invariant
            i <= n,
            flock.len() == i,
            -LIMIT <= *max_velocity <= LIMIT,
            -GRID_LIMIT <= *nx <= GRID_LIMIT,
            -GRID_LIMIT <= *ny <= GRID_LIMIT,
            forall|j: int| 0 <= j < i ==> (#[trigger] flock@[j]).wf(),
            forall|j: int|
                0 <= j < i ==> is_spawn(
                    (#[trigger] flock@[j])@,
                    *max_velocity as int,
                    *nx as int,
                    *ny as int,
                ),
        decreases n - i,
    {
        flock.push(Boid::new_random(max_velocity, nx, ny));
        i += 1;
    }
    flock
}

/// The discs that mark the agents of a flock, in flock order.
pub open spec fn plotted(universe: Universe, flock: Seq<State>) -> Seq<Disc> {
    Seq::new(flock.len(), |i: int| universe.disc_at(flock[i].position.x, flock[i].position.y))
}

/// Clears the frame and marks every agent of the flock on it.
pub fn plot(universe: &Universe, flock: &[Boid], frame: &mut Frame)
    requires
        universe.wf(),
        all_in_range(states(flock@)),
    ensures
        final(frame).discs@ == plotted(*universe, states(flock@)),
{
    universe.reset(frame);
    let mut i: usize = 0;
    while i < flock.len()
        invariant
            i <= flock.len(),
            universe.wf(),
            all_in_range(states(flock@)),
            frame.discs@ == plotted(*universe, states(flock@)).take(i as int),
        decreases flock.len() - i,
    {
        let b = &flock[i];
        assert(states(flock@)[i as int].in_range());
        universe.add_point(frame, b.position[0], b.position[1]);
        i += 1;
    }
}

/// A running simulation: the flock, its world, the fixed time step of both
/// the acceleration and the advance, and the last reading of the wall clock
/// in microseconds.
#[derive(Debug)]
pub struct Simulation {
    pub flock: Vec<Boid>,
    pub universe: Universe,
    pub dtau: i64,
    pub t_prev: u128,
}

impl Simulation {
    /// Whether the flock, the world and the time step lie within the
    /// representable range.
    pub open spec fn wf(&self) -> bool {
        &&& all_in_range(states(self.flock@))
        &&& self.universe.wf()
        &&& -STEP_LIMIT <= self.dtau <= STEP_LIMIT
    }

    /// Tests `wf` at run time.
    pub fn is_valid(&self) -> (ok: bool)
        ensures
            ok == self.wf(),
    {
        if !self.universe.is_valid() || self.dtau < -STEP_LIMIT || self.dtau > STEP_LIMIT {
            return false;
        }
        let mut i: usize = 0;
        while i < self.flock.len()
            invariant
                i <= self.flock.len(),
                forall|j: int| 0 <= j < i ==> (#[trigger] states(self.flock@)[j]).in_range(),
            decreases self.flock.len() - i,
        {
            if !self.flock[i].is_valid() {
                assert(!states(self.flock@)[i as int].in_range());
                return false;
            }
            i += 1;
        }
        true
    }

    /// One iteration of the driver loop, for the clock reading `t_now`.
    ///
    /// Where the clock went backwards nothing happens and the error comes
    /// back. Otherwise the frame is cleared and shows the flock as it stands,
    /// the flock then advances by one tick of the fixed time step, and the
    /// microseconds since the previous reading come back. The measured time
    /// does not enter the motion.
    ///
    /// The advance is not held back, so the flock may leave the representable
    /// range: test `is_valid` before the next tick.
    pub fn tick(&mut self, t_now: u128, frame: &mut Frame) -> (r: Result<u128, ClockError>)
        requires
            old(self).wf(),
        ensures
            final(self).universe == old(self).universe,
            final(self).dtau == old(self).dtau,
            t_now < old(self).t_prev ==> {
                &&& r == Err::<u128, ClockError>(ClockError::WentBackwards)
                &&& final(self).flock@ == old(self).flock@
                &&& final(self).t_prev == old(self).t_prev
                &&& final(frame).discs@ == old(frame).discs@
            },
            old(self).t_prev <= t_now ==> {
                &&& r == Ok::<u128, ClockError>((t_now - old(self).t_prev) as u128)
                &&& final(self).t_prev == t_now
                &&& final(frame).discs@ == plotted(old(self).universe, states(old(self).flock@))
                &&& states(final(self).flock@) == stepped(
                    states(old(self).flock@),
                    old(self).dtau as int,
                    old(self).dtau as int,
                    old(self).universe.nx as int,
                    old(self).universe.ny as int,
                )
            },
    {
        match elapsed_micros(self.t_prev, t_now) {
            Err(e) => Err(e),
            Ok(dt) => {
                plot(&self.universe, self.flock.as_slice(), frame);
                step(&mut self.flock, self.dtau, self.dtau, self.universe.nx, self.universe.ny);
                self.t_prev = t_now;
                Ok(dt)
            },
        }
    }
}

} // verus!
