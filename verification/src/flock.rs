//! The flock stepper: one tick of the simulation over a whole flock.
//!
//! A tick first computes the steering increment of every agent against the
//! flock as it stands, and only then moves the agents, so that no agent ever
//! steers by the new state of another.

use crate::boids::alignment;
use crate::boids::all_in_range;
use crate::boids::boundary;
use crate::boids::centroid;
use crate::boids::cohesion;
use crate::boids::get_alignment_deltav;
use crate::boids::get_average_position;
use crate::boids::get_boundary_deltav;
use crate::boids::get_cohesion_deltav;
use crate::boids::get_neighbors;
use crate::boids::get_separation_deltav;
use crate::boids::lemma_alignment_within;
use crate::boids::lemma_boundary_within;
use crate::boids::lemma_cohesion_within;
use crate::boids::lemma_separation_within;
use crate::boids::neighbors;
use crate::boids::separation;
use crate::boids::states;
use crate::boids::Boid;
use crate::boids::Movement;
use crate::boids::State;
use crate::fixed::INCREMENT_LIMIT;
use crate::fixed::LIMIT;
use crate::fixed::STEP_LIMIT;
use crate::vector::vector_of;
use crate::vector::Vector;
use vstd::prelude::*;

verus! {

/// The sum of the four rules for agent `i` of a flock whose centroid is taken
/// to be `com`, in a world of `nx` by `ny` grid units.
pub open spec fn combined(flock: Seq<State>, i: int, com: Vector, nx: int, ny: int) -> Vector {
    let b = flock[i];
    let nbrs = neighbors(flock, i);
    boundary(b, nx, ny).plus(cohesion(b, com)).plus(alignment(b, nbrs)).plus(separation(b, nbrs))
}

/// The steering increment of agent `i`: the four rules summed, with cohesion
/// towards the centroid of the flock.
pub open spec fn steering(flock: Seq<State>, i: int, nx: int, ny: int) -> Vector {
    combined(flock, i, centroid(flock), nx, ny)
}

/// The flock after one tick: every agent accelerated by `dtau` times its
/// steering increment, taken against the flock before the tick, and then
/// advanced by `dt`.
pub open spec fn stepped(flock: Seq<State>, dtau: int, dt: int, nx: int, ny: int) -> Seq<State> {
    Seq::new(
        flock.len(),
        |i: int| flock[i].accelerated(dtau, steering(flock, i, nx, ny)).advanced(dt),
    )
}

/// The flock after a sequence of ticks, each given by its pair `(dtau, dt)`.
pub open spec fn trajectory(flock: Seq<State>, ticks: Seq<(int, int)>, nx: int, ny: int) -> Seq<
    State,
>
    decreases ticks.len(),
{
    if ticks.len() == 0 {
        flock
    } else {
        let tick = ticks.last();
        stepped(trajectory(flock, ticks.drop_last(), nx, ny), tick.0, tick.1, nx, ny)
    }
}

/// The sum of the four rules for the agent at index `self_ref`, with cohesion
/// towards `(com_x, com_y)`.
pub fn get_combined_deltav(
    flock: &[Boid],
    self_ref: &usize,
    com_x: &i64,
    com_y: &i64,
    nx: &i32,
    ny: &i32,
) -> (r: (i64, i64))
    requires
        *self_ref < flock.len(),
        all_in_range(states(flock@)),
        vector_of((*com_x, *com_y)).within(LIMIT as int),
    ensures
        vector_of(r) == combined(
            states(flock@),
            *self_ref as int,
            vector_of((*com_x, *com_y)),
            *nx as int,
            *ny as int,
        ),
        vector_of(r).within(INCREMENT_LIMIT as int),
{
    let nbrs = get_neighbors(flock, self_ref);
    let b = &flock[*self_ref];
    let ghost all = states(flock@);
    let ghost me = all[*self_ref as int];
    proof {
        lemma_boundary_within(me, *nx as int, *ny as int);
        lemma_cohesion_within(me, vector_of((*com_x, *com_y)));
        lemma_alignment_within(me, states(nbrs@));
        lemma_separation_within(me, states(nbrs@));
    }
    let bdry: (i64, i64) = get_boundary_deltav(b, nx, ny);
    let com: (i64, i64) = get_cohesion_deltav(b, com_x, com_y);
    let vel: (i64, i64) = get_alignment_deltav(b, nbrs.as_slice());
    let sep: (i64, i64) = get_separation_deltav(b, nbrs.as_slice());
    (bdry.0 + com.0 + vel.0 + sep.0, bdry.1 + com.1 + vel.1 + sep.1)
}

/// The steering increment of every agent, in flock order.
pub fn get_increments(flock: &[Boid], nx: &i32, ny: &i32) -> (increments: Vec<(i64, i64)>)
    requires
        all_in_range(states(flock@)),
    ensures
        increments.len() == flock.len(),
        forall|i: int|
            0 <= i < flock.len() ==> vector_of(#[trigger] increments[i]) == steering(
                states(flock@),
                i,
                *nx as int,
                *ny as int,
            ),
        forall|i: int|
            0 <= i < flock.len() ==> vector_of(#[trigger] increments[i]).within(
                INCREMENT_LIMIT as int,
            ),
{
    let mut increments: Vec<(i64, i64)> = Vec::new();
    if flock.len() == 0 {
        return increments;
    }
    let com: (i64, i64) = get_average_position(flock);
    let mut i: usize = 0;
    while i < flock.len()
        invariant
            i <= flock.len(),
            all_in_range(states(flock@)),
            vector_of(com) == centroid(states(flock@)),
            vector_of(com).within(LIMIT as int),
            increments.len() == i,
            forall|j: int|
                0 <= j < i ==> vector_of(#[trigger] increments[j]) == steering(
                    states(flock@),
                    j,
                    *nx as int,
                    *ny as int,
                ),
            forall|j: int|
                0 <= j < i ==> vector_of(#[trigger] increments[j]).within(INCREMENT_LIMIT as int),
        decreases flock.len() - i,
    {
        let d: (i64, i64) = get_combined_deltav(flock, &i, &com.0, &com.1, nx, ny);
        increments.push(d);
        i += 1;
    }
    increments
}

/// Advances the flock by one tick: every agent is accelerated by `dtau` times
/// its steering increment and then advanced by `dt`. All increments are taken
/// against the flock as it was before the tick.
///
/// The advance is not held back, so an agent near the edge of the
/// representable range may leave it: test `Boid::is_valid` before the next
/// tick.
pub fn step(flock: &mut Vec<Boid>, dtau: i64, dt: i64, nx: i32, ny: i32)
    requires
        all_in_range(states(old(flock)@)),
        -STEP_LIMIT <= dtau <= STEP_LIMIT,
        -STEP_LIMIT <= dt <= STEP_LIMIT,
    ensures
        final(flock).len() == old(flock).len(),
        states(final(flock)@) == stepped(
            states(old(flock)@),
            dtau as int,
            dt as int,
            nx as int,
            ny as int,
        ),
{
    let ghost before = states(flock@);
    let ghost after = stepped(before, dtau as int, dt as int, nx as int, ny as int);
    let increments: Vec<(i64, i64)> = get_increments(flock.as_slice(), &nx, &ny);
    let mut i: usize = 0;
    while i < flock.len()
        invariant
            i <= flock.len(),
            flock.len() == before.len(),
            increments.len() == flock.len(),
            before == states(old(flock)@),
            after == stepped(before, dtau as int, dt as int, nx as int, ny as int),
            all_in_range(before),
            -STEP_LIMIT <= dtau <= STEP_LIMIT,
            -STEP_LIMIT <= dt <= STEP_LIMIT,
            forall|j: int|
                0 <= j < flock.len() ==> vector_of(#[trigger] increments[j]) == steering(
                    before,
                    j,
                    nx as int,
                    ny as int,
                ),
            forall|j: int|
                0 <= j < flock.len() ==> vector_of(#[trigger] increments[j]).within(
                    INCREMENT_LIMIT as int,
                ),
            forall|j: int| 0 <= j < i ==> (#[trigger] flock@[j])@ == after[j],
            forall|j: int| i <= j < flock.len() ==> (#[trigger] flock@[j])@ == before[j],
        decreases flock.len() - i,
    {
        let d: (i64, i64) = increments[i];
        let mut b: Boid = flock[i];
        b.accelerate(&dtau, &d.0, &d.1);
        b.update_position(&dt);
        flock[i] = b;
        i += 1;
    }
}

} // verus!
