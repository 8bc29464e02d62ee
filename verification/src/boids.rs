//! Agents of the flock, their kinematics and the four steering rules.

use crate::fixed::fixed_multiply;
use crate::fixed::floor_div;
use crate::fixed::INCREMENT_LIMIT;
use crate::fixed::lemma_product_bounds;
use crate::fixed::lemma_product_identities;
use crate::fixed::lemma_quotient_within;
use crate::fixed::LIMIT;
use crate::fixed::SCALE;
use crate::fixed::STEP_LIMIT;
use crate::random::next_draw;
use crate::vector::lemma_mean_within;
use crate::vector::lemma_scaled_component;
use crate::vector::lemma_sum_push;
use crate::vector::lemma_sum_within;
use crate::vector::lemma_unit_is_near_unit;
use crate::vector::mean;
use crate::vector::sum;
use crate::vector::unit_vector;
use crate::vector::Vector;
use crate::vector::vector_of;
use vstd::arithmetic::div_mod::lemma_div_multiples_vanish;
use vstd::arithmetic::div_mod::lemma_div_pos_is_pos;
use vstd::arithmetic::div_mod::lemma_fundamental_div_mod;
use vstd::prelude::*;

verus! {

/// Width of the band along each edge of the world in which the boundary rule
/// acts: 1.0.
pub const MARGIN: i64 = SCALE;

/// Gain of the boundary rule: 1.0.
pub const BOUNDARY_GAIN: i64 = SCALE;

/// Gain of the cohesion rule: 0.1.
pub const COHESION_GAIN: i64 = 100_000;

/// Gain of the alignment rule: 0.5.
pub const ALIGNMENT_GAIN: i64 = 500_000;

/// Gain of the separation rule: 1.0.
pub const SEPARATION_GAIN: i64 = SCALE;

/// Distance below which another agent is perceived: 1.0.
pub const PERCEPTION_RADIUS: i64 = SCALE;

/// Distance below which a neighbour is pushed away from: 0.5.
pub const SEPARATION_RADIUS: i64 = 500_000;

/// Largest extent of a world along one axis, in grid units, for which every
/// point of the world is representable.
pub const GRID_LIMIT: i32 = 1_000_000;

/// Radius of the half-disc from which a random heading is drawn.
pub const HEADING_RADIUS: i64 = 0x8000_0000;

/// How many points are drawn at most in search of one inside the half-disc.
pub const HEADING_ATTEMPTS: u32 = 64;

/// Lowest cruising speed that `accelerate` leaves alone: 0.8.
pub const MIN_SPEED: i64 = 800_000;

/// Highest cruising speed that `accelerate` leaves alone: 1.2.
pub const MAX_SPEED: i64 = 1_200_000;

/// The mathematical state of an agent: where it is and how it moves, in raw
/// fixed-point units.
pub struct State {
    pub position: Vector,
    pub velocity: Vector,
}

impl State {
    /// Whether every component lies within the representable range.
    pub open spec fn in_range(self) -> bool {
        self.position.within(LIMIT as int) && self.velocity.within(LIMIT as int)
    }
}

/// An agent of the flock. Positions are in grid units and velocities in grid
/// units per unit of simulated time, both as fixed-point numbers; index 0 is
/// the x component and index 1 the y component.
#[derive(Debug, Clone, Copy, PartialEq, Eq)]
pub struct Boid {
    pub position: [i64; 2],
    pub velocity: [i64; 2],
}

impl View for Boid {
    type V = State;

    open spec fn view(&self) -> State {
        State {
            position: Vector { x: self.position[0] as int, y: self.position[1] as int },
            velocity: Vector { x: self.velocity[0] as int, y: self.velocity[1] as int },
        }
    }
}

impl Boid {
    /// Whether the agent lies within the representable range. Every
    /// operation of the library expects this of the agents it is given. All
    /// keep it but `update_position`, which may carry an agent out of it.
    pub open spec fn wf(&self) -> bool {
        self@.in_range()
    }

    /// Tests `wf` at run time.
    pub fn is_valid(&self) -> (ok: bool)
        ensures
            ok == self.wf(),
    {
        -LIMIT <= self.position[0] && self.position[0] <= LIMIT && -LIMIT <= self.position[1]
            && self.position[1] <= LIMIT && -LIMIT <= self.velocity[0] && self.velocity[0] <= LIMIT
            && -LIMIT <= self.velocity[1] && self.velocity[1] <= LIMIT
    }
}

/// The states of a sequence of agents, or of references to agents.
pub open spec fn states<B: View<V = State>>(flock: Seq<B>) -> Seq<State> {
    flock.map_values(|b: B| b@)
}

/// Whether every agent of a sequence lies within the representable range.
pub open spec fn all_in_range(flock: Seq<State>) -> bool {
    forall|i: int| 0 <= i < flock.len() ==> (#[trigger] flock[i]).in_range()
}

/// The boundary correction along one axis: the signed distance back to the
/// inner edge of the margin band, zero between the two bands.
pub open spec fn boundary_axis(p: int, extent: int) -> int {
    let far = extent * SCALE - MARGIN;
    if p > far {
        far - p
    } else if p < MARGIN {
        MARGIN - p
    } else {
        0
    }
}

/// The boundary rule: pulls an agent that has entered the margin band of a
/// world of `nx` by `ny` grid units back to the inner edge of the band.
pub open spec fn boundary(b: State, nx: int, ny: int) -> Vector {
    (Vector { x: boundary_axis(b.position.x, nx), y: boundary_axis(b.position.y, ny) }).scaled(
        BOUNDARY_GAIN as int,
    )
}

/// The cohesion rule: pulls an agent towards the centroid `com` of the flock.
pub open spec fn cohesion(b: State, com: Vector) -> Vector {
    com.minus(b.position).scaled(COHESION_GAIN as int)
}

/// Inside the safe region the boundary rule is silent.
pub proof fn lemma_boundary_zero_inside(b: State, nx: int, ny: int)
    requires
        MARGIN <= b.position.x <= nx * SCALE - MARGIN,
        MARGIN <= b.position.y <= ny * SCALE - MARGIN,
    ensures
        boundary(b, nx, ny) == Vector::zero(),
{
    lemma_product_identities(0);
}

/// With a gain of 1.0 the boundary increment is the correction along each
/// axis itself, and it stays well within what `accelerate` accepts.
pub proof fn lemma_boundary_within(b: State, nx: int, ny: int)
    requires
        b.position.within(LIMIT as int),
        i32::MIN <= nx <= i32::MAX,
        i32::MIN <= ny <= i32::MAX,
    ensures
        boundary(b, nx, ny) == (Vector {
            x: boundary_axis(b.position.x, nx),
            y: boundary_axis(b.position.y, ny),
        }),
        boundary(b, nx, ny).within(3_000_000_000_000_000),
{
    lemma_product_identities(boundary_axis(b.position.x, nx));
    lemma_product_identities(boundary_axis(b.position.y, ny));
}

/// The boundary increment of an agent in a world of `nx` by `ny` grid units.
pub fn get_boundary_deltav(boid: &Boid, nx: &i32, ny: &i32) -> (r: (i64, i64))
    requires
        boid.wf(),
    ensures
        vector_of(r) == boundary(boid@, *nx as int, *ny as int),
{
    let coeff: i64 = BOUNDARY_GAIN;
    let margin: i64 = MARGIN;
    let dx: i64;
    let dy: i64;

    let max_x: i64 = (*nx as i64) * SCALE;
    let max_y: i64 = (*ny as i64) * SCALE;

    // along x
    if boid.position[0] > max_x - margin {
        dx = max_x - margin - boid.position[0];
    } else if boid.position[0] < margin {
        dx = margin - boid.position[0];
    } else {
        dx = 0;
    }

    // along y
    if boid.position[1] > max_y - margin {
        dy = max_y - margin - boid.position[1];
    } else if boid.position[1] < margin {
        dy = margin - boid.position[1];
    } else {
        dy = 0;
    }

    proof {
        lemma_boundary_within(boid@, *nx as int, *ny as int);
        lemma_product_identities(dx as int);
        lemma_product_identities(dy as int);
    }
    (fixed_multiply(coeff, dx), fixed_multiply(coeff, dy))
}

/// The cohesion increment is at most a tenth of the distance across the
/// representable range.
pub proof fn lemma_cohesion_within(b: State, com: Vector)
    requires
        b.position.within(LIMIT as int),
        com.within(LIMIT as int),
    ensures
        cohesion(b, com).within(200_000_000_000),
{
    let d = com.minus(b.position);
    lemma_product_bounds(COHESION_GAIN as int, d.x, 100_000, 2_000_000_000_000);
    lemma_product_bounds(COHESION_GAIN as int, d.y, 100_000, 2_000_000_000_000);
}

/// The cohesion increment of an agent in a flock with centroid
/// `(com_x, com_y)`.
pub fn get_cohesion_deltav(boid: &Boid, com_x: &i64, com_y: &i64) -> (r: (i64, i64))
    requires
        boid.wf(),
        vector_of((*com_x, *com_y)).within(LIMIT as int),
    ensures
        vector_of(r) == cohesion(boid@, vector_of((*com_x, *com_y))),
{
    let coeff: i64 = COHESION_GAIN;
    let dx: i64 = *com_x - boid.position[0];
    let dy: i64 = *com_y - boid.position[1];
    proof {
        lemma_cohesion_within(boid@, vector_of((*com_x, *com_y)));
    }
    (fixed_multiply(coeff, dx), fixed_multiply(coeff, dy))
}

/// The positions of a sequence of agents.
pub open spec fn positions(flock: Seq<State>) -> Seq<Vector> {
    flock.map_values(|b: State| b.position)
}

/// The velocities of a sequence of agents.
pub open spec fn velocities(flock: Seq<State>) -> Seq<Vector> {
    flock.map_values(|b: State| b.velocity)
}

/// The centroid of a flock: the mean of its positions. Meaningful for a
/// non-empty flock.
pub open spec fn centroid(flock: Seq<State>) -> Vector {
    mean(positions(flock))
}

/// Whether `me` perceives `other`: the two are less than the perception
/// radius apart, and the offset to `other` has a positive scalar product with
/// the position vector of `me`.
pub open spec fn perceives(me: State, other: State) -> bool {
    let offset = other.position.minus(me.position);
    offset.norm_sq() < PERCEPTION_RADIUS * PERCEPTION_RADIUS && offset.dot(me.position) > 0
}

/// Whether `other` is close enough to `me` to be pushed away from.
pub open spec fn crowds(me: State, other: State) -> bool {
    other.position.minus(me.position).norm_sq() < SEPARATION_RADIUS * SEPARATION_RADIUS
}

/// `perceives` as a predicate on the other agent.
pub open spec fn perceived_by(me: State) -> spec_fn(State) -> bool {
    |other: State| perceives(me, other)
}

/// `crowds` as a predicate on the other agent.
pub open spec fn crowding(me: State) -> spec_fn(State) -> bool {
    |other: State| crowds(me, other)
}

/// The neighbours of agent `i`: the other agents of the flock that it
/// perceives, in flock order.
pub open spec fn neighbors(flock: Seq<State>, i: int) -> Seq<State> {
    flock.remove(i).filter(perceived_by(flock[i]))
}

/// The alignment rule: steers an agent towards the mean velocity of its
/// neighbours.
pub open spec fn alignment(b: State, nbrs: Seq<State>) -> Vector {
    if nbrs.len() == 0 {
        Vector::zero()
    } else {
        mean(velocities(nbrs)).minus(b.velocity).scaled(ALIGNMENT_GAIN as int)
    }
}

/// The separation rule: pushes an agent away from the mean position of the
/// neighbours that crowd it.
pub open spec fn separation(b: State, nbrs: Seq<State>) -> Vector {
    let close = nbrs.filter(crowding(b));
    if close.len() == 0 {
        Vector::zero()
    } else {
        b.position.minus(mean(positions(close))).scaled(SEPARATION_GAIN as int)
    }
}

/// The other agents among the first `k` of the flock.
spec fn others_before(flock: Seq<State>, i: int, k: int) -> Seq<State> {
    if k <= i {
        flock.take(k)
    } else {
        flock.take(k).remove(i)
    }
}

/// Going one agent further either skips agent `i` itself or meets one more of
/// the others.
proof fn lemma_others_before_next(flock: Seq<State>, i: int, k: int)
    requires
        0 <= i < flock.len(),
        0 <= k < flock.len(),
    ensures
        k == i ==> others_before(flock, i, k + 1) == others_before(flock, i, k),
        k != i ==> others_before(flock, i, k + 1) == others_before(flock, i, k).push(flock[k]),
        others_before(flock, i, flock.len() as int) == flock.remove(i),
        others_before(flock, i, 0) == Seq::<State>::empty(),
{
}

/// The square of a coordinate difference of two agents in range.
proof fn lemma_offset_square(d: int)
    requires
        -2 * LIMIT <= d <= 2 * LIMIT,
    ensures
        0 <= d * d <= 4_000_000_000_000_000_000_000_000,
{
    assert(0 <= d * d <= 4_000_000_000_000_000_000_000_000) by (nonlinear_arith)
        requires
            -2_000_000_000_000 <= d <= 2_000_000_000_000,
    ;
}

/// Tests `perceives` at run time.
pub fn can_perceive(me: &Boid, other: &Boid) -> (seen: bool)
    requires
        me.wf(),
        other.wf(),
    ensures
        seen == perceives(me@, other@),
{
    let dx: i128 = (other.position[0] - me.position[0]) as i128;
    let dy: i128 = (other.position[1] - me.position[1]) as i128;
    let px: i128 = me.position[0] as i128;
    let py: i128 = me.position[1] as i128;
    proof {
        lemma_offset_square(dx as int);
        lemma_offset_square(dy as int);
        assert(-2_000_000_000_000_000_000_000_000 <= dx * px <= 2_000_000_000_000_000_000_000_000)
            by (nonlinear_arith)
            requires
                -2_000_000_000_000 <= dx <= 2_000_000_000_000,
                -1_000_000_000_000 <= px <= 1_000_000_000_000,
        ;
        assert(-2_000_000_000_000_000_000_000_000 <= dy * py <= 2_000_000_000_000_000_000_000_000)
            by (nonlinear_arith)
            requires
                -2_000_000_000_000 <= dy <= 2_000_000_000_000,
                -1_000_000_000_000 <= py <= 1_000_000_000_000,
        ;
    }
    let dist_sq: i128 = dx * dx + dy * dy;
    let in_perception: i128 = dx * px + dy * py;
    let radius: i128 = PERCEPTION_RADIUS as i128;
    dist_sq < radius * radius && in_perception > 0
}

/// Tests `crowds` at run time.
pub fn is_crowding(me: &Boid, other: &Boid) -> (close: bool)
    requires
        me.wf(),
        other.wf(),
    ensures
        close == crowds(me@, other@),
{
    let dx: i128 = (other.position[0] - me.position[0]) as i128;
    let dy: i128 = (other.position[1] - me.position[1]) as i128;
    proof {
        lemma_offset_square(dx as int);
        lemma_offset_square(dy as int);
    }
    let dist_sq: i128 = dx * dx + dy * dy;
    let radius: i128 = SEPARATION_RADIUS as i128;
    dist_sq < radius * radius
}

/// The neighbours of the agent at index `self_ref`, in flock order.
pub fn get_neighbors<'a>(flock: &'a [Boid], self_ref: &usize) -> (nbrs: Vec<&'a Boid>)
    requires
        *self_ref < flock.len(),
        all_in_range(states(flock@)),
    ensures
        states(nbrs@) == neighbors(states(flock@), *self_ref as int),
        all_in_range(states(nbrs@)),
{
    let mut nbrs: Vec<&Boid> = Vec::new();
    let b = &flock[*self_ref];
    let ghost all = states(flock@);
    let ghost me = all[*self_ref as int];
    let mut k: usize = 0;
    proof {
        lemma_others_before_next(all, *self_ref as int, 0);
        assert(Seq::<State>::empty().filter(perceived_by(me)) =~= Seq::<State>::empty()) by {
            reveal(Seq::filter);
        }
    }
    while k < flock.len()
        invariant
            k <= flock.len(),
            *self_ref < flock.len(),
            all == states(flock@),
            all_in_range(all),
            me == all[*self_ref as int],
            me == b@,
            b.wf(),
            states(nbrs@) == others_before(all, *self_ref as int, k as int).filter(
                perceived_by(me),
            ),
            all_in_range(states(nbrs@)),
        decreases flock.len() - k,
    {
        proof {
            lemma_others_before_next(all, *self_ref as int, k as int);
        }
        if k != *self_ref {
            let bo = &flock[k];
            let ghost before = states(nbrs@);
            proof {
                others_before(all, *self_ref as int, k as int).lemma_filter_push(
                    all[k as int],
                    perceived_by(me),
                );
            }
            if can_perceive(b, bo) {
                nbrs.push(bo);
                assert(states(nbrs@) =~= before.push(bo@));
            }
        }
        k += 1;
    }
    nbrs
}

/// Divides component totals of `count` vectors in range by their number.
fn mean_of_totals(total_x: i128, total_y: i128, count: usize) -> (m: (i64, i64))
    requires
        0 < count,
        -(count * LIMIT) <= total_x <= count * LIMIT,
        -(count * LIMIT) <= total_y <= count * LIMIT,
    ensures
        m.0 == (total_x as int) / (count as int),
        m.1 == (total_y as int) / (count as int),
        vector_of(m).within(LIMIT as int),
{
    proof {
        assert(0 <= count * LIMIT <= 0x1_0000_0000_0000_0000 * 1_000_000_000_000)
            by (nonlinear_arith)
            requires
                0 <= count <= 0x1_0000_0000_0000_0000,
        ;
        lemma_quotient_within(total_x as int, count as int, LIMIT as int);
        lemma_quotient_within(total_y as int, count as int, LIMIT as int);
    }
    let mx: i128 = floor_div(total_x, count as i128);
    let my: i128 = floor_div(total_y, count as i128);
    (mx as i64, my as i64)
}

/// Adding one more vector in range to a running total of `k` such vectors.
proof fn lemma_total_step(v: Seq<Vector>, last: Vector)
    requires
        forall|i: int| 0 <= i < v.len() ==> (#[trigger] v[i]).within(LIMIT as int),
        last.within(LIMIT as int),
        v.len() < 0x1_0000_0000_0000_0000,
    ensures
        sum(v.push(last)) == sum(v).plus(last),
        sum(v).within(v.len() * LIMIT),
        sum(v.push(last)).within((v.len() + 1) * LIMIT),
        0 <= v.len() * LIMIT <= 0x1_0000_0000_0000_0000 * 1_000_000_000_000,
        (v.len() + 1) * LIMIT == v.len() * LIMIT + LIMIT,
{
    lemma_sum_push(v, last);
    lemma_sum_within(v, LIMIT as int);
    let n = v.len() as int;
    assert(0 <= n * LIMIT <= 0x1_0000_0000_0000_0000 * 1_000_000_000_000 && (n + 1) * LIMIT == n
        * LIMIT + LIMIT) by (nonlinear_arith)
        requires
            0 <= n <= 0x1_0000_0000_0000_0000,
    ;
}

/// The centroid of a non-empty flock.
pub fn get_average_position(flock: &[Boid]) -> (com: (i64, i64))
    requires
        0 < flock.len(),
        all_in_range(states(flock@)),
    ensures
        vector_of(com) == centroid(states(flock@)),
        vector_of(com).within(LIMIT as int),
{
    let mut avg_x: i128 = 0;
    let mut avg_y: i128 = 0;
    let ghost all = positions(states(flock@));
    let mut k: usize = 0;
    while k < flock.len()
        invariant
            k <= flock.len(),
            all == positions(states(flock@)),
            all_in_range(states(flock@)),
            avg_x == sum(all.take(k as int)).x,
            avg_y == sum(all.take(k as int)).y,
        decreases flock.len() - k,
    {
        let b = &flock[k];
        proof {
            let done = all.take(k as int);
            lemma_total_step(done, all[k as int]);
            assert(all.take(k + 1) =~= done.push(all[k as int]));
        }
        avg_x += b.position[0] as i128;
        avg_y += b.position[1] as i128;
        k += 1;
    }
    proof {
        assert(all.take(k as int) =~= all);
        lemma_sum_within(all, LIMIT as int);
        lemma_mean_within(all, LIMIT as int);
    }
    mean_of_totals(avg_x, avg_y, flock.len())
}

/// The alignment increment is no larger than the largest representable
/// speed, and the mean velocity of neighbours in range is in range.
pub proof fn lemma_alignment_within(b: State, nbrs: Seq<State>)
    requires
        b.in_range(),
        all_in_range(nbrs),
    ensures
        alignment(b, nbrs).within(LIMIT as int),
        0 < nbrs.len() ==> mean(velocities(nbrs)).within(LIMIT as int),
{
    if nbrs.len() > 0 {
        let v = velocities(nbrs);
        lemma_mean_within(v, LIMIT as int);
        let d = mean(v).minus(b.velocity);
        lemma_product_bounds(ALIGNMENT_GAIN as int, d.x, 500_000, 2_000_000_000_000);
        lemma_product_bounds(ALIGNMENT_GAIN as int, d.y, 500_000, 2_000_000_000_000);
    }
}

/// The alignment increment of an agent with the given neighbours.
pub fn get_alignment_deltav(boid: &Boid, nbrs: &[&Boid]) -> (r: (i64, i64))
    requires
        boid.wf(),
        all_in_range(states(nbrs@)),
    ensures
        vector_of(r) == alignment(boid@, states(nbrs@)),
{
    let coeff: i64 = ALIGNMENT_GAIN;
    let mut avg_x: i128 = 0;
    let mut avg_y: i128 = 0;
    let ghost all = velocities(states(nbrs@));
    let mut k: usize = 0;
    while k < nbrs.len()
        invariant
            k <= nbrs.len(),
            all == velocities(states(nbrs@)),
            all_in_range(states(nbrs@)),
            avg_x == sum(all.take(k as int)).x,
            avg_y == sum(all.take(k as int)).y,
        decreases nbrs.len() - k,
    {
        let b = nbrs[k];
        proof {
            let done = all.take(k as int);
            lemma_total_step(done, all[k as int]);
            assert(all.take(k + 1) =~= done.push(all[k as int]));
        }
        avg_x += b.velocity[0] as i128;
        avg_y += b.velocity[1] as i128;
        k += 1;
    }
    let n: usize = nbrs.len();
    if n > 0 {
        proof {
            assert(all.take(k as int) =~= all);
            lemma_sum_within(all, LIMIT as int);
            lemma_alignment_within(boid@, states(nbrs@));
        }
        let avg: (i64, i64) = mean_of_totals(avg_x, avg_y, n);
        let dx: i64 = avg.0 - boid.velocity[0];
        let dy: i64 = avg.1 - boid.velocity[1];
        (fixed_multiply(coeff, dx), fixed_multiply(coeff, dy))
    } else {
        proof {
            lemma_product_identities(0);
        }
        (fixed_multiply(coeff, 0), fixed_multiply(coeff, 0))
    }
}

/// The separation increment is at most the distance across the
/// representable range; with a gain of 1.0 it is the offset from the mean
/// position of the crowding neighbours itself.
pub proof fn lemma_separation_within(b: State, nbrs: Seq<State>)
    requires
        b.in_range(),
        all_in_range(nbrs),
    ensures
        separation(b, nbrs).within(2 * LIMIT),
        all_in_range(nbrs.filter(crowding(b))),
        0 < nbrs.filter(crowding(b)).len() ==> {
            let m = mean(positions(nbrs.filter(crowding(b))));
            &&& m.within(LIMIT as int)
            &&& separation(b, nbrs) == b.position.minus(m)
        },
{
    let close = nbrs.filter(crowding(b));
    assert forall|i: int| 0 <= i < close.len() implies (#[trigger] close[i]).in_range() by {
        nbrs.lemma_filter_contains_rev(crowding(b), close[i]);
    }
    if close.len() > 0 {
        let p = positions(close);
        lemma_mean_within(p, LIMIT as int);
        let d = b.position.minus(mean(p));
        lemma_product_identities(d.x);
        lemma_product_identities(d.y);
    }
}

/// The separation increment of an agent with the given neighbours.
pub fn get_separation_deltav(boid: &Boid, nbrs: &[&Boid]) -> (r: (i64, i64))
    requires
        boid.wf(),
        all_in_range(states(nbrs@)),
    ensures
        vector_of(r) == separation(boid@, states(nbrs@)),
{
    let coeff: i64 = SEPARATION_GAIN;
    let mut avg_x: i128 = 0;
    let mut avg_y: i128 = 0;
    let mut n: usize = 0;
    let ghost all = states(nbrs@);
    let ghost me = boid@;
    let mut k: usize = 0;
    proof {
        assert(Seq::<State>::empty().filter(crowding(me)) =~= Seq::<State>::empty()) by {
            reveal(Seq::filter);
        }
    }
    while k < nbrs.len()
        invariant
            k <= nbrs.len(),
            all == states(nbrs@),
            all_in_range(all),
            me == boid@,
            boid.wf(),
            n == all.take(k as int).filter(crowding(me)).len(),
            n <= k,
            all_in_range(all.take(k as int).filter(crowding(me))),
            avg_x == sum(positions(all.take(k as int).filter(crowding(me)))).x,
            avg_y == sum(positions(all.take(k as int).filter(crowding(me)))).y,
        decreases nbrs.len() - k,
    {
        let b = nbrs[k];
        let ghost close = all.take(k as int).filter(crowding(me));
        proof {
            assert(all.take(k + 1) =~= all.take(k as int).push(all[k as int]));
            all.take(k as int).lemma_filter_push(all[k as int], crowding(me));
        }
        if is_crowding(boid, b) {
            proof {
                let p = positions(close);
                lemma_total_step(p, b@.position);
                assert(positions(close.push(b@)) =~= p.push(b@.position));
            }
            avg_x += b.position[0] as i128;
            avg_y += b.position[1] as i128;
            n += 1;
        }
        k += 1;
    }
    proof {
        assert(all.take(k as int) =~= all);
        lemma_separation_within(me, all);
    }
    if n > 0 {
        proof {
            let p = positions(all.filter(crowding(me)));
            lemma_sum_within(p, LIMIT as int);
        }
        let avg: (i64, i64) = mean_of_totals(avg_x, avg_y, n);
        let dx: i64 = boid.position[0] - avg.0;
        let dy: i64 = boid.position[1] - avg.1;
        proof {
            lemma_product_identities(dx as int);
            lemma_product_identities(dy as int);
        }
        (fixed_multiply(coeff, dx), fixed_multiply(coeff, dy))
    } else {
        proof {
            lemma_product_identities(0);
        }
        (fixed_multiply(coeff, 0), fixed_multiply(coeff, 0))
    }
}

/// Whether a velocity has a cruising speed: one within `[MIN_SPEED, MAX_SPEED]`.
pub open spec fn cruises(v: Vector) -> bool {
    MIN_SPEED * MIN_SPEED <= v.norm_sq() <= MAX_SPEED * MAX_SPEED
}

/// The speed clamp: a velocity that is zero or has a cruising speed is kept;
/// any other is replaced by the unit vector of its direction.
pub open spec fn clamp_speed(v: Vector) -> Vector {
    if v == Vector::zero() || cruises(v) {
        v
    } else {
        v.unit()
    }
}

impl State {
    /// The state after the velocity has taken up `dtau` times the increment
    /// `a` and has been clamped. The position is unchanged.
    pub open spec fn accelerated(self, dtau: int, a: Vector) -> State {
        State {
            position: self.position,
            velocity: clamp_speed(self.velocity.plus(a.scaled(dtau))),
        }
    }

    /// The state after the position has moved by `dt` times the velocity.
    /// Nothing holds the position back: it may leave the world, and it may
    /// leave the representable range. The velocity is unchanged.
    pub open spec fn advanced(self, dt: int) -> State {
        State { position: self.position.plus(self.velocity.scaled(dt)), velocity: self.velocity }
    }
}

/// After the speed clamp a velocity is zero or cruises. It is zero only if it
/// was zero before, and where the clamp changed it, its speed is within one
/// raw unit of 1.0.
pub proof fn lemma_clamped_speed(v: Vector)
    ensures
        clamp_speed(v) == Vector::zero() || cruises(clamp_speed(v)),
        clamp_speed(v) == Vector::zero() <==> v == Vector::zero(),
        v != Vector::zero() && !cruises(v) ==> clamp_speed(v).is_near_unit(),
        cruises(v) ==> clamp_speed(v) == v,
        clamp_speed(v).within(MAX_SPEED as int),
{
    let c = clamp_speed(v);
    if v != Vector::zero() && !cruises(v) {
        lemma_unit_is_near_unit(v);
    }
    if cruises(c) {
        assert(-1_200_000 <= c.x <= 1_200_000 && -1_200_000 <= c.y <= 1_200_000)
            by (nonlinear_arith)
            requires
                c.x * c.x + c.y * c.y <= 1_200_000 * 1_200_000,
        ;
        assert(c.x != 0 || c.y != 0) by (nonlinear_arith)
            requires
                800_000 * 800_000 <= c.x * c.x + c.y * c.y,
        ;
    }
}

/// What moves: anything with a kinematic state that can take up a steering
/// increment and advance along its velocity.
pub trait Movement {
    /// The kinematic state.
    spec fn state(&self) -> State;

    /// Adds `dt` times the increment `(dx, dy)` to the velocity, then clamps
    /// the speed.
    fn accelerate(&mut self, dt: &i64, dx: &i64, dy: &i64)
        requires
            old(self).state().in_range(),
            -STEP_LIMIT <= *dt <= STEP_LIMIT,
            vector_of((*dx, *dy)).within(INCREMENT_LIMIT as int),
        ensures
            final(self).state() == old(self).state().accelerated(
                *dt as int,
                vector_of((*dx, *dy)),
            ),
            final(self).state().in_range(),
    ;

    /// Adds `dt` times the velocity to the position. The new position is
    /// the plain sum: it is not held to the world, and it may lie outside the
    /// representable range, which the next operation on it asks for.
    fn update_position(&mut self, dt: &i64)
        requires
            old(self).state().in_range(),
            -STEP_LIMIT <= *dt <= STEP_LIMIT,
        ensures
            final(self).state() == old(self).state().advanced(*dt as int),
    ;
}

impl Movement for Boid {
    open spec fn state(&self) -> State {
        self@
    }

    fn accelerate(&mut self, dt: &i64, vx: &i64, vy: &i64) {
        proof {
            lemma_product_bounds(
                *dt as int,
                *vx as int,
                STEP_LIMIT as int,
                INCREMENT_LIMIT as int,
            );
            lemma_product_bounds(
                *dt as int,
                *vy as int,
                STEP_LIMIT as int,
                INCREMENT_LIMIT as int,
            );
        }
        let x: i64 = self.velocity[0] + fixed_multiply(*dt, *vx);
        let y: i64 = self.velocity[1] + fixed_multiply(*dt, *vy);
        let ghost raised = vector_of((x, y));
        proof {
            lemma_clamped_speed(raised);
        }
        let xw: i128 = x as i128;
        let yw: i128 = y as i128;
        assert(0 <= xw * xw <= 2_000_000_000_000_000_000 * 2_000_000_000_000_000_000)
            by (nonlinear_arith)
            requires
                -2_000_000_000_000_000_000 <= xw <= 2_000_000_000_000_000_000,
        ;
        assert(0 <= yw * yw <= 2_000_000_000_000_000_000 * 2_000_000_000_000_000_000)
            by (nonlinear_arith)
            requires
                -2_000_000_000_000_000_000 <= yw <= 2_000_000_000_000_000_000,
        ;
        let speed_sq: i128 = xw * xw + yw * yw;
        let slowest: i128 = MIN_SPEED as i128;
        let fastest: i128 = MAX_SPEED as i128;
        let low: i128 = slowest * slowest;
        let high: i128 = fastest * fastest;
        if (x != 0 || y != 0) && (speed_sq > high || speed_sq < low) {
            let u: (i64, i64) = unit_vector(x, y);
            self.velocity[0] = u.0;
            self.velocity[1] = u.1;
        } else {
            self.velocity[0] = x;
            self.velocity[1] = y;
        }
    }

    fn update_position(&mut self, dt: &i64) {
        proof {
            lemma_product_bounds(
                *dt as int,
                self.velocity[0] as int,
                STEP_LIMIT as int,
                LIMIT as int,
            );
            lemma_product_bounds(
                *dt as int,
                self.velocity[1] as int,
                STEP_LIMIT as int,
                LIMIT as int,
            );
        }
        let x: i64 = self.position[0] + fixed_multiply(*dt, self.velocity[0]);
        let y: i64 = self.position[1] + fixed_multiply(*dt, self.velocity[1]);
        self.position[0] = x;
        self.position[1] = y;
    }
}

/// The point of `[0, extent)` that the 32 random bits `u` pick: the fraction
/// `u / 2^32` of the extent, rounded down.
pub open spec fn placed(u: int, extent: int) -> int {
    (u * extent) / 0x1_0000_0000
}

/// The point of the upper half-plane that two draws of 32 random bits pick:
/// uniform over a square that holds the half-disc of `HEADING_RADIUS`.
pub open spec fn candidate(u: int, w: int) -> Vector {
    Vector { x: u - HEADING_RADIUS, y: w / 2 }
}

/// Whether a point may serve as a heading: it lies in the upper half-disc of
/// `HEADING_RADIUS`, at an angle of at least zero and less than a half-turn
/// from the x axis. Points drawn uniformly from the half-disc are uniform in
/// that angle.
pub open spec fn is_heading(h: Vector) -> bool {
    &&& 0 < h.y || (h.y == 0 && 0 < h.x)
    &&& h.norm_sq() <= HEADING_RADIUS * HEADING_RADIUS
}

/// The agent that the draws `ux` and `uy` place in a world of `nx` by `ny`
/// grid units and that the heading `h` sends off at speed `max_velocity`.
pub open spec fn spawned(max_velocity: int, nx: int, ny: int, ux: int, uy: int, h: Vector) -> State {
    State {
        position: Vector { x: placed(ux, nx * SCALE), y: placed(uy, ny * SCALE) },
        velocity: h.unit().scaled(max_velocity),
    }
}

/// Whether an agent is one that `new_random` may hand out for the given
/// speed and world: some draw of random bits places it and sends it off.
pub open spec fn is_spawn(b: State, max_velocity: int, nx: int, ny: int) -> bool {
    exists|ux: u32, uy: u32, h: Vector|
        is_heading(h) && b == #[trigger] spawned(max_velocity, nx, ny, ux as int, uy as int, h)
}

/// A placed point lies between the origin and the extent.
pub proof fn lemma_placed_within(u: int, extent: int)
    requires
        0 <= u < 0x1_0000_0000,
    ensures
        0 <= extent ==> 0 <= placed(u, extent) <= extent,
        0 < extent ==> placed(u, extent) < extent,
        extent <= 0 ==> extent <= placed(u, extent) <= 0,
{
    let q = placed(u, extent);
    let r = (u * extent) % 0x1_0000_0000;
    lemma_fundamental_div_mod(u * extent, 0x1_0000_0000);
    assert((0 <= extent ==> 0 <= u * extent <= 0xffff_ffff * extent) && (extent <= 0 ==> 0xffff_ffff
        * extent <= u * extent <= 0)) by (nonlinear_arith)
        requires
            0 <= u <= 0xffff_ffff,
    ;
}

/// Whether the velocity `v` has the speed `speed` up to rounding: the squared
/// length differs from the squared speed by no more than three parts in a
/// million of it, and four raw units of speed, and two.
pub open spec fn has_speed(v: Vector, speed: int) -> bool {
    let slack = 3 * (speed * speed) + 4 * SCALE * (if speed >= 0 {
        speed
    } else {
        -speed
    }) + 2 * SCALE;
    -slack <= SCALE * (v.norm_sq() - speed * speed) <= slack
}

/// A velocity of speed `max_velocity` along a heading has that speed up to
/// rounding and components no larger than it, points into the upper
/// half-plane where the speed is not negative, and at speed 1.0 is the unit
/// vector itself.
pub proof fn lemma_spawned_velocity(max_velocity: int, h: Vector)
    requires
        h != Vector::zero(),
    ensures
        h.unit().is_near_unit(),
        has_speed(h.unit().scaled(max_velocity), max_velocity),
        max_velocity >= 0 ==> h.unit().scaled(max_velocity).within(max_velocity),
        max_velocity <= 0 ==> h.unit().scaled(max_velocity).within(-max_velocity),
        max_velocity >= 0 && h.y >= 0 ==> h.unit().scaled(max_velocity).y >= 0,
        max_velocity == SCALE ==> h.unit().scaled(max_velocity) == h.unit(),
{
    let u = h.unit();
    let v = u.scaled(max_velocity);
    lemma_unit_is_near_unit(h);
    let m = if max_velocity >= 0 {
        max_velocity
    } else {
        -max_velocity
    };
    lemma_product_bounds(max_velocity, u.x, m, SCALE as int);
    lemma_product_bounds(max_velocity, u.y, m, SCALE as int);
    lemma_div_multiples_vanish(m, SCALE as int);
    lemma_div_multiples_vanish(-m, SCALE as int);
    assert(m * SCALE == SCALE * m && -(m * SCALE) == SCALE * (-m)) by (nonlinear_arith);
    if max_velocity >= 0 && h.y >= 0 {
        assert(max_velocity * u.y >= 0) by (nonlinear_arith)
            requires
                max_velocity >= 0,
                u.y >= 0,
        ;
        lemma_div_pos_is_pos(max_velocity * u.y, SCALE as int);
    }
    lemma_product_identities(u.x);
    lemma_product_identities(u.y);
    assert(-(m * 1_000_000) <= max_velocity * u.x <= m * 1_000_000 && -(m * 1_000_000)
        <= max_velocity * u.y <= m * 1_000_000) by (nonlinear_arith)
        requires
            -m <= max_velocity <= m,
            -1_000_000 <= u.x <= 1_000_000,
            -1_000_000 <= u.y <= 1_000_000,
    ;
    lemma_scaled_component(max_velocity, u.x, m * 1_000_000);
    lemma_scaled_component(max_velocity, u.y, m * 1_000_000);
    let mm = max_velocity * max_velocity;
    let un = u.x * u.x + u.y * u.y;
    let vn = v.x * v.x + v.y * v.y;
    assert(0 <= mm) by (nonlinear_arith)
        requires
            mm == max_velocity * max_velocity,
    ;
    assert(mm * un == mm * (u.x * u.x) + mm * (u.y * u.y)) by (nonlinear_arith)
        requires
            un == u.x * u.x + u.y * u.y,
    ;
    assert(mm * 1_000_000_000_000 - mm * 3_000_000 <= mm * un <= mm * 1_000_000_000_000 + mm
        * 3_000_000) by (nonlinear_arith)
        requires
            0 <= mm,
            999_999 * 999_999 <= un <= 1_000_001 * 1_000_001,
    ;
    let gap = vn - mm;
    let slack = 3 * mm + 4 * 1_000_000 * m + 2 * 1_000_000;
    assert(4 * SCALE * m == 4 * 1_000_000 * m) by (nonlinear_arith);
    assert(SCALE * gap == 1_000_000 * gap) by (nonlinear_arith);
}

/// Whatever the draws, a random agent lies inside its grid, has the speed
/// asked for up to rounding, and heads into the upper half-plane.
pub proof fn lemma_spawn(b: State, max_velocity: int, nx: int, ny: int)
    requires
        is_spawn(b, max_velocity, nx, ny),
    ensures
        0 < nx ==> 0 <= b.position.x < nx * SCALE,
        0 < ny ==> 0 <= b.position.y < ny * SCALE,
        nx <= 0 ==> nx * SCALE <= b.position.x <= 0,
        ny <= 0 ==> ny * SCALE <= b.position.y <= 0,
        has_speed(b.velocity, max_velocity),
        0 <= max_velocity ==> b.velocity.within(max_velocity) && 0 <= b.velocity.y,
        max_velocity <= 0 ==> b.velocity.within(-max_velocity),
        max_velocity == SCALE ==> b.velocity.is_near_unit(),
{
    let (ux, uy, h): (u32, u32, Vector) = choose|ux: u32, uy: u32, h: Vector|
        is_heading(h) && b == #[trigger] spawned(max_velocity, nx, ny, ux as int, uy as int, h);
    lemma_placed_within(ux as int, nx * SCALE);
    lemma_placed_within(uy as int, ny * SCALE);
    lemma_spawned_velocity(max_velocity, h);
}

/// The point of `[0, extent)` that the 32 random bits `u` pick.
fn place(u: u32, extent: i64) -> (p: i64)
    requires
        -LIMIT <= extent <= LIMIT,
    ensures
        p == placed(u as int, extent as int),
        -LIMIT <= p <= LIMIT,
{
    proof {
        lemma_placed_within(u as int, extent as int);
    }
    let wide: i128 = (u as i128) * (extent as i128);
    let q: i128 = floor_div(wide, 0x1_0000_0000);
    q as i64
}

/// The heading that two draws of 32 random bits pick, if their point is one.
pub fn heading_of(u: u32, w: u32) -> (h: Option<(i64, i64)>)
    ensures
        h is Some <==> is_heading(candidate(u as int, w as int)),
        h matches Some(p) ==> vector_of(p) == candidate(u as int, w as int),
{
    let x: i64 = (u as i64) - HEADING_RADIUS;
    let y: i64 = (w / 2) as i64;
    let xw: i128 = x as i128;
    let yw: i128 = y as i128;
    let radius: i128 = HEADING_RADIUS as i128;
    assert(0 <= xw * xw <= 0x8000_0000 * 0x8000_0000 && 0 <= yw * yw <= 0x8000_0000 * 0x8000_0000)
        by (nonlinear_arith)
        requires
            -0x8000_0000 <= xw <= 0x8000_0000,
            -0x8000_0000 <= yw <= 0x8000_0000,
    ;
    if (y > 0 || x > 0) && xw * xw + yw * yw <= radius * radius {
        Some((x, y))
    } else {
        None
    }
}

impl Boid {
    /// The agent that the draws `ux` and `uy` place in a world of `nx` by
    /// `ny` grid units and that the heading `(hx, hy)` sends off at speed
    /// `max_velocity`.
    pub fn from_draws(
        max_velocity: i64,
        nx: i32,
        ny: i32,
        ux: u32,
        uy: u32,
        hx: i64,
        hy: i64,
    ) -> (b: Boid)
        requires
            -LIMIT <= max_velocity <= LIMIT,
            -GRID_LIMIT <= nx <= GRID_LIMIT,
            -GRID_LIMIT <= ny <= GRID_LIMIT,
            hx != 0 || hy != 0,
        ensures
            b@ == spawned(
                max_velocity as int,
                nx as int,
                ny as int,
                ux as int,
                uy as int,
                vector_of((hx, hy)),
            ),
            b.wf(),
    {
        let x: i64 = place(ux, (nx as i64) * SCALE);
        let y: i64 = place(uy, (ny as i64) * SCALE);
        let speed: i64 = max_velocity;
        let dir: (i64, i64) = unit_vector(hx, hy);
        proof {
            lemma_spawned_velocity(max_velocity as int, vector_of((hx, hy)));
        }
        Boid {
            position: [x, y],
            velocity: [fixed_multiply(speed, dir.0), fixed_multiply(speed, dir.1)],
        }
    }

    /// A random agent of a world of `nx` by `ny` grid units: its position is
    /// uniform over the grid, its speed is `max_velocity`, and its heading is
    /// uniform over the upper half-plane. What holds of it whatever was
    /// drawn is stated by `lemma_spawn`.
    ///
    /// The heading is the direction of a point drawn uniformly from the upper
    /// half-disc; points are drawn from the square around it until one falls
    /// inside. In the all but impossible case that `HEADING_ATTEMPTS` points
    /// in a row fall outside, the heading is straight up.
    ///
    /// The random source panics where the operating system refuses it a seed.
    pub fn new_random(max_velocity: &i64, nx: &i32, ny: &i32) -> (b: Self)
        requires
            -LIMIT <= *max_velocity <= LIMIT,
            -GRID_LIMIT <= *nx <= GRID_LIMIT,
            -GRID_LIMIT <= *ny <= GRID_LIMIT,
        ensures
            b.wf(),
            is_spawn(b@, *max_velocity as int, *nx as int, *ny as int),
    {
        let mut rng = rand::thread_rng();
        let ux: u32 = next_draw(&mut rng);
        let uy: u32 = next_draw(&mut rng);
        let mut heading: (i64, i64) = (0, HEADING_RADIUS);
        let mut found: bool = false;
        let mut tries: u32 = 0;
        assert(is_heading(vector_of(heading))) by {
            assert(0 * 0 + HEADING_RADIUS * HEADING_RADIUS <= HEADING_RADIUS * HEADING_RADIUS)
                by (nonlinear_arith);
        }
        while tries < HEADING_ATTEMPTS && !found
            invariant
                tries <= HEADING_ATTEMPTS,
                is_heading(vector_of(heading)),
            decreases HEADING_ATTEMPTS - tries + (if found { 0int } else { 1int }),
        {
            let u: u32 = next_draw(&mut rng);
            let w: u32 = next_draw(&mut rng);
            match heading_of(u, w) {
                Some(h) => {
                    heading = h;
                    found = true;
                },
                None => {
                    tries += 1;
                },
            }
        }
        Boid::from_draws(*max_velocity, *nx, *ny, ux, uy, heading.0, heading.1)
    }
}

} // verus!
