//! What holds of the steering rules whatever the flock.

use crate::boids::alignment;
use crate::boids::centroid;
use crate::boids::cohesion;
use crate::boids::cruises;
use crate::boids::crowding;
use crate::boids::crowds;
use crate::boids::lemma_clamped_speed;
use crate::boids::neighbors;
use crate::boids::perceived_by;
use crate::boids::perceives;
use crate::boids::positions;
use crate::boids::separation;
use crate::boids::velocities;
use crate::boids::State;
use crate::boids::COHESION_GAIN;
use crate::boids::MAX_SPEED;
use crate::boids::MIN_SPEED;
use crate::boids::SEPARATION_RADIUS;
use crate::fixed::SCALE;
use crate::fixed::lemma_product_identities;
use crate::fixed::lemma_quotient_within;
use crate::flock::steering;
use crate::flock::stepped;
use crate::flock::trajectory;
use crate::vector::lemma_mean_single;
use crate::vector::lemma_mean_translated;
use crate::vector::lemma_scaled_component;
use crate::vector::lemma_sum_norm;
use crate::vector::mean;
use crate::vector::sum;
use vstd::arithmetic::div_mod::lemma_div_is_ordered;
use vstd::arithmetic::div_mod::lemma_fundamental_div_mod;
use vstd::arithmetic::div_mod::lemma_mod_bound;
use crate::vector::Vector;
use vstd::prelude::*;

verus! {

/// Immediately after an acceleration the velocity is zero or has a cruising
/// speed, and where the speed before the clamp was neither, the speed after
/// it is within one raw unit, a millionth, of 1.0.
pub proof fn lemma_speed_after_acceleration(b: State, dtau: int, a: Vector)
    ensures
        ({
            let raised = b.velocity.plus(a.scaled(dtau));
            let after = b.accelerated(dtau, a).velocity;
            &&& after == Vector::zero() || cruises(after)
            &&& raised != Vector::zero() && !cruises(raised) ==> after.is_near_unit()
            &&& raised == Vector::zero() || cruises(raised) ==> after == raised
        }),
{
    lemma_clamped_speed(b.velocity.plus(a.scaled(dtau)));
}

/// After a tick every agent stands still or has a cruising speed.
pub proof fn lemma_speed_after_tick(
    flock: Seq<State>,
    dtau: int,
    dt: int,
    nx: int,
    ny: int,
    i: int,
)
    requires
        0 <= i < flock.len(),
    ensures
        ({
            let after = stepped(flock, dtau, dt, nx, ny)[i].velocity;
            after == Vector::zero() || cruises(after)
        }),
{
    lemma_speed_after_acceleration(flock[i], dtau, steering(flock, i, nx, ny));
}

/// The magnitude of a number.
pub open spec fn magnitude(x: int) -> int {
    if x >= 0 {
        x
    } else {
        -x
    }
}

/// The farthest that an advance by `dt` carries a coordinate of an agent
/// that stands still or cruises: `dt` times the highest cruising speed, and
/// one raw unit for the rounding.
pub open spec fn reach(dt: int) -> int {
    (MAX_SPEED * magnitude(dt)) / (SCALE as int) + 1
}

/// How far the squared displacement of an advance by `dt`, times
/// `SCALE * SCALE`, may lie from the square of `dt` times the speed.
pub open spec fn displacement_slack(dt: int) -> int {
    4 * SCALE * MAX_SPEED * magnitude(dt) + 2 * SCALE * SCALE
}

/// An advance adds `dt` times the velocity to the position and nothing
/// else: the velocity is kept, no coordinate is held back, and the length of
/// the displacement is `dt` times the speed up to rounding, so for a
/// cruising agent between `MIN_SPEED` and `MAX_SPEED` times `dt`.
pub proof fn lemma_displacement(b: State, dt: int)
    requires
        b.velocity == Vector::zero() || cruises(b.velocity),
    ensures
        b.advanced(dt).velocity == b.velocity,
        b.advanced(dt).position == b.position.plus(b.velocity.scaled(dt)),
        b.advanced(dt).position.minus(b.position).within(reach(dt)),
        ({
            let d = b.advanced(dt).position.minus(b.position);
            let exact = (dt * dt) * b.velocity.norm_sq();
            &&& -displacement_slack(dt) <= SCALE * SCALE * d.norm_sq() - exact
            &&& SCALE * SCALE * d.norm_sq() - exact <= displacement_slack(dt)
            &&& cruises(b.velocity) ==> (dt * dt) * (MIN_SPEED * MIN_SPEED) <= exact <= (dt * dt)
                * (MAX_SPEED * MAX_SPEED)
        }),
{
    let v = b.velocity;
    let d = v.scaled(dt);
    let m = magnitude(dt);
    lemma_clamped_speed(v);
    let top = 1_200_000 * m;
    assert(-top <= dt * v.x <= top && -top <= dt * v.y <= top) by (nonlinear_arith)
        requires
            -m <= dt <= m,
            -1_200_000 <= v.x <= 1_200_000,
            -1_200_000 <= v.y <= 1_200_000,
            top == 1_200_000 * m,
    ;
    lemma_div_is_ordered(dt * v.x, top, SCALE as int);
    lemma_div_is_ordered(-top, dt * v.x, SCALE as int);
    lemma_div_is_ordered(dt * v.y, top, SCALE as int);
    lemma_div_is_ordered(-top, dt * v.y, SCALE as int);
    assert(MAX_SPEED * m == top) by (nonlinear_arith)
        requires
            top == 1_200_000 * m,
    ;
    lemma_scaled_component(dt, v.x, top);
    lemma_scaled_component(dt, v.y, top);
    let tt = dt * dt;
    let vn = v.x * v.x + v.y * v.y;
    let dn = d.x * d.x + d.y * d.y;
    assert(tt * vn == tt * (v.x * v.x) + tt * (v.y * v.y)) by (nonlinear_arith)
        requires
            vn == v.x * v.x + v.y * v.y,
    ;
    assert(1_000_000_000_000 * dn == 1_000_000_000_000 * (d.x * d.x) + 1_000_000_000_000 * (d.y
        * d.y));
    assert(SCALE * SCALE * dn == 1_000_000_000_000 * dn) by (nonlinear_arith);
    assert(4 * SCALE * MAX_SPEED * m == 4 * top * 1_000_000) by (nonlinear_arith)
        requires
            top == 1_200_000 * m,
    ;
    assert(2 * SCALE * SCALE == 2 * 1_000_000_000_000) by (nonlinear_arith);
    assert(0 <= tt) by (nonlinear_arith)
        requires
            tt == dt * dt,
    ;
    if cruises(v) {
        assert(tt * (MIN_SPEED * MIN_SPEED) <= tt * vn <= tt * (MAX_SPEED * MAX_SPEED))
            by (nonlinear_arith)
            requires
                0 <= tt,
                MIN_SPEED * MIN_SPEED <= vn <= MAX_SPEED * MAX_SPEED,
        ;
    }
}

/// What a tick does to one agent: its velocity is the one that the
/// acceleration by its steering increment in the flock before the tick
/// leaves, and its position is the position before the tick plus `dt` times
/// that new velocity. The flock keeps its length and its order.
pub proof fn lemma_tick_of_agent(flock: Seq<State>, dtau: int, dt: int, nx: int, ny: int, i: int)
    requires
        0 <= i < flock.len(),
    ensures
        stepped(flock, dtau, dt, nx, ny).len() == flock.len(),
        stepped(flock, dtau, dt, nx, ny)[i].velocity == flock[i].accelerated(
            dtau,
            steering(flock, i, nx, ny),
        ).velocity,
        stepped(flock, dtau, dt, nx, ny)[i].position == flock[i].position.plus(
            stepped(flock, dtau, dt, nx, ny)[i].velocity.scaled(dt),
        ),
{
}

/// A tick moves no coordinate of an agent by more than `reach(dt)`.
pub proof fn lemma_tick_reach(flock: Seq<State>, dtau: int, dt: int, nx: int, ny: int, i: int)
    requires
        0 <= i < flock.len(),
    ensures
        stepped(flock, dtau, dt, nx, ny)[i].position.minus(flock[i].position).within(reach(dt)),
{
    let turned = flock[i].accelerated(dtau, steering(flock, i, nx, ny));
    lemma_speed_after_acceleration(flock[i], dtau, steering(flock, i, nx, ny));
    lemma_displacement(turned, dt);
}

/// A longer step reaches at least as far.
proof fn lemma_reach_grows(dt: int, longest: int)
    requires
        magnitude(dt) <= longest,
    ensures
        0 < reach(dt) <= reach(longest),
{
    let m = magnitude(dt);
    assert(0 <= MAX_SPEED * m <= MAX_SPEED * longest) by (nonlinear_arith)
        requires
            0 <= m <= longest,
            MAX_SPEED == 1_200_000,
    ;
    lemma_div_is_ordered(0, MAX_SPEED * m, SCALE as int);
    lemma_div_is_ordered(MAX_SPEED * m, MAX_SPEED * longest, SCALE as int);
}

/// Over a run, no coordinate of an agent drifts farther from where it
/// started than the number of ticks times the reach of the longest step.
/// Nothing stronger holds of every flock: the boundary rule is no wall, and
/// an agent that heads straight out of the world is turned back only far
/// beyond its edge.
pub proof fn lemma_trajectory_reach(
    flock: Seq<State>,
    ticks: Seq<(int, int)>,
    nx: int,
    ny: int,
    longest: int,
    i: int,
)
    requires
        0 <= i < flock.len(),
        forall|k: int| 0 <= k < ticks.len() ==> magnitude((#[trigger] ticks[k]).1) <= longest,
    ensures
        trajectory(flock, ticks, nx, ny).len() == flock.len(),
        trajectory(flock, ticks, nx, ny)[i].position.minus(flock[i].position).within(
            ticks.len() * reach(longest),
        ),
    decreases ticks.len(),
{
    if ticks.len() == 0 {
        assert(ticks.len() * reach(longest) == 0) by (nonlinear_arith)
            requires
                ticks.len() == 0,
        ;
    } else {
        let earlier = ticks.drop_last();
        let tick = ticks.last();
        let so_far = trajectory(flock, earlier, nx, ny);
        assert forall|k: int| 0 <= k < earlier.len() implies magnitude((#[trigger] earlier[k]).1)
            <= longest by {
            assert(earlier[k] == ticks[k]);
        }
        lemma_trajectory_reach(flock, earlier, nx, ny, longest, i);
        lemma_tick_reach(so_far, tick.0, tick.1, nx, ny, i);
        lemma_reach_grows(tick.1, longest);
        assert(ticks.len() * reach(longest) == earlier.len() * reach(longest) + reach(longest))
            by (nonlinear_arith)
            requires
                ticks.len() == earlier.len() + 1,
        ;
    }
}

/// An agent without neighbours is neither aligned nor separated.
pub proof fn lemma_no_neighbors(b: State)
    ensures
        alignment(b, Seq::<State>::empty()) == Vector::zero(),
        separation(b, Seq::<State>::empty()) == Vector::zero(),
{
    reveal(Seq::filter);
}

/// The quotient of a vector no longer than `n * r` by `n`, each component
/// rounded down, is no longer than `r` but for the rounding.
proof fn lemma_rounded_quotient_norm(total: Vector, n: int, r: int)
    requires
        0 < n,
        0 <= r,
        total.norm_sq() <= (n * r) * (n * r),
    ensures
        -r <= total.x / n <= r,
        -r <= total.y / n <= r,
        (total.x / n) * (total.x / n) + (total.y / n) * (total.y / n) <= r * r + 4 * r + 2,
{
    let (fx, fy) = (total.x / n, total.y / n);
    let (rx, ry) = (total.x % n, total.y % n);
    lemma_fundamental_div_mod(total.x, n);
    lemma_fundamental_div_mod(total.y, n);
    lemma_mod_bound(total.x, n);
    lemma_mod_bound(total.y, n);
    let top = n * r;
    let norm = total.x * total.x + total.y * total.y;
    assert(0 <= top) by (nonlinear_arith)
        requires
            0 < n,
            0 <= r,
            top == n * r,
    ;
    assert(-top <= total.x <= top && -top <= total.y <= top) by (nonlinear_arith)
        requires
            total.x * total.x + total.y * total.y <= top * top,
            0 <= top,
    ;
    lemma_quotient_within(total.x, n, r);
    lemma_quotient_within(total.y, n, r);
    let (kx, ky) = (n * fx, n * fy);
    assert(kx * kx == total.x * total.x - 2 * (total.x * rx) + rx * rx) by (nonlinear_arith)
        requires
            total.x == kx + rx,
    ;
    assert(ky * ky == total.y * total.y - 2 * (total.y * ry) + ry * ry) by (nonlinear_arith)
        requires
            total.y == ky + ry,
    ;
    let nn = n * n;
    assert(0 < nn) by (nonlinear_arith)
        requires
            0 < n,
            nn == n * n,
    ;
    assert(kx * kx == nn * (fx * fx) && ky * ky == nn * (fy * fy)) by (nonlinear_arith)
        requires
            kx == n * fx,
            ky == n * fy,
            nn == n * n,
    ;
    assert(-(top * n) <= total.x * rx <= top * n && -(top * n) <= total.y * ry <= top * n)
        by (nonlinear_arith)
        requires
            -top <= total.x <= top,
            -top <= total.y <= top,
            0 <= rx < n,
            0 <= ry < n,
    ;
    assert(rx * rx <= nn && ry * ry <= nn) by (nonlinear_arith)
        requires
            0 <= rx < n,
            0 <= ry < n,
            nn == n * n,
    ;
    assert(top * top == nn * (r * r) && top * n == nn * r) by (nonlinear_arith)
        requires
            top == n * r,
            nn == n * n,
    ;
    let f = fx * fx + fy * fy;
    assert(nn * f == nn * (fx * fx) + nn * (fy * fy)) by (nonlinear_arith)
        requires
            f == fx * fx + fy * fy,
    ;
    assert(nn * f <= nn * (r * r + 4 * r + 2)) by (nonlinear_arith)
        requires
            nn * f <= nn * (r * r) + 4 * (nn * r) + 2 * nn,
    ;
    assert(f <= r * r + 4 * r + 2) by (nonlinear_arith)
        requires
            0 < nn,
            nn * f <= nn * (r * r + 4 * r + 2),
    ;
}

/// The separation increment is no longer than the separation radius, but
/// for the rounding of the mean: the mean of points closer than the radius
/// is closer than the radius.
pub proof fn lemma_separation_short(b: State, nbrs: Seq<State>)
    ensures
        separation(b, nbrs).within(SEPARATION_RADIUS as int),
        separation(b, nbrs).norm_sq() <= SEPARATION_RADIUS * SEPARATION_RADIUS + 4
            * SEPARATION_RADIUS + 2,
{
    let close = nbrs.filter(crowding(b));
    let radius: int = 500_000;
    assert(SEPARATION_RADIUS * SEPARATION_RADIUS == radius * radius) by (nonlinear_arith)
        requires
            radius == 500_000,
            SEPARATION_RADIUS == 500_000,
    ;
    if close.len() == 0 {
        assert(Vector::zero().norm_sq() == 0) by (nonlinear_arith);
    } else {
        let n = close.len() as int;
        let here = positions(close);
        let offsets = Seq::new(close.len(), |i: int| close[i].position.minus(b.position));
        assert forall|i: int| 0 <= i < offsets.len() implies (#[trigger] offsets[i]).norm_sq()
            <= radius * radius by {
            nbrs.lemma_filter_pred(crowding(b), i);
        }
        assert forall|i: int| 0 <= i < offsets.len() implies #[trigger] here[i] == offsets[i].plus(
            b.position,
        ) by {}
        lemma_mean_translated(offsets, here, b.position);
        lemma_sum_norm(offsets, radius);
        let total = sum(offsets);
        lemma_rounded_quotient_norm(total, n, radius);
        let away = b.position.minus(mean(here));
        lemma_product_identities(away.x);
        lemma_product_identities(away.y);
        let (fx, fy) = (total.x / n, total.y / n);
        assert(away.x * away.x == fx * fx && away.y * away.y == fy * fy) by (nonlinear_arith)
            requires
                away.x == -fx,
                away.y == -fy,
        ;
    }
}

/// An agent that perceives none of the others has no neighbours, so its
/// alignment and separation increments are zero.
pub proof fn lemma_isolated_agent(flock: Seq<State>, i: int)
    requires
        0 <= i < flock.len(),
        forall|j: int| 0 <= j < flock.len() && j != i ==> !perceives(flock[i], #[trigger] flock[j]),
    ensures
        neighbors(flock, i) == Seq::<State>::empty(),
        alignment(flock[i], neighbors(flock, i)) == Vector::zero(),
        separation(flock[i], neighbors(flock, i)) == Vector::zero(),
{
    let others = flock.remove(i);
    let pred = perceived_by(flock[i]);
    assert forall|k: int| 0 <= k < others.len() implies !pred(#[trigger] others[k]) by {
        if k < i {
            assert(others[k] == flock[k]);
        } else {
            assert(others[k] == flock[k + 1]);
        }
    }
    lemma_filter_none(others, pred);
    lemma_no_neighbors(flock[i]);
}

/// A filter that no element passes leaves nothing.
proof fn lemma_filter_none(s: Seq<State>, pred: spec_fn(State) -> bool)
    requires
        forall|k: int| 0 <= k < s.len() ==> !pred(#[trigger] s[k]),
    ensures
        s.filter(pred) == Seq::<State>::empty(),
    decreases s.len(),
{
    reveal(Seq::filter);
    if s.len() > 0 {
        lemma_filter_none(s.drop_last(), pred);
    }
}

/// In a flock of one, the agent is its own centroid and has no neighbours:
/// cohesion, alignment and separation are all zero.
pub proof fn lemma_single_agent(b: State)
    ensures
        neighbors(seq![b], 0) == Seq::<State>::empty(),
        centroid(seq![b]) == b.position,
        cohesion(b, centroid(seq![b])) == Vector::zero(),
        alignment(b, neighbors(seq![b], 0)) == Vector::zero(),
        separation(b, neighbors(seq![b], 0)) == Vector::zero(),
{
    let flock = seq![b];
    lemma_isolated_agent(flock, 0);
    assert(positions(flock) =~= seq![b.position]);
    lemma_mean_single(b.position);
    lemma_product_identities(COHESION_GAIN as int);
}

/// An agent moved by the offset `d`.
pub open spec fn translated(b: State, d: Vector) -> State {
    State { position: b.position.plus(d), velocity: b.velocity }
}

/// Every agent of a sequence moved by the offset `d`.
pub open spec fn translated_all(flock: Seq<State>, d: Vector) -> Seq<State> {
    flock.map_values(|b: State| translated(b, d))
}

/// Moving two agents by the same offset does not change whether one crowds
/// the other.
proof fn lemma_crowds_translated(b: State, o: State, d: Vector)
    ensures
        crowds(translated(b, d), translated(o, d)) == crowds(b, o),
{
    assert(translated(o, d).position.minus(translated(b, d).position) == o.position.minus(
        b.position,
    ));
}

/// Where a predicate holds of a moved agent exactly when another holds of
/// the agent itself, filtering the moved agents by the one is moving the
/// agents filtered by the other.
proof fn lemma_filter_translated(
    flock: Seq<State>,
    d: Vector,
    before: spec_fn(State) -> bool,
    after: spec_fn(State) -> bool,
)
    requires
        forall|k: int|
            0 <= k < flock.len() ==> after(translated(#[trigger] flock[k], d)) == before(flock[k]),
    ensures
        translated_all(flock, d).filter(after) == translated_all(flock.filter(before), d),
    decreases flock.len(),
{
    reveal(Seq::filter);
    let moved = translated_all(flock, d);
    if flock.len() > 0 {
        let rest = flock.drop_last();
        lemma_filter_translated(rest, d, before, after);
        assert(moved.drop_last() =~= translated_all(rest, d));
        let kept = rest.filter(before);
        if before(flock.last()) {
            assert(translated_all(kept.push(flock.last()), d) =~= translated_all(kept, d).push(
                translated(flock.last(), d),
            ));
        }
    }
}

/// Moving an agent and its neighbours by one and the same offset changes
/// neither its alignment increment nor its separation increment.
pub proof fn lemma_translation_invariance(b: State, nbrs: Seq<State>, d: Vector)
    ensures
        alignment(translated(b, d), translated_all(nbrs, d)) == alignment(b, nbrs),
        separation(translated(b, d), translated_all(nbrs, d)) == separation(b, nbrs),
{
    assert(velocities(translated_all(nbrs, d)) =~= velocities(nbrs));
    assert forall|k: int| 0 <= k < nbrs.len() implies crowding(translated(b, d))(
        translated(#[trigger] nbrs[k], d),
    ) == crowding(b)(nbrs[k]) by {
        lemma_crowds_translated(b, nbrs[k], d);
    }
    lemma_filter_translated(nbrs, d, crowding(b), crowding(translated(b, d)));
    let close = nbrs.filter(crowding(b));
    if close.len() > 0 {
        lemma_mean_translated(positions(close), positions(translated_all(close, d)), d);
    }
}

/// Moving a whole flock by one offset changes neither the alignment nor the
/// separation increment of an agent, so long as the agent still perceives
/// the same agents: perception looks along the position vector of the
/// agent, which the move turns.
pub proof fn lemma_translation_invariance_in_flock(flock: Seq<State>, i: int, d: Vector)
    requires
        0 <= i < flock.len(),
        forall|j: int|
            0 <= j < flock.len() && j != i ==> perceives(
                translated(flock[i], d),
                translated(#[trigger] flock[j], d),
            ) == perceives(flock[i], flock[j]),
    ensures
        neighbors(translated_all(flock, d), i) == translated_all(neighbors(flock, i), d),
        alignment(translated_all(flock, d)[i], neighbors(translated_all(flock, d), i))
            == alignment(flock[i], neighbors(flock, i)),
        separation(translated_all(flock, d)[i], neighbors(translated_all(flock, d), i))
            == separation(flock[i], neighbors(flock, i)),
{
    let moved = translated_all(flock, d);
    let others = flock.remove(i);
    assert(moved.remove(i) =~= translated_all(others, d));
    assert forall|k: int| 0 <= k < others.len() implies perceived_by(moved[i])(
        translated(#[trigger] others[k], d),
    ) == perceived_by(flock[i])(others[k]) by {
        if k < i {
            assert(others[k] == flock[k]);
        } else {
            assert(others[k] == flock[k + 1]);
        }
    }
    lemma_filter_translated(others, d, perceived_by(flock[i]), perceived_by(moved[i]));
    lemma_translation_invariance(flock[i], neighbors(flock, i), d);
}

/// Two runs that start from the same flock and are given the same sequence
/// of ticks end in the same flock, and so does every tick along the way.
pub proof fn lemma_trajectory_deterministic(
    first: Seq<State>,
    second: Seq<State>,
    first_ticks: Seq<(int, int)>,
    second_ticks: Seq<(int, int)>,
    nx: int,
    ny: int,
)
    requires
        first == second,
        first_ticks == second_ticks,
    ensures
        trajectory(first, first_ticks, nx, ny) == trajectory(second, second_ticks, nx, ny),
        forall|k: int|
            0 <= k <= first_ticks.len() ==> trajectory(first, #[trigger] first_ticks.take(k), nx, ny)
                == trajectory(second, second_ticks.take(k), nx, ny),
{
}

/// The flock after one more tick is the tick applied to the flock so far.
pub proof fn lemma_trajectory_extends(
    flock: Seq<State>,
    ticks: Seq<(int, int)>,
    dtau: int,
    dt: int,
    nx: int,
    ny: int,
)
    ensures
        trajectory(flock, ticks.push((dtau, dt)), nx, ny) == stepped(
            trajectory(flock, ticks, nx, ny),
            dtau,
            dt,
            nx,
            ny,
        ),
        trajectory(flock, Seq::<(int, int)>::empty(), nx, ny) == flock,
{
    assert(ticks.push((dtau, dt)).drop_last() =~= ticks);
}

} // verus!
