//! Plane vectors over the integers: the mathematical side of every position,
//! velocity and steering increment, in raw fixed-point units.

use crate::fixed::fixed_product;
use crate::fixed::floor_sqrt;
use crate::fixed::is_floor_sqrt;
use crate::fixed::isqrt;
use crate::fixed::nearest_div;
use crate::fixed::nearest_quotient;
use crate::fixed::lemma_floor_sqrt_exists;
use crate::fixed::lemma_nearest_quotient;
use crate::fixed::lemma_quotient_within;
use crate::fixed::SCALE;
use vstd::arithmetic::div_mod::lemma_fundamental_div_mod;
use vstd::arithmetic::div_mod::lemma_fundamental_div_mod_converse;
use vstd::arithmetic::div_mod::lemma_mod_bound;
use vstd::prelude::*;

verus! {

/// A vector of the plane with integer components.
pub struct Vector {
    pub x: int,
    pub y: int,
}

/// Vectors shorter than this many raw units are magnified before their
/// length is taken.
pub const SHORT: i64 = 100_000_000_000;

/// The factor by which short vectors are magnified.
pub const MAGNIFICATION: i64 = 10_000_000;

impl Vector {
    /// The vector with both components zero.
    pub open spec fn zero() -> Vector {
        Vector { x: 0, y: 0 }
    }

    /// Component-wise sum.
    pub open spec fn plus(self, other: Vector) -> Vector {
        Vector { x: self.x + other.x, y: self.y + other.y }
    }

    /// Component-wise difference.
    pub open spec fn minus(self, other: Vector) -> Vector {
        Vector { x: self.x - other.x, y: self.y - other.y }
    }

    /// The vector multiplied by the fixed-point factor `k`.
    pub open spec fn scaled(self, k: int) -> Vector {
        Vector { x: fixed_product(k, self.x), y: fixed_product(k, self.y) }
    }

    /// The scalar product with `other`.
    pub open spec fn dot(self, other: Vector) -> int {
        self.x * other.x + self.y * other.y
    }

    /// The squared Euclidean length.
    pub open spec fn norm_sq(self) -> int {
        self.x * self.x + self.y * self.y
    }

    /// Whether both components lie within `[-bound, bound]`.
    pub open spec fn within(self, bound: int) -> bool {
        -bound <= self.x <= bound && -bound <= self.y <= bound
    }

    /// The vector from which the direction is taken when normalising: short
    /// vectors are first magnified, so that the rounded-down square root of
    /// the squared length is at least ten times `SCALE` and loses less than a
    /// tenth of a raw unit of the result.
    pub open spec fn magnified(self) -> Vector {
        if self.norm_sq() < SHORT * SHORT {
            Vector { x: self.x * MAGNIFICATION, y: self.y * MAGNIFICATION }
        } else {
            self
        }
    }

    /// The vector of length 1.0 (`SCALE` raw units) that points the way `self`
    /// does, each component rounded to the nearest raw unit. Meaningful for a
    /// non-zero vector.
    pub open spec fn unit(self) -> Vector {
        let w = self.magnified();
        let s = floor_sqrt(w.norm_sq());
        Vector { x: nearest_quotient(w.x * SCALE, s), y: nearest_quotient(w.y * SCALE, s) }
    }

    /// Whether the length is within one raw unit of 1.0.
    pub open spec fn is_near_unit(self) -> bool {
        (SCALE - 1) * (SCALE - 1) <= self.norm_sq() <= (SCALE + 1) * (SCALE + 1)
    }
}

/// The vector that a pair of machine integers stands for.
pub open spec fn vector_of(p: (i64, i64)) -> Vector {
    Vector { x: p.0 as int, y: p.1 as int }
}

/// The square of a scalar product is at most the product of the squared
/// lengths.
pub proof fn lemma_dot_squared(a: Vector, b: Vector)
    ensures
        a.dot(b) * a.dot(b) <= a.norm_sq() * b.norm_sq(),
{
    let t = a.dot(b);
    let c = a.x * b.y - a.y * b.x;
    let na = a.norm_sq();
    let nb = b.norm_sq();
    // Lagrange's identity, one product at a time.
    let (xx, yy, xy, yx) = (a.x * b.x, a.y * b.y, a.x * b.y, a.y * b.x);
    let (ax, ay, bx, by) = (a.x * a.x, a.y * a.y, b.x * b.x, b.y * b.y);
    assert(xx * yy == xy * yx) by (nonlinear_arith)
        requires
            xx == a.x * b.x,
            yy == a.y * b.y,
            xy == a.x * b.y,
            yx == a.y * b.x,
    ;
    assert(xx * xx == ax * bx) by (nonlinear_arith)
        requires
            xx == a.x * b.x,
            ax == a.x * a.x,
            bx == b.x * b.x,
    ;
    assert(yy * yy == ay * by) by (nonlinear_arith)
        requires
            yy == a.y * b.y,
            ay == a.y * a.y,
            by == b.y * b.y,
    ;
    assert(xy * xy == ax * by) by (nonlinear_arith)
        requires
            xy == a.x * b.y,
            ax == a.x * a.x,
            by == b.y * b.y,
    ;
    assert(yx * yx == ay * bx) by (nonlinear_arith)
        requires
            yx == a.y * b.x,
            ay == a.y * a.y,
            bx == b.x * b.x,
    ;
    assert(na * nb == ax * bx + ax * by + ay * bx + ay * by) by (nonlinear_arith)
        requires
            na == ax + ay,
            nb == bx + by,
    ;
    assert(t * t == xx * xx + 2 * (xx * yy) + yy * yy) by (nonlinear_arith)
        requires
            t == xx + yy,
    ;
    assert(c * c == xy * xy - 2 * (xy * yx) + yx * yx) by (nonlinear_arith)
        requires
            c == xy - yx,
    ;
    assert(0 <= c * c) by (nonlinear_arith);
}

/// A component divided by the length it belongs to never exceeds 1.0.
proof fn lemma_component_of_unit(w: int, s: int, n: int)
    requires
        0 < s,
        w * w <= n,
        n < (s + 1) * (s + 1),
    ensures
        -SCALE <= nearest_quotient(w * SCALE, s) <= SCALE,
        0 <= w ==> 0 <= nearest_quotient(w * SCALE, s),
{
    assert(-s <= w <= s) by (nonlinear_arith)
        requires
            0 < s,
            w * w < (s + 1) * (s + 1),
    ;
    let a = w * SCALE;
    let q = nearest_quotient(a, s);
    lemma_nearest_quotient(a, s);
    let sq = s * q;
    assert(-(s * 1_000_000) <= a <= s * 1_000_000 && (0 <= w ==> 0 <= a)) by (nonlinear_arith)
        requires
            a == w * 1_000_000,
            -s <= w <= s,
    ;
    assert(q <= 1_000_000 && -1_000_000 <= q && (0 <= a ==> 0 <= q)) by (nonlinear_arith)
        requires
            0 < s,
            sq == s * q,
            -s <= 2 * (a - sq) < s,
            -(s * 1_000_000) <= a <= s * 1_000_000,
    ;
}

/// Squaring `s * u + r == w * k` term by term.
proof fn lemma_square_of_quotient(w: int, k: int, s: int, u: int, r: int)
    requires
        s * u + r == w * k,
    ensures
        s * s * (u * u) == k * k * (w * w) - 2 * k * (w * r) + r * r,
{
    let a = s * u;
    let b = w * k;
    assert(a * a == b * b - 2 * (b * r) + r * r) by (nonlinear_arith)
        requires
            a + r == b,
    ;
    assert(a * a == s * s * (u * u)) by (nonlinear_arith)
        requires
            a == s * u,
    ;
    assert(b * b == k * k * (w * w)) by (nonlinear_arith)
        requires
            b == w * k,
    ;
    assert(2 * (b * r) == 2 * k * (w * r)) by (nonlinear_arith)
        requires
            b == w * k,
    ;
}

/// The length of the rounded quotient vector is within one raw unit of 1.0.
proof fn lemma_quotient_norm(wx: int, wy: int, s: int)
    requires
        10 * SCALE <= s,
        is_floor_sqrt(wx * wx + wy * wy, s),
    ensures
        (Vector {
            x: nearest_quotient(wx * SCALE, s),
            y: nearest_quotient(wy * SCALE, s),
        }).is_near_unit(),
{
    let k: int = 1_000_000;
    let ux = nearest_quotient(wx * k, s);
    let uy = nearest_quotient(wy * k, s);
    let rx = wx * k - s * ux;
    let ry = wy * k - s * uy;
    let n = wx * wx + wy * wy;
    lemma_nearest_quotient(wx * k, s);
    lemma_nearest_quotient(wy * k, s);
    lemma_square_of_quotient(wx, k, s, ux, rx);
    lemma_square_of_quotient(wy, k, s, uy, ry);
    // s * s * |u|^2 == k^2 * n - 2k (w . r) + |r|^2
    let cross = wx * rx + wy * ry;
    let tail = rx * rx + ry * ry;
    let m = ux * ux + uy * uy;
    let ss = s * s;
    assert(s * s * (ux * ux + uy * uy) == s * s * (ux * ux) + s * s * (uy * uy))
        by (nonlinear_arith);
    assert(k * k * n == k * k * (wx * wx) + k * k * (wy * wy)) by (nonlinear_arith)
        requires
            n == wx * wx + wy * wy,
    ;
    assert(2 * k * cross == 2 * k * (wx * rx) + 2 * k * (wy * ry)) by (nonlinear_arith)
        requires
            cross == wx * rx + wy * ry,
    ;
    // The remainders are at most half of s each.
    assert(4 * (rx * rx) <= ss && 4 * (ry * ry) <= ss) by (nonlinear_arith)
        requires
            -s <= 2 * rx < s,
            -s <= 2 * ry < s,
            ss == s * s,
    ;
    assert(0 <= tail && 2 * tail <= ss) by (nonlinear_arith)
        requires
            tail == rx * rx + ry * ry,
            4 * (rx * rx) <= ss,
            4 * (ry * ry) <= ss,
    ;
    // So their scalar product with w is at most three quarters of s (s + 1).
    lemma_dot_squared(Vector { x: wx, y: wy }, Vector { x: rx, y: ry });
    let top = s * (s + 1);
    assert(0 <= n <= ss + 2 * s) by (nonlinear_arith)
        requires
            0 <= s,
            s * s <= n,
            n < (s + 1) * (s + 1),
            ss == s * s,
    ;
    assert(2 * (n * tail) <= top * top) by (nonlinear_arith)
        requires
            0 <= tail,
            2 * tail <= ss,
            0 <= n <= ss + 2 * s,
            ss == s * s,
            top == s * (s + 1),
            0 <= s,
    ;
    assert(-(3 * top) <= 4 * cross <= 3 * top) by (nonlinear_arith)
        requires
            2 * (cross * cross) <= top * top,
            0 <= top,
    ;
    assert(top == ss + s && 0 < ss && 10_000_000 * s <= ss) by (nonlinear_arith)
        requires
            top == s * (s + 1),
            ss == s * s,
            10_000_000 <= s,
    ;
    assert(ss * (999_999 * 999_999) <= ss * m <= ss * (1_000_001 * 1_000_001))
        by (nonlinear_arith)
        requires
            ss * m == 1_000_000_000_000 * n - 2_000_000 * cross + tail,
            ss <= n <= ss + 2 * s,
            -(3 * (ss + s)) <= 4 * cross <= 3 * (ss + s),
            0 <= tail,
            2 * tail <= ss,
            10_000_000 * s <= ss,
            0 < s,
    ;
    assert(999_999 * 999_999 <= m <= 1_000_001 * 1_000_001) by (nonlinear_arith)
        requires
            0 < ss,
            ss * (999_999 * 999_999) <= ss * m <= ss * (1_000_001 * 1_000_001),
    ;
}

/// The rounded square root that `unit` divides by is at least ten times
/// `SCALE` for every non-zero vector.
pub proof fn lemma_magnified_length(v: Vector)
    requires
        v != Vector::zero(),
    ensures
        is_floor_sqrt(v.magnified().norm_sq(), floor_sqrt(v.magnified().norm_sq())),
        10 * SCALE <= floor_sqrt(v.magnified().norm_sq()),
{
    let w = v.magnified();
    let n = w.norm_sq();
    let short: int = 100_000_000_000;
    assert(SHORT * SHORT == short * short) by (nonlinear_arith)
        requires
            short == 100_000_000_000,
            SHORT == 100_000_000_000,
    ;
    assert(v.norm_sq() >= 1) by (nonlinear_arith)
        requires
            v.x != 0 || v.y != 0,
            v.norm_sq() == v.x * v.x + v.y * v.y,
    ;
    assert(n >= 10_000_000 * 10_000_000) by (nonlinear_arith)
        requires
            v.norm_sq() >= 1,
            v.norm_sq() == v.x * v.x + v.y * v.y,
            n == if v.norm_sq() < short * short {
                (v.x * 10_000_000) * (v.x * 10_000_000) + (v.y * 10_000_000) * (v.y * 10_000_000)
            } else {
                v.norm_sq()
            },
            short == 100_000_000_000,
    ;
    lemma_floor_sqrt_exists(n);
    let s = floor_sqrt(n);
    assert(s >= 10_000_000) by (nonlinear_arith)
        requires
            0 <= s,
            n < (s + 1) * (s + 1),
            n >= 10_000_000 * 10_000_000,
    ;
}

/// Normalising a non-zero vector gives a vector whose length is within one
/// raw unit of 1.0, with components no larger than 1.0 and in the same
/// half-planes.
pub proof fn lemma_unit_is_near_unit(v: Vector)
    requires
        v != Vector::zero(),
    ensures
        v.unit().is_near_unit(),
        v.unit().within(SCALE as int),
        0 <= v.x ==> 0 <= v.unit().x,
        0 <= v.y ==> 0 <= v.unit().y,
{
    lemma_magnified_length(v);
    let w = v.magnified();
    let s = floor_sqrt(w.norm_sq());
    lemma_quotient_norm(w.x, w.y, s);
    assert(w.x * w.x <= w.norm_sq() && w.y * w.y <= w.norm_sq()) by (nonlinear_arith)
        requires
            w.norm_sq() == w.x * w.x + w.y * w.y,
    ;
    lemma_component_of_unit(w.x, s, w.norm_sq());
    lemma_component_of_unit(w.y, s, w.norm_sq());
    assert(0 <= v.x ==> 0 <= w.x) by (nonlinear_arith)
        requires
            w.x == v.x || w.x == v.x * 10_000_000,
    ;
    assert(0 <= v.y ==> 0 <= w.y) by (nonlinear_arith)
        requires
            w.y == v.y || w.y == v.y * 10_000_000,
    ;
}

/// The unit vector of a non-zero vector of machine integers.
pub fn unit_vector(x: i64, y: i64) -> (u: (i64, i64))
    requires
        x != 0 || y != 0,
    ensures
        vector_of(u) == vector_of((x, y)).unit(),
{
    let ghost v = vector_of((x, y));
    let short: u128 = 10_000_000_000_000_000_000_000;
    let xw: i128 = x as i128;
    let yw: i128 = y as i128;
    assert(0 <= xw * xw <= 0x4000_0000_0000_0000_0000_0000_0000_0000) by (nonlinear_arith)
        requires
            -0x8000_0000_0000_0000 <= xw <= 0x8000_0000_0000_0000,
    ;
    assert(0 <= yw * yw <= 0x4000_0000_0000_0000_0000_0000_0000_0000) by (nonlinear_arith)
        requires
            -0x8000_0000_0000_0000 <= yw <= 0x8000_0000_0000_0000,
    ;
    assert(SHORT * SHORT == 10_000_000_000_000_000_000_000) by (nonlinear_arith)
        requires
            SHORT == 100_000_000_000,
    ;
    let n: u128 = ((xw * xw) as u128) + ((yw * yw) as u128);
    let mut wx: i128 = xw;
    let mut wy: i128 = yw;
    let mut w: u128 = n;
    if n < short {
        assert(-100_000_000_000 < xw < 100_000_000_000 && -100_000_000_000 < yw
            < 100_000_000_000) by (nonlinear_arith)
            requires
                xw * xw + yw * yw < 10_000_000_000_000_000_000_000,
        ;
        wx = xw * 10_000_000;
        wy = yw * 10_000_000;
        assert(0 <= wx * wx <= 1_000_000_000_000_000_000 * 1_000_000_000_000_000_000)
            by (nonlinear_arith)
            requires
                -1_000_000_000_000_000_000 <= wx <= 1_000_000_000_000_000_000,
        ;
        assert(0 <= wy * wy <= 1_000_000_000_000_000_000 * 1_000_000_000_000_000_000)
            by (nonlinear_arith)
            requires
                -1_000_000_000_000_000_000 <= wy <= 1_000_000_000_000_000_000,
        ;
        w = ((wx * wx) as u128) + ((wy * wy) as u128);
    }
    let s: i128 = isqrt(w) as i128;
    proof {
        lemma_magnified_length(v);
        lemma_unit_is_near_unit(v);
    }
    let ux: i128 = nearest_div(wx * 1_000_000, s);
    let uy: i128 = nearest_div(wy * 1_000_000, s);
    (ux as i64, uy as i64)
}

/// The sum of a sequence of vectors.
pub open spec fn sum(s: Seq<Vector>) -> Vector
    decreases s.len(),
{
    if s.len() == 0 {
        Vector::zero()
    } else {
        sum(s.drop_last()).plus(s.last())
    }
}

/// The arithmetic mean of a sequence of vectors, each component rounded
/// down. Meaningful for a non-empty sequence.
pub open spec fn mean(s: Seq<Vector>) -> Vector {
    Vector { x: sum(s).x / (s.len() as int), y: sum(s).y / (s.len() as int) }
}

/// Appending a vector adds it to the sum.
pub proof fn lemma_sum_push(s: Seq<Vector>, v: Vector)
    ensures
        sum(s.push(v)) == sum(s).plus(v),
{
    assert(s.push(v).drop_last() =~= s);
}

/// The sum of vectors within a bound lies within the bound times their number.
pub proof fn lemma_sum_within(s: Seq<Vector>, bound: int)
    requires
        forall|i: int| 0 <= i < s.len() ==> (#[trigger] s[i]).within(bound),
    ensures
        sum(s).within(s.len() * bound),
    decreases s.len(),
{
    if s.len() > 0 {
        let rest = s.drop_last();
        lemma_sum_within(rest, bound);
        assert(s.len() * bound == rest.len() * bound + bound) by (nonlinear_arith)
            requires
                s.len() == rest.len() + 1,
        ;
    } else {
        assert(s.len() * bound == 0) by (nonlinear_arith)
            requires
                s.len() == 0,
        ;
    }
}

/// The mean of vectors within a bound lies within that bound.
pub proof fn lemma_mean_within(s: Seq<Vector>, bound: int)
    requires
        0 < s.len(),
        forall|i: int| 0 <= i < s.len() ==> (#[trigger] s[i]).within(bound),
    ensures
        mean(s).within(bound),
{
    lemma_sum_within(s, bound);
    let n = s.len() as int;
    lemma_quotient_within(sum(s).x, n, bound);
    lemma_quotient_within(sum(s).y, n, bound);
}

/// Moving every vector by `d` moves the sum by `d` times their number.
pub proof fn lemma_sum_translated(s: Seq<Vector>, t: Seq<Vector>, d: Vector)
    requires
        s.len() == t.len(),
        forall|i: int| 0 <= i < s.len() ==> #[trigger] t[i] == s[i].plus(d),
    ensures
        sum(t).x == sum(s).x + s.len() * d.x,
        sum(t).y == sum(s).y + s.len() * d.y,
    decreases s.len(),
{
    if s.len() > 0 {
        let s0 = s.drop_last();
        let t0 = t.drop_last();
        lemma_sum_translated(s0, t0, d);
        assert(s.len() * d.x == s0.len() * d.x + d.x) by (nonlinear_arith)
            requires
                s.len() == s0.len() + 1,
        ;
        assert(s.len() * d.y == s0.len() * d.y + d.y) by (nonlinear_arith)
            requires
                s.len() == s0.len() + 1,
        ;
    } else {
        assert(s.len() * d.x == 0 && s.len() * d.y == 0) by (nonlinear_arith)
            requires
                s.len() == 0,
        ;
    }
}

/// Moving every vector of a non-empty sequence by `d` moves the mean by
/// exactly `d`: rounding down commutes with adding a whole number.
pub proof fn lemma_mean_translated(s: Seq<Vector>, t: Seq<Vector>, d: Vector)
    requires
        0 < s.len(),
        s.len() == t.len(),
        forall|i: int| 0 <= i < s.len() ==> #[trigger] t[i] == s[i].plus(d),
    ensures
        mean(t) == mean(s).plus(d),
{
    lemma_sum_translated(s, t, d);
    let n = s.len() as int;
    lemma_quotient_shifted(sum(s).x, n, d.x);
    lemma_quotient_shifted(sum(s).y, n, d.y);
}

/// Adding `n * d` to a total adds `d` to its rounded-down quotient by `n`.
proof fn lemma_quotient_shifted(total: int, n: int, d: int)
    requires
        0 < n,
    ensures
        (total + n * d) / n == total / n + d,
{
    let q = total / n;
    let r = total % n;
    lemma_fundamental_div_mod(total, n);
    lemma_mod_bound(total, n);
    assert(total + n * d == (q + d) * n + r) by (nonlinear_arith)
        requires
            total == n * q + r,
    ;
    lemma_fundamental_div_mod_converse(total + n * d, n, q + d, r);
}

/// The mean of a single vector is that vector.
pub proof fn lemma_mean_single(v: Vector)
    ensures
        mean(seq![v]) == v,
{
    let s = seq![v];
    assert(sum(s.drop_last()) == Vector::zero());
    assert(sum(s) == v);
}

/// Squaring one component of a scaled vector: the square of `m * u / SCALE`
/// rounded down differs from the square of `m * u / SCALE` by no more than
/// the rounding allows, where `m * u` lies within `reach`.
pub proof fn lemma_scaled_component(m: int, u: int, reach: int)
    requires
        -reach <= m * u <= reach,
    ensures
        -(2 * reach * 1_000_000) <= 1_000_000_000_000 * (fixed_product(m, u) * fixed_product(m, u))
            - (m * m) * (u * u),
        1_000_000_000_000 * (fixed_product(m, u) * fixed_product(m, u)) - (m * m) * (u * u) <= 2
            * reach * 1_000_000 + 1_000_000_000_000,
{
    let a = m * u;
    let q = fixed_product(m, u);
    let r = a % 1_000_000;
    lemma_fundamental_div_mod(a, 1_000_000);
    let k = 1_000_000 * q;
    assert(k * k == a * a - 2 * (a * r) + r * r) by (nonlinear_arith)
        requires
            a == k + r,
    ;
    assert(k * k == 1_000_000_000_000 * (q * q)) by (nonlinear_arith)
        requires
            k == 1_000_000 * q,
    ;
    assert(a * a == (m * m) * (u * u)) by (nonlinear_arith)
        requires
            a == m * u,
    ;
    assert(-(reach * 1_000_000) <= a * r <= reach * 1_000_000) by (nonlinear_arith)
        requires
            -reach <= a <= reach,
            0 <= r < 1_000_000,
    ;
    assert(0 <= r * r <= 1_000_000_000_000) by (nonlinear_arith)
        requires
            0 <= r < 1_000_000,
    ;
}

/// The scalar product of two vectors is at most the product of bounds on
/// their lengths.
proof fn lemma_dot_at_most(a: Vector, b: Vector, la: int, lb: int)
    requires
        0 <= la,
        0 <= lb,
        a.norm_sq() <= la * la,
        b.norm_sq() <= lb * lb,
    ensures
        a.dot(b) <= la * lb,
{
    let t = a.dot(b);
    let na = a.norm_sq();
    let nb = b.norm_sq();
    lemma_dot_squared(a, b);
    assert(0 <= na && 0 <= nb) by (nonlinear_arith)
        requires
            na == a.x * a.x + a.y * a.y,
            nb == b.x * b.x + b.y * b.y,
    ;
    let bound = la * lb;
    assert(na * nb <= bound * bound) by (nonlinear_arith)
        requires
            0 <= na <= la * la,
            0 <= nb <= lb * lb,
            bound == la * lb,
    ;
    assert(t <= bound) by (nonlinear_arith)
        requires
            t * t <= bound * bound,
            0 <= bound,
            bound == la * lb,
            0 <= la,
            0 <= lb,
    ;
}

/// The sum of vectors no longer than `r` is no longer than `r` times their
/// number.
pub proof fn lemma_sum_norm(s: Seq<Vector>, r: int)
    requires
        0 <= r,
        forall|i: int| 0 <= i < s.len() ==> (#[trigger] s[i]).norm_sq() <= r * r,
    ensures
        sum(s).norm_sq() <= (s.len() * r) * (s.len() * r),
    decreases s.len(),
{
    if s.len() == 0 {
        assert(sum(s).norm_sq() == 0) by (nonlinear_arith)
            requires
                sum(s) == Vector::zero(),
        ;
        assert(0 <= (s.len() * r) * (s.len() * r)) by (nonlinear_arith);
    } else {
        let rest = s.drop_last();
        let d = s.last();
        let k = rest.len() as int;
        lemma_sum_norm(rest, r);
        let t = sum(rest);
        assert(0 <= k * r) by (nonlinear_arith)
            requires
                0 <= k,
                0 <= r,
        ;
        lemma_dot_at_most(t, d, k * r, r);
        let w = sum(s);
        assert(w.norm_sq() == t.norm_sq() + 2 * t.dot(d) + d.norm_sq()) by (nonlinear_arith)
            requires
                w.x == t.x + d.x,
                w.y == t.y + d.y,
        ;
        assert(((k + 1) * r) * ((k + 1) * r) == (k * r) * (k * r) + 2 * ((k * r) * r) + r * r)
            by (nonlinear_arith);
    }
}

} // verus!
