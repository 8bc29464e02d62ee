//! Fixed-point scalars.
//!
//! Every length, speed and time step of the simulation is a signed integer
//! count of millionths: the integer `1_500_000` stands for the real number 1.5.
//! Products and means round towards negative infinity and normalised
//! vectors to the nearest raw unit, so that results are exact functions of
//! their inputs on every machine.

use vstd::arithmetic::div_mod::lemma_div_is_ordered;
use vstd::arithmetic::div_mod::lemma_div_multiples_vanish;
use vstd::arithmetic::div_mod::lemma_fundamental_div_mod;
use vstd::arithmetic::div_mod::lemma_fundamental_div_mod_converse;
use vstd::arithmetic::div_mod::lemma_mod_bound;
use vstd::prelude::*;

verus! {

/// Raw units per whole unit: the fixed-point representation of 1.0.
pub const SCALE: i64 = 1_000_000;

/// Largest magnitude of a position or velocity component that the
/// operations accept, in raw units (one million whole units).
pub const LIMIT: i64 = 1_000_000_000_000;

/// Largest magnitude of a time step, in raw units (one hundred whole units).
pub const STEP_LIMIT: i64 = 100_000_000;

/// Largest magnitude of a steering increment component, in raw units.
pub const INCREMENT_LIMIT: i64 = 10_000_000_000_000_000;

/// The fixed-point product of two fixed-point numbers, rounded down.
pub open spec fn fixed_product(a: int, b: int) -> int {
    (a * b) / (SCALE as int)
}

/// Multiplying by 1.0 changes nothing, and multiplying by zero gives zero.
pub proof fn lemma_product_identities(x: int)
    ensures
        fixed_product(SCALE as int, x) == x,
        fixed_product(x, SCALE as int) == x,
        fixed_product(0, x) == 0,
        fixed_product(x, 0) == 0,
{
    lemma_div_multiples_vanish(x, SCALE as int);
    assert(x * SCALE == SCALE * x) by (nonlinear_arith);
    assert(0 * x == 0 && x * 0 == 0) by (nonlinear_arith);
}

/// A product of bounded factors is bounded by the product of the bounds.
pub proof fn lemma_product_bounds(a: int, b: int, bound_a: int, bound_b: int)
    requires
        -bound_a <= a <= bound_a,
        -bound_b <= b <= bound_b,
    ensures
        (-(bound_a * bound_b)) / (SCALE as int) <= fixed_product(a, b),
        fixed_product(a, b) <= (bound_a * bound_b) / (SCALE as int),
{
    assert(-(bound_a * bound_b) <= a * b <= bound_a * bound_b) by (nonlinear_arith)
        requires
            -bound_a <= a <= bound_a,
            -bound_b <= b <= bound_b,
    ;
    lemma_div_is_ordered(-(bound_a * bound_b), a * b, SCALE as int);
    lemma_div_is_ordered(a * b, bound_a * bound_b, SCALE as int);
}

/// A total within `n * bound` has a rounded-down quotient by `n` within `bound`.
pub proof fn lemma_quotient_within(total: int, n: int, bound: int)
    requires
        0 < n,
        -(n * bound) <= total <= n * bound,
    ensures
        -bound <= total / n <= bound,
{
    let q = total / n;
    let r = total % n;
    lemma_fundamental_div_mod(total, n);
    lemma_mod_bound(total, n);
    assert(-bound <= q <= bound) by (nonlinear_arith)
        requires
            0 < n,
            total == n * q + r,
            0 <= r < n,
            -(n * bound) <= total <= n * bound,
    ;
}

/// Whether `s` is the integer square root of `n`, rounded down.
pub open spec fn is_floor_sqrt(n: int, s: int) -> bool {
    0 <= s && s * s <= n && n < (s + 1) * (s + 1)
}

/// The integer square root of `n`, rounded down.
pub open spec fn floor_sqrt(n: int) -> int {
    choose|s: int| is_floor_sqrt(n, s)
}

/// A number has at most one rounded-down square root.
pub proof fn lemma_floor_sqrt_unique(n: int, s: int, t: int)
    requires
        is_floor_sqrt(n, s),
        is_floor_sqrt(n, t),
    ensures
        s == t,
{
    if s < t {
        assert((s + 1) * (s + 1) <= t * t) by (nonlinear_arith)
            requires
                0 <= s,
                s + 1 <= t,
        ;
    } else if t < s {
        assert((t + 1) * (t + 1) <= s * s) by (nonlinear_arith)
            requires
                0 <= t,
                t + 1 <= s,
        ;
    }
}

/// Every natural number has a rounded-down square root, and `floor_sqrt` is it.
pub proof fn lemma_floor_sqrt_exists(n: int)
    requires
        0 <= n,
    ensures
        is_floor_sqrt(n, floor_sqrt(n)),
    decreases n,
{
    if n == 0 {
        assert(is_floor_sqrt(0, 0));
    } else {
        lemma_floor_sqrt_exists(n - 1);
        let s = floor_sqrt(n - 1);
        if (s + 1) * (s + 1) <= n {
            assert((s + 2) * (s + 2) > n) by (nonlinear_arith)
                requires
                    0 <= s,
                    n - 1 < (s + 1) * (s + 1),
            ;
            assert(is_floor_sqrt(n, s + 1));
        } else {
            assert(is_floor_sqrt(n, s));
        }
    }
}

/// `s` is the rounded-down square root of `n` exactly when it meets the
/// defining inequalities.
pub proof fn lemma_floor_sqrt_is(n: int, s: int)
    requires
        is_floor_sqrt(n, s),
    ensures
        floor_sqrt(n) == s,
{
    lemma_floor_sqrt_unique(n, s, floor_sqrt(n));
}

/// Division rounded towards negative infinity.
pub fn floor_div(a: i128, b: i128) -> (q: i128)
    requires
        0 < b,
        i128::MIN < a,
    ensures
        q == a / b,
{
    if a >= 0 {
        a / b
    } else {
        let m: i128 = -a;
        let t: i128 = m / b;
        let r: i128 = m % b;
        proof {
            lemma_fundamental_div_mod(m as int, b as int);
            assert(b * t == t * b) by (nonlinear_arith);
        }
        if r == 0 {
            proof {
                assert(a == (-t) * b + 0) by (nonlinear_arith)
                    requires
                        -a == t * b,
                ;
                lemma_fundamental_div_mod_converse(a as int, b as int, -t as int, 0);
            }
            -t
        } else {
            proof {
                assert(a == (-t - 1) * b + (b - r)) by (nonlinear_arith)
                    requires
                        -a == t * b + r,
                ;
                lemma_fundamental_div_mod_converse(
                    a as int,
                    b as int,
                    -t - 1 as int,
                    b - r as int,
                );
            }
            -t - 1
        }
    }
}

/// The quotient of `a` by a positive `d`, rounded to the nearest integer,
/// halves upwards.
pub open spec fn nearest_quotient(a: int, d: int) -> int {
    (2 * a + d) / (2 * d)
}

/// The nearest quotient misses the exact one by no more than a half.
pub proof fn lemma_nearest_quotient(a: int, d: int)
    requires
        0 < d,
    ensures
        -d <= 2 * (a - d * nearest_quotient(a, d)) < d,
{
    let q = nearest_quotient(a, d);
    let r = (2 * a + d) % (2 * d);
    lemma_fundamental_div_mod(2 * a + d, 2 * d);
    lemma_mod_bound(2 * a + d, 2 * d);
    assert((2 * d) * q == 2 * (d * q)) by (nonlinear_arith);
}

/// Division rounded to the nearest integer, halves upwards.
pub fn nearest_div(a: i128, d: i128) -> (q: i128)
    requires
        0 < d <= 0x1_0000_0000_0000_0000,
        -0x1000_0000_0000_0000_0000_0000 <= a <= 0x1000_0000_0000_0000_0000_0000,
    ensures
        q == nearest_quotient(a as int, d as int),
{
    floor_div(2 * a + d, 2 * d)
}

/// The fixed-point product of `a` and `b`, where it fits.
pub fn fixed_multiply(a: i64, b: i64) -> (r: i64)
    requires
        i64::MIN <= fixed_product(a as int, b as int) <= i64::MAX,
    ensures
        r == fixed_product(a as int, b as int),
{
    let wide: i128 = (a as i128) * (b as i128);
    let q: i128 = floor_div(wide, SCALE as i128);
    q as i64
}

/// The integer square root of `n`, rounded down.
pub fn isqrt(n: u128) -> (s: u64)
    ensures
        s == floor_sqrt(n as int),
        is_floor_sqrt(n as int, s as int),
{
    let mut lo: u128 = 0;
    let mut hi: u128 = 0x1_0000_0000_0000_0000;
    assert(n < 0x1_0000_0000_0000_0000 * 0x1_0000_0000_0000_0000) by (nonlinear_arith)
        requires
            n <= u128::MAX,
    ;
    while hi - lo > 1
        invariant
            lo < hi <= 0x1_0000_0000_0000_0000,
            lo * lo <= n,
            n < hi * hi,
        decreases hi - lo,
    {
        let mid: u128 = lo + (hi - lo) / 2;
        assert(mid * mid <= 0xffff_ffff_ffff_ffff * 0xffff_ffff_ffff_ffff) by (nonlinear_arith)
            requires
                0 <= mid <= 0xffff_ffff_ffff_ffff,
        ;
        if mid * mid <= n {
            lo = mid;
        } else {
            hi = mid;
        }
    }
    proof {
        lemma_floor_sqrt_is(n as int, lo as int);
    }
    lo as u64
}

} // verus!
