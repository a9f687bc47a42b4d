//! Fixed-point arithmetic helpers shared by the steering rules: truncating
//! division, a rounded-up integer square root, and magnitude capping.

use vstd::prelude::*;
use vstd::arithmetic::div_mod::lemma_fundamental_div_mod;
use vstd::arithmetic::div_mod::lemma_div_nonincreasing;
use vstd::arithmetic::div_mod::lemma_div_pos_is_pos;
use vstd::arithmetic::div_mod::lemma_div_is_strictly_smaller;

verus! {

/// One world unit is this many fixed-point steps; every position, velocity
/// and steering term in the crate is an integer at this scale.
pub const SCALE: i64 = 1000;

/// Division that rounds toward zero (the rounding of the executable helpers
/// below), defined for a positive divisor.
pub open spec fn trunc_div(a: int, d: int) -> int
    recommends
        d > 0,
{
    if a >= 0 {
        a / d
    } else {
        -((-a) / d)
    }
}

/// Truncating division is an odd function of the dividend.
pub proof fn lemma_trunc_div_neg(a: int, d: int)
    requires
        d > 0,
    ensures
        trunc_div(-a, d) == -trunc_div(a, d),
{
}

/// The quotient times the divisor stays between zero and the dividend.
pub proof fn lemma_trunc_div_times_d(a: int, d: int)
    requires
        d > 0,
    ensures
        a >= 0 ==> 0 <= trunc_div(a, d) * d <= a,
        a < 0 ==> a <= trunc_div(a, d) * d <= 0,
{
    if a >= 0 {
        lemma_fundamental_div_mod(a, d);
        lemma_div_pos_is_pos(a, d);
        assert(0 <= (a / d) * d <= a) by (nonlinear_arith)
            requires
                d > 0,
                a == d * (a / d) + a % d,
                0 <= a % d < d,
                a / d >= 0,
        ;
    } else {
        let b = -a;
        lemma_fundamental_div_mod(b, d);
        lemma_div_pos_is_pos(b, d);
        assert(0 <= (b / d) * d <= b) by (nonlinear_arith)
            requires
                d > 0,
                b == d * (b / d) + b % d,
                0 <= b % d < d,
                b / d >= 0,
        ;
        let q = b / d;
        assert((-q) * d == -(q * d)) by (nonlinear_arith);
    }
}

/// A bound on the dividend gives the matching bound on the quotient.
pub proof fn lemma_trunc_div_bounded(a: int, d: int, c: int)
    requires
        d > 0,
        c >= 0,
        -c * d <= a <= c * d,
    ensures
        -c <= trunc_div(a, d) <= c,
{
    if a >= 0 {
        lemma_div_pos_is_pos(a, d);
        lemma_fundamental_div_mod(a, d);
        assert(a / d <= c) by (nonlinear_arith)
            requires
                d > 0,
                c >= 0,
                a <= c * d,
                a == d * (a / d) + a % d,
                0 <= a % d < d,
        ;
    } else {
        let b = -a;
        assert((-c) * d == -(c * d)) by (nonlinear_arith);
        lemma_div_pos_is_pos(b, d);
        lemma_fundamental_div_mod(b, d);
        assert(b / d <= c) by (nonlinear_arith)
            requires
                d > 0,
                c >= 0,
                b <= c * d,
                b == d * (b / d) + b % d,
                0 <= b % d < d,
        ;
    }
}

/// Executable truncating division on 64-bit values.
pub fn div_trunc64(a: i64, d: i64) -> (r: i64)
    requires
        d > 0,
        a > i64::MIN,
    ensures
        r as int == trunc_div(a as int, d as int),
{
    if a >= 0 {
        let q: u64 = (a as u64) / (d as u64);
        proof {
            lemma_div_nonincreasing(a as int, d as int);
            lemma_div_pos_is_pos(a as int, d as int);
        }
        q as i64
    } else {
        let b: i64 = -a;
        let q: u64 = (b as u64) / (d as u64);
        proof {
            lemma_div_nonincreasing(b as int, d as int);
            lemma_div_pos_is_pos(b as int, d as int);
        }
        -(q as i64)
    }
}

/// Executable truncating division on 128-bit values.
pub fn div_trunc128(a: i128, d: i128) -> (r: i128)
    requires
        d > 0,
        a > i128::MIN,
    ensures
        r as int == trunc_div(a as int, d as int),
{
    if a >= 0 {
        let q: u128 = (a as u128) / (d as u128);
        proof {
            lemma_div_nonincreasing(a as int, d as int);
            lemma_div_pos_is_pos(a as int, d as int);
        }
        q as i128
    } else {
        let b: i128 = -a;
        let q: u128 = (b as u128) / (d as u128);
        proof {
            lemma_div_nonincreasing(b as int, d as int);
            lemma_div_pos_is_pos(b as int, d as int);
        }
        -(q as i128)
    }
}

/// Helper for `sqrt_up`: the least value at or above `r` whose square
/// reaches `n`.
pub open spec fn sqrt_up_from(n: int, r: int) -> int
    decreases n - r,
{
    if r * r >= n {
        r
    } else if r < n {
        sqrt_up_from(n, r + 1)
    } else {
        0
    }
}

/// The least nonnegative integer whose square is at least `n` (zero when
/// `n` is not positive): the rounding-up square root used for normalising
/// and capping vectors.
pub open spec fn sqrt_up(n: int) -> int {
    sqrt_up_from(n, 0)
}

proof fn lemma_sqrt_up_from(n: int, r: int)
    requires
        0 <= r,
        r >= 1 ==> (r - 1) * (r - 1) < n,
    ensures
        r <= sqrt_up_from(n, r),
        sqrt_up_from(n, r) * sqrt_up_from(n, r) >= n,
        sqrt_up_from(n, r) >= 1 ==> (sqrt_up_from(n, r) - 1) * (sqrt_up_from(n, r) - 1) < n,
    decreases n - r,
{
    if r * r >= n {
    } else if r < n {
        lemma_sqrt_up_from(n, r + 1);
    } else {
        assert(false) by (nonlinear_arith)
            requires
                r >= 0,
                r >= n,
                r * r < n,
        ;
    }
}

/// The defining properties of `sqrt_up`.
pub proof fn lemma_sqrt_up_props(n: int)
    ensures
        sqrt_up(n) >= 0,
        sqrt_up(n) * sqrt_up(n) >= n,
        sqrt_up(n) >= 1 ==> (sqrt_up(n) - 1) * (sqrt_up(n) - 1) < n,
        n >= 1 ==> sqrt_up(n) >= 1,
{
    lemma_sqrt_up_from(n, 0);
    let s = sqrt_up(n);
    if n >= 1 && s == 0 {
        assert(false) by (nonlinear_arith)
            requires
                s == 0,
                s * s >= n,
                n >= 1,
        ;
    }
}

/// Any nonnegative value with the two defining properties is `sqrt_up(n)`.
pub proof fn lemma_sqrt_up_unique(n: int, r: int)
    requires
        0 <= r,
        r * r >= n,
        r >= 1 ==> (r - 1) * (r - 1) < n,
    ensures
        r == sqrt_up(n),
{
    lemma_sqrt_up_props(n);
    let s = sqrt_up(n);
    if r < s {
        assert(false) by (nonlinear_arith)
            requires
                0 <= r,
                r < s,
                s >= 1,
                (s - 1) * (s - 1) < n,
                r * r >= n,
        ;
    } else if s < r {
        assert(false) by (nonlinear_arith)
            requires
                0 <= s,
                s < r,
                r >= 1,
                (r - 1) * (r - 1) < n,
                s * s >= n,
        ;
    }
}

/// Executable rounding-up square root, by binary search.
pub fn isqrt_up(n: u128) -> (r: u128)
    requires
        n <= 0x4000_0000_0000_0000_0000_0000_0000_0000u128,
    ensures
        r as int == sqrt_up(n as int),
        r <= 0x8000_0000_0000_0000u128,
{
    let mut lo: u128 = 0;
    let mut hi: u128 = 0x8000_0000_0000_0000;
    proof {
        assert((hi as int) * (hi as int) >= n as int) by (nonlinear_arith)
            requires
                hi == 0x8000_0000_0000_0000u128,
                n <= 0x4000_0000_0000_0000_0000_0000_0000_0000u128,
        ;
    }
    while lo < hi
        invariant
            lo <= hi <= 0x8000_0000_0000_0000u128,
            (hi as int) * (hi as int) >= n as int,
            lo >= 1 ==> (lo as int - 1) * (lo as int - 1) < n as int,
        decreases hi - lo,
    {
        let mid: u128 = lo + (hi - lo) / 2;
        proof {
            lemma_div_nonincreasing((hi - lo) as int, 2);
            if hi - lo >= 1 {
                lemma_div_is_strictly_smaller((hi - lo) as int, 2);
            }
            assert(mid * mid <= 0x4000_0000_0000_0000_0000_0000_0000_0000u128) by (nonlinear_arith)
                requires
                    mid <= 0x8000_0000_0000_0000u128,
            ;
        }
        if mid * mid >= n {
            hi = mid;
        } else {
            lo = mid + 1;
        }
    }
    proof {
        lemma_sqrt_up_unique(n as int, lo as int);
    }
    lo
}

/// Squared Euclidean magnitude of a plane vector.
pub open spec fn mag2(x: int, y: int) -> int {
    x * x + y * y
}

/// Rescale a vector down to magnitude `cap` when it is longer than that,
/// rounding each component toward zero; shorter vectors pass unchanged.
pub open spec fn limit_spec(x: int, y: int, cap: int) -> (int, int) {
    if mag2(x, y) > cap * cap {
        let l = sqrt_up(mag2(x, y));
        (trunc_div(x * cap, l), trunc_div(y * cap, l))
    } else {
        (x, y)
    }
}

/// The capped vector really is no longer than `cap`.
pub proof fn lemma_limit_within_cap(x: int, y: int, cap: int)
    requires
        cap > 0,
    ensures
        mag2(limit_spec(x, y, cap).0, limit_spec(x, y, cap).1) <= cap * cap,
{
    let m = mag2(x, y);
    assert(x * x >= 0 && y * y >= 0 && cap * cap >= 1) by (nonlinear_arith)
        requires
            cap >= 1,
    ;
    if m > cap * cap {
        let l = sqrt_up(m);
        lemma_sqrt_up_props(m);
        let qx = trunc_div(x * cap, l);
        let qy = trunc_div(y * cap, l);
        lemma_trunc_div_times_d(x * cap, l);
        lemma_trunc_div_times_d(y * cap, l);
        assert(qx * qx + qy * qy <= cap * cap) by (nonlinear_arith)
            requires
                l >= 1,
                l * l >= x * x + y * y,
                x * cap >= 0 ==> 0 <= qx * l <= x * cap,
                x * cap < 0 ==> x * cap <= qx * l <= 0,
                y * cap >= 0 ==> 0 <= qy * l <= y * cap,
                y * cap < 0 ==> y * cap <= qy * l <= 0,
        ;
    } else {
        assert(x * x <= m && y * y <= m);
    }
}

/// Each component of the capped vector is at most `cap` in absolute value.
pub proof fn lemma_limit_components(x: int, y: int, cap: int)
    requires
        cap > 0,
    ensures
        -cap <= limit_spec(x, y, cap).0 <= cap,
        -cap <= limit_spec(x, y, cap).1 <= cap,
{
    lemma_limit_within_cap(x, y, cap);
    let r = limit_spec(x, y, cap);
    assert(-cap <= r.0 <= cap && -cap <= r.1 <= cap) by (nonlinear_arith)
        requires
            cap > 0,
            r.0 * r.0 + r.1 * r.1 <= cap * cap,
    ;
}

} // verus!
