//! Fixed-point arithmetic: a length is a whole number of ticks, `SCALE` ticks to the unit.
use vstd::prelude::*;

verus! {

/// Ticks in one unit of length.
pub const SCALE: i64 = 1_000_000_000;

/// The comparison tolerance shared by every equivalence test, in ticks.
pub const EPSILON: i64 = 10;

/// The tolerance at the scale of a product of two unit normals (`EPSILON * SCALE`).
pub const CROSS_TOL: i64 = 10_000_000_000;

/// Largest component that the vector operations accept, in ticks.
pub const COORD_MAX: i64 = 4_398_046_511_104;

/// Floor of a square root.
pub open spec fn is_sqrt_floor(n: int, r: int) -> bool {
    0 <= r && r * r <= n && n < (r + 1) * (r + 1)
}

/// The floor of the square root of `n` (zero for a negative `n`).
pub open spec fn sqrt_floor(n: int) -> int {
    if n < 0 { 0 } else { choose|r: int| #[trigger] is_sqrt_floor(n, r) }
}

pub proof fn lemma_sqrt_floor_unique(n: int, r1: int, r2: int)
    requires
        is_sqrt_floor(n, r1),
        is_sqrt_floor(n, r2),
    ensures
        r1 == r2,
{
    if r1 < r2 {
        assert((r1 + 1) * (r1 + 1) <= r2 * r2) by (nonlinear_arith)
            requires 0 <= r1, r1 + 1 <= r2;
    } else if r2 < r1 {
        assert((r2 + 1) * (r2 + 1) <= r1 * r1) by (nonlinear_arith)
            requires 0 <= r2, r2 + 1 <= r1;
    }
}

/// Floor of the square root of `n`, by bisection.
pub fn isqrt(n: u128) -> (r: u64)
    requires
        n < 0x4000_0000_0000_0000_0000_0000_0000_0000,
    ensures
        r as int == sqrt_floor(n as int),
        is_sqrt_floor(n as int, r as int),
{
    let mut lo: u128 = 0;
    let mut hi: u128 = 0x8000_0000_0000_0000;
    assert(n < hi * hi);
    while hi - lo > 1
        invariant
            lo < hi <= 0x8000_0000_0000_0000,
            lo * lo <= n,
            n < hi * hi,
        decreases hi - lo,
    {
        let mid: u128 = lo + (hi - lo) / 2;
        assert(mid * mid <= 0x8000_0000_0000_0000 * 0x8000_0000_0000_0000) by (nonlinear_arith)
            requires mid <= 0x8000_0000_0000_0000;
        if mid * mid <= n {
            lo = mid;
        } else {
            hi = mid;
        }
    }
    assert(hi == lo + 1);
    proof {
        assert(is_sqrt_floor(n as int, lo as int));
        lemma_sqrt_floor_unique(n as int, lo as int, choose|r: int| #[trigger] is_sqrt_floor(n as int, r));
    }
    lo as u64
}

/// Floor division by a positive divisor: the quotient rounded towards negative infinity.
pub fn floor_div(n: i128, d: i128) -> (r: i128)
    requires
        d > 0,
        n > i128::MIN,
    ensures
        r == n / d,
{
    if n >= 0 {
        n / d
    } else {
        let m: i128 = -n - 1;
        let q: i128 = m / d;
        proof {
            let qq = m / d;
            let rr = m % d;
            assert(m == d * qq + rr && 0 <= rr < d) by {
                vstd::arithmetic::div_mod::lemma_fundamental_div_mod(m as int, d as int);
            }
            assert(n == d * (-qq - 1) + (d - 1 - rr)) by (nonlinear_arith)
                requires m == d * qq + rr, n == -m - 1;
            vstd::arithmetic::div_mod::lemma_fundamental_div_mod_converse(
                n as int, d as int, -qq - 1, d - 1 - rr);
        }
        -q - 1
    }
}

/// Division by a non-zero divisor, rounded towards negative infinity.
pub open spec fn quotient(n: int, d: int) -> int {
    if d > 0 { n / d } else { (-n) / (-d) }
}

/// Division by a non-zero divisor of either sign, rounded towards negative infinity.
pub fn div_nonzero(n: i128, d: i128) -> (r: i128)
    requires
        d != 0,
        d > i128::MIN,
        n > i128::MIN,
    ensures
        r == quotient(n as int, d as int),
{
    if d > 0 { floor_div(n, d) } else { floor_div(-n, -d) }
}

} // verus!
