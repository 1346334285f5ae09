//! Fixed-point arithmetic: the global scale, saturating cost operations,
//! and an exact integer square root.
//!
//! A fixed-point value represents the real number `v / SCALE`. Costs are
//! `u64` values where `COST_INF` plays the role of positive infinity: the
//! saturating operations never overflow, they clamp at `COST_INF`.

use vstd::prelude::*;

verus! {

/// One whole unit in fixed-point representation (micro-units).
pub const SCALE: u64 = 1_000_000;

/// `floor(sqrt(2) * SCALE)`: the diagonal step length in fixed point.
pub const SQRT2_SCALED: u64 = 1_414_213;

/// The cost value that stands for positive infinity.
pub const COST_INF: u64 = u64::MAX;

/// Bound on the magnitude of height-field and cost-grid entries
/// (one million whole units in fixed point).
pub const VAL_LIMIT: i64 = 1_000_000_000_000;

/// Saturating interpretation of `a + b` over costs.
pub open spec fn sat_add_spec(a: int, b: int) -> int {
    if a + b >= COST_INF { COST_INF as int } else { a + b }
}

/// Saturating cost addition: clamps at `COST_INF` instead of overflowing.
pub fn sat_add(a: u64, b: u64) -> (r: u64)
    ensures
        r == sat_add_spec(a as int, b as int),
{
    if a >= COST_INF - b {
        COST_INF
    } else {
        a + b
    }
}

/// Mathematical floor of the square root of a non-negative integer,
/// defined by recursion so that it is usable in contracts.
pub open spec fn sqrt_floor(x: nat) -> nat
    decreases x,
{
    if x == 0 {
        0
    } else {
        let r = sqrt_floor((x - 1) as nat);
        if (r + 1) * (r + 1) <= x {
            r + 1
        } else {
            r
        }
    }
}

/// `sqrt_floor` is exactly characterised by `r * r <= x < (r + 1) * (r + 1)`.
pub proof fn lemma_sqrt_floor_bounds(x: nat)
    ensures
        sqrt_floor(x) * sqrt_floor(x) <= x,
        x < (sqrt_floor(x) + 1) * (sqrt_floor(x) + 1),
    decreases x,
{
    if x == 0 {
        assert(sqrt_floor(0) == 0);
        assert(x < (sqrt_floor(x) + 1) * (sqrt_floor(x) + 1)) by (nonlinear_arith)
            requires x == 0, sqrt_floor(x) == 0
        ;
    } else {
        lemma_sqrt_floor_bounds((x - 1) as nat);
        let r = sqrt_floor((x - 1) as nat);
        if (r + 1) * (r + 1) <= x {
            assert(sqrt_floor(x) == r + 1);
            assert(x - 1 < (r + 1) * (r + 1));
            assert((r + 1) * (r + 1) < (r + 2) * (r + 2)) by (nonlinear_arith);
            assert(x < (r + 2) * (r + 2));
        } else {
            assert(sqrt_floor(x) == r);
            assert(r * r <= x - 1);
        }
    }
}

/// Any `r` within the square-root bounds equals `sqrt_floor(x)`.
pub proof fn lemma_sqrt_floor_unique(x: nat, r: nat)
    requires
        r * r <= x,
        x < (r + 1) * (r + 1),
    ensures
        r == sqrt_floor(x),
{
    lemma_sqrt_floor_bounds(x);
    let s = sqrt_floor(x);
    if r < s {
        assert((r + 1) * (r + 1) <= s * s) by (nonlinear_arith)
            requires r + 1 <= s
        ;
    }
    if s < r {
        assert((s + 1) * (s + 1) <= r * r) by (nonlinear_arith)
            requires s + 1 <= r
        ;
    }
}

/// The diagonal step constant is exactly the fixed-point square root of
/// two, rounded down.
pub proof fn lemma_sqrt2_scaled_exact()
    ensures
        SQRT2_SCALED == sqrt_floor((2 * SCALE * SCALE) as nat),
{
    assert((1414213int) * 1414213 <= 2 * 1000000 * 1000000
        && 2 * 1000000 * 1000000 < (1414214int) * 1414214) by (nonlinear_arith);
    lemma_sqrt_floor_unique((2 * SCALE * SCALE) as nat, SQRT2_SCALED as nat);
}

/// Exact integer square root, by binary search.
pub fn isqrt(x: u128) -> (r: u64)
    ensures
        r == sqrt_floor(x as nat),
{
    let mut lo: u64 = 0;
    let mut hi: u64 = u64::MAX;
    proof {
        assert((hi as int + 1) * (hi as int + 1) > x as int) by (nonlinear_arith)
            requires hi == u64::MAX, x <= u128::MAX
        ;
    }
    while lo < hi
        invariant
            lo <= hi,
            (lo as int) * (lo as int) <= x as int,
            (x as int) < (hi as int + 1) * (hi as int + 1),
        decreases hi - lo,
    {
        let mid: u64 = (((lo as u128) + (hi as u128) + 1) / 2) as u64;
        proof {
            assert((mid as int) * (mid as int) <= u128::MAX) by (nonlinear_arith)
                requires mid <= u64::MAX
            ;
        }
        if (mid as u128) * (mid as u128) <= x {
            lo = mid;
        } else {
            hi = mid - 1;
        }
    }
    proof {
        lemma_sqrt_floor_unique(x as nat, lo as nat);
    }
    lo
}

} // verus!
