//! Fixed-point constants and integer square root.

use vstd::prelude::*;

verus! {

/// Fixed-point scale. One unit is 1/10_000 of a dollar, of a probability,
/// or of a dimensionless rate. A price of 0.5 is `5_000`.
pub const SCALE: u64 = 10_000;

/// Largest quantity, in contracts, that orders, trades and fills may carry.
/// Keeps every product of a price and a quantity far from overflow.
pub const QTY_MAX: u64 = 1_000_000_000_000;

/// Cash amounts handed to the engine must stay within this bound so that
/// scaling a cash amount by `SCALE`, or moving one fill or payout, can
/// never overflow an `i128`.
pub const MONEY_CAP: i128 = 1_000_000_000_000_000_000_000_000_000_000_000;

/// Lower clamp for impact-adjusted fill prices (0.01 scaled).
pub const MIN_PRICE: u64 = 100;

/// Upper clamp for impact-adjusted fill prices (0.99 scaled).
pub const MAX_PRICE: u64 = 9_900;

/// Floor for the price variance `p * (1 - p)` in the spread factor
/// (0.01 scaled); caps the spread multiplier at 25 times.
pub const VAR_FLOOR: u64 = 100;

/// Numerator of the spread factor (0.25 scaled).
pub const SPREAD_NUM: u64 = 2_500;

/// Floor for the average trade size in the size factor
/// (0.01 contracts, scaled).
pub const SIZE_FLOOR: u64 = 100;

/// `r` is the integer square root of `x`, rounded down.
pub open spec fn is_sqrt(x: int, r: int) -> bool {
    0 <= r && r * r <= x && x < (r + 1) * (r + 1)
}

/// The integer square root of a non-negative `x`, rounded down.
pub open spec fn spec_isqrt(x: int) -> int {
    choose|r: int| is_sqrt(x, r)
}

pub proof fn lemma_sqrt_unique(x: int, r1: int, r2: int)
    requires
        is_sqrt(x, r1),
        is_sqrt(x, r2),
    ensures
        r1 == r2,
{
    if r1 < r2 {
        assert((r1 + 1) * (r1 + 1) <= r2 * r2) by (nonlinear_arith)
            requires
                0 <= r1,
                r1 < r2,
        ;
    }
    if r2 < r1 {
        assert((r2 + 1) * (r2 + 1) <= r1 * r1) by (nonlinear_arith)
            requires
                0 <= r2,
                r2 < r1,
        ;
    }
}

pub proof fn lemma_isqrt_of(x: int, r: int)
    requires
        is_sqrt(x, r),
    ensures
        spec_isqrt(x) == r,
{
    assert(is_sqrt(x, spec_isqrt(x))) by {
        assert(exists|s: int| is_sqrt(x, s));
    }
    lemma_sqrt_unique(x, spec_isqrt(x), r);
}

/// Integer square root, rounded down.
pub fn isqrt(x: u128) -> (r: u64)
    ensures
        is_sqrt(x as int, r as int),
        r as int == spec_isqrt(x as int),
{
    let mut lo: u64 = 0;
    let mut hi: u64 = u64::MAX;
    proof {
        assert((hi as int + 1) * (hi as int + 1) == u128::MAX as int + 1);
    }
    while lo < hi
        invariant
            lo <= hi,
            (lo as int) * (lo as int) <= x as int,
            (x as int) < (hi as int + 1) * (hi as int + 1),
        decreases hi - lo,
    {
        let mid: u64 = lo + (hi - lo) / 2 + 1;
        proof {
            assert((mid as int) * (mid as int) <= u128::MAX as int) by (nonlinear_arith)
                requires
                    0 <= mid <= u64::MAX,
            ;
        }
        if (mid as u128) * (mid as u128) <= x {
            lo = mid;
        } else {
            hi = mid - 1;
        }
    }
    proof {
        lemma_isqrt_of(x as int, lo as int);
    }
    lo
}

} // verus!
