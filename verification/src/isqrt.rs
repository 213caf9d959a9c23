//! Integer square root, used to compare normal directions against a
//! relative tolerance without leaving exact arithmetic.

use vstd::prelude::*;

verus! {

/// `r` is the floor of the square root of `x`.
pub open spec fn is_sqrt_floor(x: int, r: int) -> bool {
    0 <= r && r * r <= x && x < (r + 1) * (r + 1)
}

/// The floor of the square root of `x` (meaningful for `x >= 0`).
pub open spec fn sqrt_floor(x: int) -> int {
    choose|r: int| is_sqrt_floor(x, r)
}

/// The floor of the square root is unique.
pub proof fn lemma_sqrt_floor_unique(x: int, r1: int, r2: int)
    by (nonlinear_arith)
    requires
        is_sqrt_floor(x, r1),
        is_sqrt_floor(x, r2),
    ensures
        r1 == r2,
{
}

/// A nonnegative integer has a floor square root.
pub proof fn lemma_sqrt_floor_exists(x: int)
    requires
        0 <= x,
    ensures
        is_sqrt_floor(x, sqrt_floor(x)),
        0 <= sqrt_floor(x),
    decreases x,
{
    if x == 0 {
        assert(is_sqrt_floor(0, 0));
    } else {
        lemma_sqrt_floor_exists(x - 1);
        let r = sqrt_floor(x - 1);
        if (r + 1) * (r + 1) <= x {
            assert(x == (r + 1) * (r + 1));
            assert((r + 2) * (r + 2) > x) by (nonlinear_arith)
                requires
                    0 <= r,
                    x == (r + 1) * (r + 1),
            ;
            assert(is_sqrt_floor(x, r + 1));
        } else {
            assert(is_sqrt_floor(x, r));
        }
    }
}

/// Relates a square root witness to any square bound on its argument.
pub proof fn lemma_sqrt_le(x: int, r: int, b: int)
    by (nonlinear_arith)
    requires
        is_sqrt_floor(x, r),
        0 <= b,
        x <= b * b,
    ensures
        r <= b,
{
}

/// Floor square root by binary search.
pub fn int_sqrt(x: u128) -> (r: u64)
    ensures
        is_sqrt_floor(x as int, r as int),
        r as int == sqrt_floor(x as int),
{
    let mut lo: u128 = 0;
    let mut hi: u128 = 0x1_0000_0000_0000_0000;
    if x < hi {
        // For small inputs the upper end can start at x + 1.
        hi = x + 1;
    }
    assert((hi as int) * (hi as int) > x as int) by (nonlinear_arith)
        requires
            hi as int == 0x1_0000_0000_0000_0000 && x < 0x1_0000_0000_0000_0000
                * 0x1_0000_0000_0000_0000 || (hi as int == x as int + 1 && 0 <= x as int),
    ;
    while lo + 1 < hi
        invariant
            0 <= lo < hi <= 0x1_0000_0000_0000_0000,
            (lo as int) * (lo as int) <= x as int,
            (hi as int) * (hi as int) > x as int,
        decreases hi - lo,
    {
        let mid = lo + (hi - lo) / 2;
        assert((mid as int) * (mid as int) <= 0xffff_ffff_ffff_ffff * 0xffff_ffff_ffff_ffff)
            by (nonlinear_arith)
            requires
                0 <= mid as int <= 0xffff_ffff_ffff_ffff,
        ;
        if mid * mid <= x {
            lo = mid;
        } else {
            hi = mid;
        }
    }
    proof {
        lemma_sqrt_floor_exists(x as int);
        lemma_sqrt_floor_unique(x as int, lo as int, sqrt_floor(x as int));
    }
    lo as u64
}

} // verus!
