use vstd::prelude::*;

verus! {

/// Inputs below this bound have a floor square root below `2^62`.
pub const ISQRT_LIMIT: i128 = 0x1000_0000_0000_0000_0000_0000_0000_0000;

/// `s` is the floor of the square root of `n`.
pub open spec fn is_floor_sqrt(n: int, s: int) -> bool {
    0 <= s && s * s <= n < (s + 1) * (s + 1)
}

/// The floor of the square root of a non-negative integer.
pub open spec fn floor_sqrt(n: int) -> int {
    choose|s: int| is_floor_sqrt(n, s)
}

/// A number has at most one floor square root.
pub proof fn lemma_floor_sqrt_unique(n: int, s1: int, s2: int)
    requires
        is_floor_sqrt(n, s1),
        is_floor_sqrt(n, s2),
    ensures
        s1 == s2,
{
    if s1 < s2 {
        assert((s1 + 1) * (s1 + 1) <= s2 * s2) by (nonlinear_arith)
            requires 0 <= s1, s1 + 1 <= s2;
    } else if s2 < s1 {
        assert((s2 + 1) * (s2 + 1) <= s1 * s1) by (nonlinear_arith)
            requires 0 <= s2, s2 + 1 <= s1;
    }
}

/// Every non-negative integer has a floor square root.
pub proof fn lemma_floor_sqrt_exists(n: int)
    requires
        0 <= n,
    ensures
        is_floor_sqrt(n, floor_sqrt(n)),
    decreases n,
{
    if n == 0 {
        assert(is_floor_sqrt(0, 0));
    } else {
        lemma_floor_sqrt_exists(n - 1);
        let s = floor_sqrt(n - 1);
        if (s + 1) * (s + 1) <= n {
            assert((s + 1) * (s + 1) < (s + 2) * (s + 2)) by (nonlinear_arith)
                requires 0 <= s;
            assert(is_floor_sqrt(n, s + 1));
        } else {
            assert(is_floor_sqrt(n, s));
        }
    }
}

/// The floor square root of a perfect square is its root.
pub proof fn lemma_floor_sqrt_square(k: int)
    requires
        0 <= k,
    ensures
        floor_sqrt(k * k) == k,
{
    assert(k * k < (k + 1) * (k + 1)) by (nonlinear_arith)
        requires 0 <= k;
    assert(is_floor_sqrt(k * k, k));
    lemma_floor_sqrt_unique(k * k, k, floor_sqrt(k * k));
}

/// Floor square root by bisection.
pub fn isqrt(n: i128) -> (s: i128)
    requires
        0 <= n < ISQRT_LIMIT,
    ensures
        s == floor_sqrt(n as int),
        is_floor_sqrt(n as int, s as int),
        0 <= s < 0x4000_0000_0000_0000,
{
    let mut lo: i128 = 0;
    let mut hi: i128 = 0x4000_0000_0000_0000;
    assert(hi * hi == ISQRT_LIMIT);
    while hi - lo > 1
        invariant
            0 <= lo < hi <= 0x4000_0000_0000_0000,
            lo * lo <= n,
            n < hi * hi,
        decreases hi - lo,
    {
        let mid = lo + (hi - lo) / 2;
        assert(mid * mid <= 0x4000_0000_0000_0000 * 0x4000_0000_0000_0000) by (nonlinear_arith)
            requires 0 <= mid <= 0x4000_0000_0000_0000;
        if mid * mid <= n {
            lo = mid;
        } else {
            hi = mid;
        }
    }
    assert(is_floor_sqrt(n as int, lo as int));
    proof {
        lemma_floor_sqrt_unique(n as int, lo as int, floor_sqrt(n as int));
    }
    lo
}

} // verus!
