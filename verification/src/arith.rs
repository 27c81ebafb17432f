//! Exact integer square roots.
//!
//! Edge costs are nearest-integer roundings of scaled Euclidean distances.
//! Everything is computed exactly over integers, starting from a floor
//! integer square root.

use vstd::prelude::*;

verus! {

/// Floor integer square root: the largest `m` with `m * m <= n`.
pub open spec fn isqrt_spec(n: nat) -> nat
    decreases n,
{
    if n == 0 {
        0
    } else {
        let r = isqrt_spec((n - 1) as nat);
        if (r + 1) * (r + 1) <= n {
            r + 1
        } else {
            r
        }
    }
}

/// `isqrt_spec` is bracketed by the two neighboring squares.
pub proof fn lemma_isqrt_spec_bounds(n: nat)
    ensures
        isqrt_spec(n) * isqrt_spec(n) <= n,
        n < (isqrt_spec(n) + 1) * (isqrt_spec(n) + 1),
    decreases n,
{
    if n == 0 {
        assert(isqrt_spec(n) == 0);
        assert(n < (isqrt_spec(n) + 1) * (isqrt_spec(n) + 1)) by (nonlinear_arith)
            requires n == 0 && isqrt_spec(n) == 0;
    } else {
        lemma_isqrt_spec_bounds((n - 1) as nat);
        let r = isqrt_spec((n - 1) as nat);
        assert(r * r <= n - 1);
        assert(n - 1 < (r + 1) * (r + 1));
        if (r + 1) * (r + 1) <= n {
            assert(isqrt_spec(n) == r + 1);
            assert(isqrt_spec(n) * isqrt_spec(n) <= n) by (nonlinear_arith)
                requires isqrt_spec(n) == r + 1 && (r + 1) * (r + 1) <= n;
            assert(n < (isqrt_spec(n) + 1) * (isqrt_spec(n) + 1)) by (nonlinear_arith)
                requires isqrt_spec(n) == r + 1 && n <= (r + 1) * (r + 1);
        } else {
            assert(isqrt_spec(n) == r);
            assert(isqrt_spec(n) * isqrt_spec(n) <= n) by (nonlinear_arith)
                requires isqrt_spec(n) == r && r * r <= n - 1 && n >= 1;
            assert(n < (isqrt_spec(n) + 1) * (isqrt_spec(n) + 1)) by (nonlinear_arith)
                requires isqrt_spec(n) == r && n < (r + 1) * (r + 1);
        }
    }
}

/// Any `r` bracketed by the two neighboring squares is the floor square root.
pub proof fn lemma_isqrt_unique(n: nat, r: nat)
    requires
        r * r <= n,
        n < (r + 1) * (r + 1),
    ensures
        r == isqrt_spec(n),
{
    lemma_isqrt_spec_bounds(n);
    let s = isqrt_spec(n);
    if r < s {
        assert((r + 1) * (r + 1) <= s * s) by (nonlinear_arith)
            requires r + 1 <= s;
        assert(false);
    }
    if s < r {
        assert((s + 1) * (s + 1) <= r * r) by (nonlinear_arith)
            requires s + 1 <= r;
        assert(false);
    }
}

/// Squaring is monotone, so floor square roots are monotone.
pub proof fn lemma_isqrt_monotone(m: nat, n: nat)
    requires
        m <= n,
    ensures
        isqrt_spec(m) <= isqrt_spec(n),
{
    lemma_isqrt_spec_bounds(m);
    lemma_isqrt_spec_bounds(n);
    let a = isqrt_spec(m);
    let b = isqrt_spec(n);
    if b < a {
        assert((b + 1) * (b + 1) <= a * a) by (nonlinear_arith)
            requires b + 1 <= a;
        assert(false);
    }
}

/// An upper bound on a square bounds the floor square root.
pub proof fn lemma_isqrt_le(n: nat, b: nat)
    requires
        n < (b + 1) * (b + 1),
    ensures
        isqrt_spec(n) <= b,
{
    lemma_isqrt_spec_bounds(n);
    let s = isqrt_spec(n);
    if s > b {
        assert((b + 1) * (b + 1) <= s * s) by (nonlinear_arith)
            requires b + 1 <= s;
        assert(false);
    }
}

/// The floor square root of a perfect square.
pub proof fn lemma_isqrt_square(k: nat)
    ensures
        isqrt_spec(k * k) == k,
{
    assert(k * k < (k + 1) * (k + 1)) by (nonlinear_arith);
    lemma_isqrt_unique(k * k, k);
}

/// Floor integer square root, by binary search.
pub fn isqrt64(n: u64) -> (r: u64)
    requires
        n <= 0x4000_0000_0000_0000,
    ensures
        r as nat == isqrt_spec(n as nat),
        r <= 0x8000_0000,
        (r as int) * (r as int) <= n as int,
        (n as int) < (r as int + 1) * (r as int + 1),
{
    let mut lo: u64 = 0;
    let mut hi: u64 = 0x8000_0000;
    proof {
        assert((0x8000_0000u64 as int + 1) * (0x8000_0000u64 as int + 1) > 0x4000_0000_0000_0000)
            by (nonlinear_arith);
    }
    while lo < hi
        invariant
            lo <= hi <= 0x8000_0000,
            n <= 0x4000_0000_0000_0000,
            (lo as int) * (lo as int) <= n as int,
            (n as int) < (hi as int + 1) * (hi as int + 1),
        decreases hi - lo,
    {
        let mid = lo + (hi - lo + 1) / 2;
        proof {
            assert((mid as int) * (mid as int) <= 0x4000_0000_0000_0000) by (nonlinear_arith)
                requires mid <= 0x8000_0000;
        }
        if mid * mid <= n {
            lo = mid;
        } else {
            hi = mid - 1;
        }
    }
    proof {
        lemma_isqrt_unique(n as nat, lo as nat);
    }
    lo
}

} // verus!
