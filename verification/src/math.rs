//! Exact integer square and fifth roots, and small multiplication lemmas.
//!
//! The planner's tonal model works in fixed-point arithmetic; these roots give
//! it exact, fully specified values where the continuous model calls for
//! `sqrt` and for the fractional power of the gamma transfer curve.
use vstd::prelude::*;

verus! {

/// The square of an integer.
pub open spec fn sq(r: int) -> int {
    r * r
}

/// The fifth power of an integer.
pub open spec fn pow5(r: int) -> int {
    r * r * r * r * r
}

/// Multiplying within bounds stays within the product of the bounds.
pub proof fn lemma_mul_le(a: int, b: int, x: int, y: int)
    by (nonlinear_arith)
    requires
        0 <= a <= x,
        0 <= b <= y,
    ensures
        a * b <= x * y,
{
}

/// Squaring is strictly monotone on non-negative integers.
pub proof fn lemma_sq_lt(a: int, b: int)
    by (nonlinear_arith)
    requires
        0 <= a < b,
    ensures
        sq(a) < sq(b),
{
}

/// The fifth power is strictly monotone on non-negative integers.
pub proof fn lemma_pow5_lt(a: int, b: int)
    by (nonlinear_arith)
    requires
        0 <= a < b,
    ensures
        pow5(a) < pow5(b),
{
}

/// The fifth power splits into the product of two squares and the base.
pub proof fn lemma_pow5_decomp(m: int)
    by (nonlinear_arith)
    ensures
        pow5(m) == ((m * m) * (m * m)) * m,
{
}

/// The integer square root as a total specification function: the greatest
/// `r` with `sq(r) <= n`, and zero for negative input.
pub open spec fn isqrt_spec(n: int) -> int
    decreases n,
{
    if n <= 0 {
        0
    } else {
        let r = isqrt_spec(n - 1);
        if sq(r + 1) <= n {
            r + 1
        } else {
            r
        }
    }
}

/// `isqrt_spec` is exactly the integer square root.
pub proof fn lemma_isqrt_spec_char(n: int)
    requires
        n >= 0,
    ensures
        0 <= isqrt_spec(n),
        sq(isqrt_spec(n)) <= n,
        n < sq(isqrt_spec(n) + 1),
    decreases n,
{
    if n == 0 {
    } else {
        lemma_isqrt_spec_char(n - 1);
        let r = isqrt_spec(n - 1);
        if sq(r + 1) <= n {
            assert(sq(r + 1) < sq(r + 2)) by (nonlinear_arith)
                requires
                    r >= 0,
            ;
        }
    }
}

/// Bounds on a product of possibly negative factors.
pub proof fn lemma_mul_bounds_signed(a: int, b: int, x: int, y: int)
    by (nonlinear_arith)
    requires
        -x <= a <= x,
        -y <= b <= y,
        0 <= x,
        0 <= y,
    ensures
        -(x * y) <= a * b <= x * y,
{
}

/// A square is never negative.
pub proof fn lemma_sq_nonneg(a: int)
    by (nonlinear_arith)
    ensures
        sq(a) >= 0,
{
}

/// The integer fifth root as a total specification function: the greatest
/// `r` with `pow5(r) <= n`, and zero for negative input.
pub open spec fn iroot5_spec(n: int) -> int
    decreases n,
{
    if n <= 0 {
        0
    } else {
        let r = iroot5_spec(n - 1);
        if pow5(r + 1) <= n {
            r + 1
        } else {
            r
        }
    }
}

/// `iroot5_spec` is exactly the integer fifth root.
pub proof fn lemma_iroot5_spec_char(n: int)
    requires
        n >= 0,
    ensures
        0 <= iroot5_spec(n),
        pow5(iroot5_spec(n)) <= n,
        n < pow5(iroot5_spec(n) + 1),
    decreases n,
{
    if n == 0 {
    } else {
        lemma_iroot5_spec_char(n - 1);
        let r = iroot5_spec(n - 1);
        if pow5(r + 1) <= n {
            assert(pow5(r + 1) < pow5(r + 2)) by (nonlinear_arith)
                requires
                    r >= 0,
            ;
        }
    }
}

/// The integer square root is unique: only one value of `r` satisfies
/// `sq(r) <= n < sq(r + 1)`.
pub proof fn lemma_isqrt_unique(n: int, r1: int, r2: int)
    requires
        0 <= r1,
        0 <= r2,
        sq(r1) <= n < sq(r1 + 1),
        sq(r2) <= n < sq(r2 + 1),
    ensures
        r1 == r2,
{
    if r1 < r2 {
        lemma_sq_lt(r1 + 1, r2 + 1);
        assert(sq(r1 + 1) <= sq(r2)) by (nonlinear_arith)
            requires
                0 <= r1 + 1 <= r2,
        ;
    }
    if r2 < r1 {
        lemma_sq_lt(r2 + 1, r1 + 1);
        assert(sq(r2 + 1) <= sq(r1)) by (nonlinear_arith)
            requires
                0 <= r2 + 1 <= r1,
        ;
    }
}

/// The integer fifth root is unique in the same way.
pub proof fn lemma_iroot5_unique(n: int, r1: int, r2: int)
    requires
        0 <= r1,
        0 <= r2,
        pow5(r1) <= n < pow5(r1 + 1),
        pow5(r2) <= n < pow5(r2 + 1),
    ensures
        r1 == r2,
{
    if r1 < r2 {
        assert(pow5(r1 + 1) <= pow5(r2)) by (nonlinear_arith)
            requires
                0 <= r1 + 1 <= r2,
        ;
    }
    if r2 < r1 {
        assert(pow5(r2 + 1) <= pow5(r1)) by (nonlinear_arith)
            requires
                0 <= r2 + 1 <= r1,
        ;
    }
}

/// Integer square root by binary search: the unique `r` with
/// `r * r <= n < (r + 1) * (r + 1)`.
pub fn isqrt_u128(n: u128) -> (r: u64)
    requires
        n < 0x4000_0000_0000_0000_0000_0000_0000_0000,
    ensures
        sq(r as int) <= n,
        n < sq(r as int + 1),
{
    let mut lo: u64 = 0;
    let mut hi: u64 = 0x8000_0000_0000_0000;
    proof {
        assert(sq(0x8000_0000_0000_0000) == 0x4000_0000_0000_0000_0000_0000_0000_0000);
    }
    while lo + 1 < hi
        invariant
            lo < hi <= 0x8000_0000_0000_0000,
            sq(lo as int) <= n,
            n < sq(hi as int),
        decreases hi - lo,
    {
        let mid: u64 = lo + (hi - lo) / 2;
        proof {
            lemma_mul_le(mid as int, mid as int, u64::MAX as int, u64::MAX as int);
        }
        let m2: u128 = (mid as u128) * (mid as u128);
        if m2 <= n {
            lo = mid;
        } else {
            hi = mid;
        }
    }
    lo
}

/// Integer fifth root by binary search: the unique `r` with
/// `pow5(r) <= n < pow5(r + 1)`.  The input is capped so that the root fits
/// in 16 bits, which covers the gamma transfer's working range.
pub fn iroot5_u128(n: u128) -> (r: u32)
    requires
        n < pow5(0x1_0001),
    ensures
        pow5(r as int) <= n,
        n < pow5(r as int + 1),
        r <= 0x1_0000,
{
    let mut lo: u32 = 0;
    let mut hi: u32 = 0x1_0001;
    proof {
        assert(pow5(0x1_0001) < 0x1_0000_0000_0000_0000_0000_0000_0000_0000);
    }
    while lo + 1 < hi
        invariant
            lo < hi <= 0x1_0001,
            pow5(lo as int) <= n,
            n < pow5(hi as int),
        decreases hi - lo,
    {
        let mid: u32 = lo + (hi - lo) / 2;
        proof {
            assert(pow5(mid as int) <= pow5(0x1_0000)) by (nonlinear_arith)
                requires
                    0 <= mid <= 0x1_0000,
            ;
            assert(pow5(0x1_0000) < 0x1_0000_0000_0000_0000_0000_0000_0000_0000);
        }
        let m = mid as u128;
        proof {
            lemma_mul_le(m as int, m as int, 0x1_0000, 0x1_0000);
        }
        let m2: u128 = m * m;
        proof {
            lemma_mul_le(m2 as int, m2 as int, 0x1_0000_0000, 0x1_0000_0000);
        }
        let m4: u128 = m2 * m2;
        proof {
            lemma_mul_le(m4 as int, m as int, 0x1_0000_0000_0000_0000, 0x1_0000);
        }
        let m5: u128 = m4 * m;
        proof {
            lemma_pow5_decomp(m as int);
        }
        assert(m5 == pow5(mid as int));
        if m5 <= n {
            lo = mid;
        } else {
            hi = mid;
        }
    }
    lo
}

} // verus!
