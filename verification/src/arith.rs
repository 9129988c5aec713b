//! Exact integer arithmetic helpers: truncating division and floor square
//! root, with the lemmas about them that the octree contracts rely on.

use vstd::prelude::*;

verus! {

/// Truncating (round-toward-zero) division, the semantics of the library's
/// centroid and force computations. For `a >= 0` it agrees with Euclidean
/// division; for `a < 0` the magnitude is floor(|a| / b).
pub open spec fn divt(a: int, b: int) -> int {
    if a >= 0 {
        a / b
    } else {
        -((-a) / b)
    }
}

/// Truncating division extended to negative divisors, matching Rust's `/`.
pub open spec fn divq(a: int, b: int) -> int {
    if b >= 0 {
        divt(a, b)
    } else {
        -divt(a, -b)
    }
}

/// `r` is the floor square root of `n`.
pub open spec fn is_sqrt(n: int, r: int) -> bool {
    &&& 0 <= r
    &&& r * r <= n
    &&& n < (r + 1) * (r + 1)
}

/// The floor square root of a non-negative integer.
pub open spec fn sqrt_floor(n: int) -> int {
    choose|r: int| #[trigger] is_sqrt(n, r)
}

/// Every non-negative integer has a floor square root.
pub proof fn lemma_sqrt_exists(n: int)
    requires
        n >= 0,
    ensures
        is_sqrt(n, sqrt_floor(n)),
    decreases n,
{
    if n == 0 {
        assert(is_sqrt(0, 0));
    } else {
        lemma_sqrt_exists(n - 1);
        let r = choose|r: int| #[trigger] is_sqrt(n - 1, r);
        if n < (r + 1) * (r + 1) {
            assert(is_sqrt(n, r));
        } else {
            assert(n == (r + 1) * (r + 1));
            assert((r + 1) * (r + 1) < (r + 2) * (r + 2)) by (nonlinear_arith)
                requires r >= 0;
            assert(is_sqrt(n, r + 1));
        }
    }
}

/// The floor square root is unique.
pub proof fn lemma_sqrt_unique(n: int, r1: int, r2: int)
    requires
        is_sqrt(n, r1),
        is_sqrt(n, r2),
    ensures
        r1 == r2,
{
    assert(r1 < r2 ==> (r1 + 1) * (r1 + 1) <= r2 * r2) by (nonlinear_arith)
        requires 0 <= r1, 0 <= r2;
    assert(r2 < r1 ==> (r2 + 1) * (r2 + 1) <= r1 * r1) by (nonlinear_arith)
        requires 0 <= r1, 0 <= r2;
}

/// Floor square root of a 128-bit integer, by binary search.
pub fn isqrt(n: u128) -> (r: u128)
    requires
        n < 0x4000_0000_0000_0000_0000_0000_0000_0000u128,
    ensures
        is_sqrt(n as int, r as int),
        r == sqrt_floor(n as int),
{
    let mut lo: u128 = 0;
    let mut hi: u128 = 0x8000_0000_0000_0000u128;
    while lo + 1 < hi
        invariant
            lo < hi,
            hi <= 0x8000_0000_0000_0000u128,
            (lo as int) * (lo as int) <= n as int,
            (n as int) < (hi as int) * (hi as int),
        decreases hi - lo,
    {
        let mid: u128 = lo + (hi - lo) / 2;
        assert(lo < mid < hi);
        assert((mid as int) * (mid as int) < 85070591730234615865843651857942052864int) by (nonlinear_arith)
            requires mid < 9223372036854775808u128;
        if mid * mid <= n {
            lo = mid;
        } else {
            hi = mid;
        }
    }
    proof {
        lemma_sqrt_exists(n as int);
        lemma_sqrt_unique(n as int, lo as int, sqrt_floor(n as int));
    }
    lo
}

/// Truncating division of a 128-bit integer by a positive divisor.
pub fn div_trunc(a: i128, b: i128) -> (q: i128)
    requires
        b >= 1,
        a > i128::MIN,
    ensures
        q == divt(a as int, b as int),
{
    if a >= 0 {
        let q: u128 = (a as u128) / (b as u128);
        assert(q <= a as u128) by (nonlinear_arith)
            requires q == (a as u128) / (b as u128), b as u128 >= 1;
        q as i128
    } else {
        let m: u128 = ((-a) as u128) / (b as u128);
        assert(m <= (-a) as u128) by (nonlinear_arith)
            requires m == ((-a) as u128) / (b as u128), b as u128 >= 1;
        -(m as i128)
    }
}

/// Product of two 128-bit integers whose mathematical product is in range.
pub fn mul_i128(a: i128, b: i128) -> (r: i128)
    requires
        i128::MIN <= a * b <= i128::MAX,
    ensures
        r == a * b,
{
    a * b
}

/// Magnitude bound for truncating division: if `|a| <= c * b` then
/// `|divt(a, b)| <= c`.
pub proof fn lemma_divt_le(a: int, b: int, c: int)
    requires
        b >= 1,
        c >= 0,
        -(c * b) <= a <= c * b,
    ensures
        -c <= divt(a, b) <= c,
{
    if a >= 0 {
        assert(a / b <= c) by (nonlinear_arith)
            requires b >= 1, c >= 0, a <= c * b, a >= 0;
        assert(a / b >= 0) by (nonlinear_arith)
            requires b >= 1, a >= 0;
    } else {
        assert((-a) / b <= c) by (nonlinear_arith)
            requires b >= 1, c >= 0, -a <= c * b, -a >= 0;
        assert((-a) / b >= 0) by (nonlinear_arith)
            requires b >= 1, -a >= 0;
    }
}

/// A floor square root is below any `b` whose square exceeds `n`.
pub proof fn lemma_sqrt_lt(n: int, r: int, b: int)
    requires
        is_sqrt(n, r),
        0 <= b,
        n < b * b,
    ensures
        r < b,
{
    assert(b <= r ==> b * b <= r * r) by (nonlinear_arith)
        requires 0 <= b;
}

} // verus!
