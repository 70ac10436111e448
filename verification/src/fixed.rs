//! Fixed-point scalars: an `i64` counts millionths, and results saturate at
//! `LIMIT` on either side of zero.

use vstd::prelude::*;

verus! {

/// The fixed-point representation of 1.0.
pub const ONE: i64 = 1_000_000;

/// The largest magnitude that an operation of this library returns.
pub const LIMIT: i64 = 1_000_000_000_000_000;

/// `v` brought into the range from `-LIMIT` to `LIMIT`.
pub open spec fn clamp(v: int) -> int {
    if v < -LIMIT {
        -(LIMIT as int)
    } else if v > LIMIT {
        LIMIT as int
    } else {
        v
    }
}

/// The quotient of `a` by a positive `b`, rounded toward zero.
pub open spec fn quot(a: int, b: int) -> int {
    if a >= 0 {
        a / b
    } else {
        -((-a) / b)
    }
}

/// The fixed-point product: `a * b` scaled back by `ONE`, saturated.
pub open spec fn fmul(a: int, b: int) -> int {
    clamp(quot(a * b, ONE as int))
}

/// `r` is the integer square root of `n`: the largest integer whose square
/// does not exceed `n`.
pub open spec fn is_root(n: int, r: int) -> bool {
    0 <= r && r * r <= n && n < (r + 1) * (r + 1)
}

/// The integer square root of a non-negative `n` (0 for a negative one).
pub open spec fn isqrt(n: int) -> int {
    if n <= 0 {
        0
    } else {
        choose|r: int| is_root(n, r)
    }
}

/// Squaring is monotone on the non-negative integers.
pub proof fn lemma_square_monotone(a: int, b: int)
    requires
        0 <= a <= b,
    ensures
        a * a <= b * b,
{
    assert(a * a <= b * b) by (nonlinear_arith)
        requires
            0 <= a <= b,
    ;
}

/// An integer has at most one integer square root.
pub proof fn lemma_root_unique(n: int, r: int, s: int)
    requires
        is_root(n, r),
        is_root(n, s),
    ensures
        r == s,
{
    if r < s {
        lemma_square_monotone(r + 1, s);
    } else if s < r {
        lemma_square_monotone(s + 1, r);
    }
}

/// Every non-negative integer has an integer square root.
pub proof fn lemma_root_exists(n: int)
    requires
        0 <= n,
    ensures
        exists|r: int| is_root(n, r),
    decreases n,
{
    if n == 0 {
        assert(is_root(0, 0));
    } else {
        let m = n - 1;
        lemma_root_exists(m);
        let r = choose|r: int| is_root(m, r);
        if n < (r + 1) * (r + 1) {
            assert(is_root(n, r));
        } else {
            assert((r + 2) * (r + 2) > (r + 1) * (r + 1)) by (nonlinear_arith)
                requires
                    0 <= r,
            ;
            assert(is_root(n, r + 1));
        }
    }
}

/// `isqrt(n)` is the root of `n`, and any root of `n` is `isqrt(n)`.
pub proof fn lemma_isqrt(n: int)
    requires
        0 <= n,
    ensures
        is_root(n, isqrt(n)),
        forall|r: int| is_root(n, r) ==> r == isqrt(n),
{
    if n == 0 {
        assert(is_root(0, 0));
        assert forall|r: int| is_root(0, r) implies r == 0 by {
            lemma_root_unique(0, r, 0);
        }
    } else {
        lemma_root_exists(n);
        let s = isqrt(n);
        assert forall|r: int| is_root(n, r) implies r == s by {
            lemma_root_unique(n, r, s);
        }
    }
}

/// The integer square root is monotone.
pub proof fn lemma_isqrt_monotone(m: int, n: int)
    requires
        0 <= m <= n,
    ensures
        isqrt(m) <= isqrt(n),
{
    lemma_isqrt(m);
    lemma_isqrt(n);
    if isqrt(n) < isqrt(m) {
        lemma_square_monotone(isqrt(n) + 1, isqrt(m));
    }
}

/// The integer square root of a square is its base.
pub proof fn lemma_isqrt_square(a: int)
    requires
        0 <= a,
    ensures
        isqrt(a * a) == a,
{
    assert(0 <= a * a && a * a < (a + 1) * (a + 1)) by (nonlinear_arith)
        requires
            0 <= a,
    ;
    assert(is_root(a * a, a));
    lemma_isqrt(a * a);
}

/// Saturates a wide value to the library's range.
pub fn saturate(v: i128) -> (r: i64)
    ensures
        r == clamp(v as int),
{
    if v < -1_000_000_000_000_000 {
        -LIMIT
    } else if v > 1_000_000_000_000_000 {
        LIMIT
    } else {
        v as i64
    }
}

/// Divides `a` by a positive `b`, rounding toward zero.
pub fn quotient(a: i128, b: i128) -> (q: i128)
    requires
        b > 0,
    ensures
        q == quot(a as int, b as int),
{
    a / b
}

/// Multiplies two fixed-point numbers.
pub fn multiply(a: i64, b: i64) -> (r: i64)
    ensures
        r == fmul(a as int, b as int),
{
    let wide_a: i128 = a as i128;
    let wide_b: i128 = b as i128;
    assert(-0x4000_0000_0000_0000_0000_0000_0000_0000 <= wide_a * wide_b
        <= 0x4000_0000_0000_0000_0000_0000_0000_0000) by (nonlinear_arith)
        requires
            -0x8000_0000_0000_0000 <= wide_a <= 0x8000_0000_0000_0000,
            -0x8000_0000_0000_0000 <= wide_b <= 0x8000_0000_0000_0000,
    ;
    let product: i128 = wide_a * wide_b;
    saturate(quotient(product, 1_000_000))
}

/// Computes the integer square root by bisection.
pub fn int_sqrt(n: u128) -> (r: u64)
    ensures
        r == isqrt(n as int),
{
    let mut low: u128 = 0;
    let mut high: u128 = 0x1_0000_0000_0000_0000;
    proof {
        assert(0x1_0000_0000_0000_0000int * 0x1_0000_0000_0000_0000int > u128::MAX);
    }
    while high - low > 1
        invariant
            low < high <= 0x1_0000_0000_0000_0000,
            low * low <= n,
            n < high * high,
        decreases high - low,
    {
        let mid: u128 = low + (high - low) / 2;
        assert(mid * mid <= 0xffff_ffff_ffff_ffff * 0xffff_ffff_ffff_ffff) by (nonlinear_arith)
            requires
                0 <= mid <= 0xffff_ffff_ffff_ffff,
        ;
        assert(0xffff_ffff_ffff_ffffint * 0xffff_ffff_ffff_ffffint <= u128::MAX);
        if mid * mid <= n {
            low = mid;
        } else {
            high = mid;
        }
    }
    proof {
        assert(is_root(n as int, low as int));
        lemma_isqrt(n as int);
    }
    low as u64
}

} // verus!
