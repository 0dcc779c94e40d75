//! Integer square roots and means.

use vstd::prelude::*;

verus! {

/// The integer square root: the largest `r` with `r * r <= n`.
pub open spec fn isqrt_spec(n: nat) -> nat
    decreases n,
{
    if n == 0 {
        0
    } else {
        let r = isqrt_spec((n - 1) as nat);
        if (r + 1) * (r + 1) <= n {
            r + 1
        } else {
            r
        }
    }
}

/// `isqrt_spec(n)` is a root of `n` rounded down.
pub proof fn lemma_isqrt_bounds(n: nat)
    ensures
        isqrt_spec(n) * isqrt_spec(n) <= n,
        n < (isqrt_spec(n) + 1) * (isqrt_spec(n) + 1),
    decreases n,
{
    let s = isqrt_spec(n);
    if n == 0 {
        assert(s * s == 0 && (s + 1) * (s + 1) == 1) by (nonlinear_arith)
            requires
                s == 0,
        ;
    } else {
        let r = isqrt_spec((n - 1) as nat);
        lemma_isqrt_bounds((n - 1) as nat);
        if (r + 1) * (r + 1) <= n {
            assert((s + 1) * (s + 1) > (r + 1) * (r + 1)) by (nonlinear_arith)
                requires
                    s == r + 1,
            ;
        }
    }
}

/// Squaring is strictly monotonic on the naturals.
pub proof fn lemma_square_strictly_monotonic(a: nat, b: nat)
    requires
        a < b,
    ensures
        a * a < b * b,
{
    assert(a * a < b * b) by (nonlinear_arith)
        requires
            0 <= a < b,
    ;
}

/// Only one number lies between the bounds of `lemma_isqrt_bounds`.
pub proof fn lemma_isqrt_unique(n: nat, r: nat)
    requires
        r * r <= n,
        n < (r + 1) * (r + 1),
    ensures
        isqrt_spec(n) == r,
{
    let s = isqrt_spec(n);
    lemma_isqrt_bounds(n);
    if s < r {
        if s + 1 < r {
            lemma_square_strictly_monotonic(s + 1, r);
        }
    } else if r < s {
        if r + 1 < s {
            lemma_square_strictly_monotonic(r + 1, s);
        }
    }
}

/// The integer square root never decreases when its argument grows.
pub proof fn lemma_isqrt_monotonic(a: nat, b: nat)
    requires
        a <= b,
    ensures
        isqrt_spec(a) <= isqrt_spec(b),
{
    lemma_isqrt_bounds(a);
    lemma_isqrt_bounds(b);
    if isqrt_spec(b) < isqrt_spec(a) {
        if isqrt_spec(b) + 1 < isqrt_spec(a) {
            lemma_square_strictly_monotonic(isqrt_spec(b) + 1, isqrt_spec(a));
        }
    }
}

/// Computes the integer square root by bisection.
pub fn isqrt(n: u64) -> (r: u64)
    ensures
        r == isqrt_spec(n as nat),
{
    let mut lo: u64 = 0;
    let mut hi: u64 = 0x1_0000_0000;
    while hi - lo > 1
        invariant
            lo < hi <= 0x1_0000_0000,
            lo * lo <= n,
            n < hi * hi,
        decreases hi - lo,
    {
        let mid: u64 = lo + (hi - lo) / 2;
        assert(mid * mid <= 0xffff_ffff * 0xffff_ffff) by (nonlinear_arith)
            requires
                0 <= mid <= 0xffff_ffff,
        ;
        if mid * mid <= n {
            lo = mid;
        } else {
            hi = mid;
        }
    }
    proof {
        lemma_isqrt_unique(n as nat, lo as nat);
    }
    lo
}

/// A mean is at most `bound` where the sum is at most `bound` for each unit
/// of the divisor.
pub proof fn lemma_mean_bound(sum: int, divisor: int, bound: int)
    requires
        0 <= sum <= bound * divisor,
        0 < divisor,
        0 <= bound,
    ensures
        0 <= sum / divisor <= bound,
{
    assert(bound * divisor == divisor * bound) by (nonlinear_arith);
    vstd::arithmetic::div_mod::lemma_div_is_ordered(sum, divisor * bound, divisor);
    vstd::arithmetic::div_mod::lemma_div_multiples_vanish(bound, divisor);
    vstd::arithmetic::div_mod::lemma_div_pos_is_pos(sum, divisor);
}

/// If the mean of `a` over `cells` units is below the mean of `b` over an
/// area of at least as many units, then `a` is below `b`.
pub proof fn lemma_lower_mean_lower_sum(a: int, b: int, cells: int, unit: int, area: int)
    requires
        0 <= a,
        0 <= b,
        0 < cells,
        0 < unit,
        cells * unit <= area,
        a / cells < (b * unit) / area,
    ensures
        a < b,
{
    let q = a / cells;
    let p = (b * unit) / area;
    assert(0 < cells * unit) by (nonlinear_arith)
        requires
            0 < cells,
            0 < unit,
    ;
    vstd::arithmetic::div_mod::lemma_fundamental_div_mod(a, cells);
    vstd::arithmetic::div_mod::lemma_fundamental_div_mod(b * unit, area);
    vstd::arithmetic::div_mod::lemma_mod_bound(a, cells);
    vstd::arithmetic::div_mod::lemma_mod_bound(b * unit, area);
    vstd::arithmetic::div_mod::lemma_div_pos_is_pos(a, cells);
    assert(a < cells * (q + 1)) by (nonlinear_arith)
        requires
            a == cells * q + a % cells,
            a % cells < cells,
    ;
    assert(b * unit >= area * p);
    assert(area * p >= (cells * unit) * (q + 1)) by (nonlinear_arith)
        requires
            p >= q + 1,
            q >= 0,
            area >= cells * unit,
            cells * unit > 0,
    ;
    assert(b >= cells * (q + 1)) by (nonlinear_arith)
        requires
            b * unit >= (cells * unit) * (q + 1),
            unit > 0,
    ;
}

} // verus!
