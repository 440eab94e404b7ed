//! Arithmetic on fixed-point values: distances, truncating division and
//! saturating sums.

use vstd::prelude::*;

verus! {

/// Number of fixed-point units that make one unit of the real domain.
pub const SCALE: i64 = 1000;

/// Absolute difference of two values, as a mathematical integer.
pub open spec fn distance(v: i64, target: i64) -> nat {
    if v >= target {
        (v - target) as nat
    } else {
        (target - v) as nat
    }
}

/// Quotient of `v` by a positive `d`, rounded toward zero.
pub open spec fn trunc_div(v: int, d: int) -> int
    recommends
        d > 0,
{
    if v >= 0 {
        v / d
    } else {
        -((-v) / d)
    }
}

/// The value of the `i64` range that is nearest to `x`.
pub open spec fn saturate(x: int) -> i64 {
    if x > i64::MAX {
        i64::MAX
    } else if x < i64::MIN {
        i64::MIN
    } else {
        x as i64
    }
}

/// Each part of `v` split into two equal parts.
pub open spec fn half_of(v: i64) -> i64 {
    trunc_div(v as int, 2) as i64
}

/// Each part of `v` split into three equal parts.
pub open spec fn third_of(v: i64) -> i64 {
    trunc_div(v as int, 3) as i64
}

/// A truncated quotient lies between zero and the dividend, and its product
/// with the divisor misses the dividend by less than the divisor, on the
/// side of zero.
pub proof fn lemma_trunc_div_bounds(v: int, d: int)
    requires
        d > 0,
    ensures
        v >= 0 ==> 0 <= trunc_div(v, d) <= v,
        v <= 0 ==> v <= trunc_div(v, d) <= 0,
        v - d < d * trunc_div(v, d) < v + d,
        v >= 0 ==> d * trunc_div(v, d) <= v,
        v <= 0 ==> d * trunc_div(v, d) >= v,
{
    if v >= 0 {
        assert(0 <= v / d <= v && v - d < d * (v / d) <= v) by (nonlinear_arith)
            requires
                v >= 0,
                d > 0,
        ;
    } else {
        let w = -v;
        assert(0 <= w / d <= w && w - d < d * (w / d) <= w) by (nonlinear_arith)
            requires
                w >= 0,
                d > 0,
        ;
        assert(d * (-(w / d)) == -(d * (w / d))) by (nonlinear_arith);
    }
}

/// Absolute difference of `v` and `target`.
pub fn deviation(v: i64, target: i64) -> (d: u64)
    ensures
        d == distance(v, target),
{
    if v >= target {
        (v as i128 - target as i128) as u64
    } else {
        (target as i128 - v as i128) as u64
    }
}

/// Splits a value into two equal parts, each rounded toward zero.
pub fn split_into_two(input: i64) -> (parts: (i64, i64))
    ensures
        parts.0 == half_of(input),
        parts.1 == half_of(input),
        parts.0 == trunc_div(input as int, 2),
{
    proof {
        lemma_trunc_div_bounds(input as int, 2);
    }
    let wide: i128 = input as i128;
    let part: i64 = if wide >= 0 {
        (wide / 2) as i64
    } else {
        (-((-wide) / 2)) as i64
    };
    (part, part)
}

/// Splits a value into three equal parts, each rounded toward zero.
pub fn split_into_three(input: i64) -> (parts: (i64, i64, i64))
    ensures
        parts.0 == third_of(input),
        parts.1 == third_of(input),
        parts.2 == third_of(input),
        parts.0 == trunc_div(input as int, 3),
{
    proof {
        lemma_trunc_div_bounds(input as int, 3);
    }
    let wide: i128 = input as i128;
    let part: i64 = if wide >= 0 {
        (wide / 3) as i64
    } else {
        (-((-wide) / 3)) as i64
    };
    (part, part, part)
}

/// Narrows a wide sum to the `i64` range, stopping at its ends.
fn narrow(sum: i128) -> (r: i64)
    ensures
        r == saturate(sum as int),
{
    if sum > i64::MAX as i128 {
        i64::MAX
    } else if sum < i64::MIN as i128 {
        i64::MIN
    } else {
        sum as i64
    }
}

/// Sum of two values; a sum outside the `i64` range stops at the nearer end.
pub fn combine_two(a: i64, b: i64) -> (sum: i64)
    ensures
        sum == saturate(a + b),
{
    narrow(a as i128 + b as i128)
}

/// Sum of three values; a sum outside the `i64` range stops at the nearer end.
pub fn combine_three(a: i64, b: i64, c: i64) -> (sum: i64)
    ensures
        sum == saturate(a + b + c),
{
    narrow(a as i128 + b as i128 + c as i128)
}

} // verus!
