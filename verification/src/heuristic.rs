//! The search's priority: how far a state's values lie from the target in
//! total.

use vstd::prelude::*;
use crate::arith::{deviation, distance};

verus! {

/// Sum over the values of a state of their distances from the target.
pub open spec fn heuristic(values: Seq<i64>, target: i64) -> nat
    decreases values.len(),
{
    if values.len() == 0 {
        0
    } else {
        heuristic(values.drop_last(), target) + distance(values.last(), target)
    }
}

/// No distance between two `i64` values exceeds `u64::MAX`, so the sum over a
/// state stays below the product of its length and that bound.
pub proof fn lemma_heuristic_bound(values: Seq<i64>, target: i64)
    ensures
        heuristic(values, target) <= values.len() * 0xffff_ffff_ffff_ffff,
    decreases values.len(),
{
    if values.len() > 0 {
        lemma_heuristic_bound(values.drop_last(), target);
        assert((values.len() - 1) * 0xffff_ffff_ffff_ffff + 0xffff_ffff_ffff_ffff == values.len()
            * 0xffff_ffff_ffff_ffff) by (nonlinear_arith);
    }
}

/// Total absolute deviation of `values` from `target`.
///
/// The result is exact for every slice: it is wide enough for the largest sum
/// that `usize::MAX` values of the `i64` range can give.
pub fn calculate_heuristic(values: &[i64], target: i64) -> (cost: u128)
    ensures
        cost == heuristic(values@, target),
{
    let mut cost: u128 = 0;
    let mut i: usize = 0;
    while i < values.len()
        invariant
            i <= values.len(),
            cost == heuristic(values@.take(i as int), target),
        decreases values.len() - i,
    {
        proof {
            let next = values@.take(i + 1);
            assert(next.drop_last() =~= values@.take(i as int));
            lemma_heuristic_bound(values@.take(i as int), target);
            assert(i * 0xffff_ffff_ffff_ffff + 0xffff_ffff_ffff_ffff
                <= 0xffff_ffff_ffff_ffff_ffff_ffff_ffff_ffff) by (nonlinear_arith)
                requires
                    0 <= i < 0xffff_ffff_ffff_ffff,
            ;
        }
        cost = cost + deviation(values[i], target) as u128;
        i = i + 1;
    }
    proof {
        assert(values@.take(values@.len() as int) =~= values@);
    }
    cost
}

} // verus!
