//! The terminal test: which values of a state are close enough to the target.

use vstd::prelude::*;
use crate::arith::{deviation, distance};

verus! {

/// Whether `v` lies within `margin` of `target`. No value does under a
/// negative margin.
pub open spec fn is_close(v: i64, target: i64, margin: i64) -> bool {
    distance(v, target) <= margin
}

/// The values of a state that lie within the margin, in their order.
pub open spec fn close_values(values: Seq<i64>, target: i64, margin: i64) -> Seq<i64> {
    values.filter(|v: i64| is_close(v, target, margin))
}

/// The values of a state that lie outside the margin, in their order.
pub open spec fn far_values(values: Seq<i64>, target: i64, margin: i64) -> Seq<i64> {
    values.filter(|v: i64| !is_close(v, target, margin))
}

/// Whether some value of the state lies within the margin.
pub open spec fn has_close(values: Seq<i64>, target: i64, margin: i64) -> bool {
    exists|i: int| 0 <= i < values.len() && is_close(#[trigger] values[i], target, margin)
}

/// The close values are exactly those that pass the test, the far values
/// exactly those that fail it, and a state has a close value if and only if
/// its close part is not empty.
pub proof fn lemma_partition(values: Seq<i64>, target: i64, margin: i64)
    ensures
        forall|i: int|
            0 <= i < close_values(values, target, margin).len() ==> is_close(
                #[trigger] close_values(values, target, margin)[i],
                target,
                margin,
            ),
        forall|i: int|
            0 <= i < far_values(values, target, margin).len() ==> !is_close(
                #[trigger] far_values(values, target, margin)[i],
                target,
                margin,
            ),
        close_values(values, target, margin).len() + far_values(values, target, margin).len()
            == values.len(),
        has_close(values, target, margin) <==> close_values(values, target, margin).len() > 0,
    decreases values.len(),
{
    let near = |v: i64| is_close(v, target, margin);
    let far = |v: i64| !is_close(v, target, margin);
    reveal(Seq::filter);
    if values.len() > 0 {
        let front = values.drop_last();
        lemma_partition(front, target, margin);
        if is_close(values.last(), target, margin) {
            assert(values.filter(near) == front.filter(near).push(values.last()));
            assert(values.filter(far) == front.filter(far));
        } else {
            assert(values.filter(near) == front.filter(near));
            assert(values.filter(far) == front.filter(far).push(values.last()));
        }
        if has_close(values, target, margin) {
            let i = choose|i: int| 0 <= i < values.len() && is_close(#[trigger] values[i], target, margin);
            if i < values.len() - 1 {
                assert(front[i] == values[i]);
                assert(has_close(front, target, margin));
            }
        }
        if close_values(values, target, margin).len() > 0 {
            if is_close(values.last(), target, margin) {
                assert(is_close(values[values.len() - 1], target, margin));
            } else {
                let i = choose|i: int| 0 <= i < front.len() && is_close(#[trigger] front[i], target, margin);
                assert(is_close(values[i], target, margin));
            }
        }
    }
}

/// Sorts the values of a state into those within `margin` of `target` and the
/// rest, keeping their order. Returns `None` when no value is close.
pub fn find_final_and_remainder(values: &[i64], target: i64, margin: i64) -> (parts: Option<
    (Vec<i64>, Vec<i64>),
>)
    ensures
        parts is Some <==> has_close(values@, target, margin),
        parts matches Some((final_values, remainder)) ==> {
            &&& final_values@ == close_values(values@, target, margin)
            &&& remainder@ == far_values(values@, target, margin)
            &&& final_values@.len() > 0
        },
{
    let mut final_values: Vec<i64> = Vec::new();
    let mut remainder: Vec<i64> = Vec::new();
    let mut i: usize = 0;
    while i < values.len()
        invariant
            i <= values.len(),
            final_values@ == close_values(values@.take(i as int), target, margin),
            remainder@ == far_values(values@.take(i as int), target, margin),
        decreases values.len() - i,
    {
        let value = values[i];
        proof {
            reveal(Seq::filter);
            assert(values@.take(i + 1).drop_last() =~= values@.take(i as int));
        }
        if margin >= 0 && deviation(value, target) <= margin as u64 {
            final_values.push(value);
        } else {
            remainder.push(value);
        }
        i = i + 1;
    }
    proof {
        assert(values@.take(values@.len() as int) =~= values@);
        lemma_partition(values@, target, margin);
    }
    if final_values.len() > 0 {
        Some((final_values, remainder))
    } else {
        None
    }
}

} // verus!
