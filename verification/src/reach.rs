//! Which states a chain of operations leads to, and what every such chain
//! keeps: the sum of the values, up to what the splits round away.

use vstd::prelude::*;
use crate::arith::{half_of, lemma_trunc_div_bounds, saturate, third_of};
use crate::moves::{
    combine_three_at, combine_three_step, combine_two_at, combine_two_step, is_successor,
    split_three_at, split_three_step, split_two_at, split_two_step, PathStep,
};

verus! {

/// Whether `step` is the record of an operation that turns `prev` into
/// `next`.
pub open spec fn step_applies(prev: Seq<i64>, step: PathStep, next: Seq<i64>) -> bool {
    ||| exists|i: int|
        0 <= i < prev.len() && #[trigger] split_two_at(prev, i) == next && split_two_step(prev, i)
            == step
    ||| exists|i: int|
        0 <= i < prev.len() && #[trigger] split_three_at(prev, i) == next && split_three_step(
            prev,
            i,
        ) == step
    ||| exists|i: int, j: int|
        0 <= i < j < prev.len() && #[trigger] combine_two_at(prev, i, j) == next
            && combine_two_step(prev, i, j) == step
    ||| exists|i: int, j: int, k: int|
        0 <= i < j < k < prev.len() && #[trigger] combine_three_at(prev, i, j, k) == next
            && combine_three_step(prev, i, j, k) == step
}

/// Whether the operations recorded in `path`, applied in order from `root`,
/// lead to `state`.
pub open spec fn follows(root: Seq<i64>, path: Seq<PathStep>, state: Seq<i64>) -> bool
    decreases path.len(),
{
    if path.len() == 0 {
        state == root
    } else {
        exists|prev: Seq<i64>|
            follows(root, path.drop_last(), prev) && #[trigger] step_applies(
                prev,
                path.last(),
                state,
            )
    }
}

/// An operation with a record is an operation.
pub proof fn lemma_step_is_successor(prev: Seq<i64>, step: PathStep, next: Seq<i64>)
    requires
        step_applies(prev, step, next),
    ensures
        is_successor(prev, next),
{
}

/// No operation empties a state: each appends at least one value.
pub proof fn lemma_successor_not_empty(prev: Seq<i64>, next: Seq<i64>)
    requires
        is_successor(prev, next),
    ensures
        next.len() > 0,
{
}

/// No chain of operations empties a state.
pub proof fn lemma_path_not_empty(root: Seq<i64>, path: Seq<PathStep>, state: Seq<i64>)
    requires
        follows(root, path, state),
        root.len() > 0,
    ensures
        state.len() > 0,
{
    if path.len() > 0 {
        let prev = choose|prev: Seq<i64>|
            follows(root, path.drop_last(), prev) && #[trigger] step_applies(
                prev,
                path.last(),
                state,
            );
        lemma_step_is_successor(prev, path.last(), state);
        lemma_successor_not_empty(prev, state);
    }
}

/// Sum of the values of a state.
pub open spec fn total(s: Seq<i64>) -> int
    decreases s.len(),
{
    if s.len() == 0 {
        0
    } else {
        total(s.drop_last()) + s.last()
    }
}

/// Absolute value.
pub open spec fn magnitude(v: int) -> int {
    if v >= 0 {
        v
    } else {
        -v
    }
}

/// Sum of the absolute values of a state.
pub open spec fn spread(s: Seq<i64>) -> int
    decreases s.len(),
{
    if s.len() == 0 {
        0
    } else {
        spread(s.drop_last()) + magnitude(s.last() as int)
    }
}

/// Appending a value adds it to the sum, and its magnitude to the spread.
pub proof fn lemma_sums_push(s: Seq<i64>, v: i64)
    ensures
        total(s.push(v)) == total(s) + v,
        spread(s.push(v)) == spread(s) + magnitude(v as int),
{
    assert(s.push(v).drop_last() =~= s);
}

/// Removing a value takes it from the sum, and its magnitude from the
/// spread.
pub proof fn lemma_sums_remove(s: Seq<i64>, i: int)
    requires
        0 <= i < s.len(),
    ensures
        total(s.remove(i)) == total(s) - s[i],
        spread(s.remove(i)) == spread(s) - magnitude(s[i] as int),
        spread(s.remove(i)) >= 0,
    decreases s.len(),
{
    lemma_spread_nonnegative(s.remove(i));
    if i == s.len() - 1 {
        assert(s.remove(i) =~= s.drop_last());
    } else {
        lemma_sums_remove(s.drop_last(), i);
        assert(s.remove(i).drop_last() =~= s.drop_last().remove(i));
        assert(s.remove(i).last() == s.last());
    }
}

/// No spread is negative.
pub proof fn lemma_spread_nonnegative(s: Seq<i64>)
    ensures
        spread(s) >= 0,
    decreases s.len(),
{
    if s.len() > 0 {
        lemma_spread_nonnegative(s.drop_last());
    }
}

/// A split in two changes the sum by at most one unit and does not widen the
/// spread.
pub proof fn lemma_split_two_sums(s: Seq<i64>, i: int)
    requires
        0 <= i < s.len(),
    ensures
        -1 <= total(split_two_at(s, i)) - total(s) <= 1,
        spread(split_two_at(s, i)) <= spread(s),
{
    let h = half_of(s[i]);
    lemma_trunc_div_bounds(s[i] as int, 2);
    lemma_sums_remove(s, i);
    lemma_sums_push(s.remove(i), h);
    lemma_sums_push(s.remove(i).push(h), h);
}

/// A split in three changes the sum by at most two units and does not widen
/// the spread.
pub proof fn lemma_split_three_sums(s: Seq<i64>, i: int)
    requires
        0 <= i < s.len(),
    ensures
        -2 <= total(split_three_at(s, i)) - total(s) <= 2,
        spread(split_three_at(s, i)) <= spread(s),
{
    let t = third_of(s[i]);
    lemma_trunc_div_bounds(s[i] as int, 3);
    lemma_sums_remove(s, i);
    lemma_sums_push(s.remove(i), t);
    lemma_sums_push(s.remove(i).push(t), t);
    lemma_sums_push(s.remove(i).push(t).push(t), t);
}

/// A sum of two values that fits the `i64` range keeps the sum of the state
/// and does not widen the spread.
pub proof fn lemma_combine_two_sums(s: Seq<i64>, i: int, j: int)
    requires
        0 <= i < j < s.len(),
        i64::MIN <= s[i] + s[j] <= i64::MAX,
    ensures
        total(combine_two_at(s, i, j)) == total(s),
        spread(combine_two_at(s, i, j)) <= spread(s),
{
    let a = s.remove(i);
    lemma_sums_remove(s, i);
    assert(a[j - 1] == s[j]);
    lemma_sums_remove(a, j - 1);
    lemma_sums_push(a.remove(j - 1), saturate(s[i] + s[j]));
}

/// A sum of three values that fits the `i64` range keeps the sum of the
/// state and does not widen the spread.
pub proof fn lemma_combine_three_sums(s: Seq<i64>, i: int, j: int, k: int)
    requires
        0 <= i < j < k < s.len(),
        i64::MIN <= s[i] + s[j] + s[k] <= i64::MAX,
    ensures
        total(combine_three_at(s, i, j, k)) == total(s),
        spread(combine_three_at(s, i, j, k)) <= spread(s),
{
    let a = s.remove(i);
    lemma_sums_remove(s, i);
    assert(a[j - 1] == s[j]);
    let b = a.remove(j - 1);
    lemma_sums_remove(a, j - 1);
    assert(b[k - 2] == s[k]);
    lemma_sums_remove(b, k - 2);
    lemma_sums_push(b.remove(k - 2), saturate(s[i] + s[j] + s[k]));
}

/// The spread of a state is at least the magnitudes of any two of its values
/// together.
pub proof fn lemma_spread_bounds_two(s: Seq<i64>, i: int, j: int)
    requires
        0 <= i < j < s.len(),
    ensures
        magnitude(s[i] as int) + magnitude(s[j] as int) <= spread(s),
{
    let a = s.remove(i);
    lemma_sums_remove(s, i);
    assert(a[j - 1] == s[j]);
    lemma_sums_remove(a, j - 1);
}

/// The spread of a state is at least the magnitudes of any three of its
/// values together.
pub proof fn lemma_spread_bounds_three(s: Seq<i64>, i: int, j: int, k: int)
    requires
        0 <= i < j < k < s.len(),
    ensures
        magnitude(s[i] as int) + magnitude(s[j] as int) + magnitude(s[k] as int) <= spread(s),
{
    let a = s.remove(i);
    lemma_sums_remove(s, i);
    assert(a[j - 1] == s[j]);
    let b = a.remove(j - 1);
    lemma_sums_remove(a, j - 1);
    assert(b[k - 2] == s[k]);
    lemma_sums_remove(b, k - 2);
}

/// Whether the sum that a step records is the true sum of its operands: no
/// end of the `i64` range cut it. Every split is exact in this sense.
pub open spec fn step_is_exact(step: PathStep) -> bool {
    match step {
        PathStep::CombineTwo { first, second, sum } => sum == first + second,
        PathStep::CombineThree { first, second, third, sum } => sum == first + second + third,
        _ => true,
    }
}

/// Whether every step of a path is exact.
pub open spec fn path_is_exact(path: Seq<PathStep>) -> bool {
    forall|i: int| 0 <= i < path.len() ==> step_is_exact(#[trigger] path[i])
}

/// Conservation over one operation: an exact step changes the sum of the
/// values by at most two units, the most that a split rounds away.
pub proof fn lemma_step_conserves(prev: Seq<i64>, step: PathStep, next: Seq<i64>)
    requires
        step_applies(prev, step, next),
        step_is_exact(step),
    ensures
        -2 <= total(next) - total(prev) <= 2,
{
    if exists|i: int|
        0 <= i < prev.len() && #[trigger] split_two_at(prev, i) == next && split_two_step(prev, i)
            == step {
        let i = choose|i: int|
            0 <= i < prev.len() && #[trigger] split_two_at(prev, i) == next && split_two_step(
                prev,
                i,
            ) == step;
        lemma_split_two_sums(prev, i);
    } else if exists|i: int|
        0 <= i < prev.len() && #[trigger] split_three_at(prev, i) == next && split_three_step(
            prev,
            i,
        ) == step {
        let i = choose|i: int|
            0 <= i < prev.len() && #[trigger] split_three_at(prev, i) == next && split_three_step(
                prev,
                i,
            ) == step;
        lemma_split_three_sums(prev, i);
    } else if exists|i: int, j: int|
        0 <= i < j < prev.len() && #[trigger] combine_two_at(prev, i, j) == next
            && combine_two_step(prev, i, j) == step {
        let (i, j) = choose|i: int, j: int|
            0 <= i < j < prev.len() && #[trigger] combine_two_at(prev, i, j) == next
                && combine_two_step(prev, i, j) == step;
        lemma_combine_two_sums(prev, i, j);
    } else {
        let (i, j, k) = choose|i: int, j: int, k: int|
            0 <= i < j < k < prev.len() && #[trigger] combine_three_at(prev, i, j, k) == next
                && combine_three_step(prev, i, j, k) == step;
        lemma_combine_three_sums(prev, i, j, k);
    }
}

/// Conservation: the sum of the values of a state that a chain of exact
/// steps leads to differs from the sum of the inputs by at most two units
/// for each step.
pub proof fn lemma_path_conserves(root: Seq<i64>, path: Seq<PathStep>, state: Seq<i64>)
    requires
        follows(root, path, state),
        path_is_exact(path),
    ensures
        -2 * path.len() <= total(state) - total(root) <= 2 * path.len(),
    decreases path.len(),
{
    if path.len() > 0 {
        let prev = choose|prev: Seq<i64>|
            follows(root, path.drop_last(), prev) && #[trigger] step_applies(
                prev,
                path.last(),
                state,
            );
        assert forall|i: int| 0 <= i < path.drop_last().len() implies step_is_exact(
            #[trigger] path.drop_last()[i],
        ) by {
            assert(path.drop_last()[i] == path[i]);
        }
        lemma_path_conserves(root, path.drop_last(), prev);
        assert(step_is_exact(path[path.len() - 1]));
        lemma_step_conserves(prev, path.last(), state);
    }
}

/// On a state whose spread fits the `i64` range every step is exact, and no
/// step widens the spread.
pub proof fn lemma_step_within_spread(prev: Seq<i64>, step: PathStep, next: Seq<i64>)
    requires
        step_applies(prev, step, next),
        spread(prev) <= i64::MAX,
    ensures
        step_is_exact(step),
        spread(next) <= spread(prev),
{
    if exists|i: int|
        0 <= i < prev.len() && #[trigger] split_two_at(prev, i) == next && split_two_step(prev, i)
            == step {
        let i = choose|i: int|
            0 <= i < prev.len() && #[trigger] split_two_at(prev, i) == next && split_two_step(
                prev,
                i,
            ) == step;
        lemma_split_two_sums(prev, i);
    } else if exists|i: int|
        0 <= i < prev.len() && #[trigger] split_three_at(prev, i) == next && split_three_step(
            prev,
            i,
        ) == step {
        let i = choose|i: int|
            0 <= i < prev.len() && #[trigger] split_three_at(prev, i) == next && split_three_step(
                prev,
                i,
            ) == step;
        lemma_split_three_sums(prev, i);
    } else if exists|i: int, j: int|
        0 <= i < j < prev.len() && #[trigger] combine_two_at(prev, i, j) == next
            && combine_two_step(prev, i, j) == step {
        let (i, j) = choose|i: int, j: int|
            0 <= i < j < prev.len() && #[trigger] combine_two_at(prev, i, j) == next
                && combine_two_step(prev, i, j) == step;
        lemma_spread_bounds_two(prev, i, j);
        lemma_combine_two_sums(prev, i, j);
    } else {
        let (i, j, k) = choose|i: int, j: int, k: int|
            0 <= i < j < k < prev.len() && #[trigger] combine_three_at(prev, i, j, k) == next
                && combine_three_step(prev, i, j, k) == step;
        lemma_spread_bounds_three(prev, i, j, k);
        lemma_combine_three_sums(prev, i, j, k);
    }
}

/// Where the spread of the inputs fits the `i64` range, every chain of
/// operations from them is exact.
pub proof fn lemma_path_within_spread(root: Seq<i64>, path: Seq<PathStep>, state: Seq<i64>)
    requires
        follows(root, path, state),
        spread(root) <= i64::MAX,
    ensures
        path_is_exact(path),
        spread(state) <= spread(root),
    decreases path.len(),
{
    if path.len() > 0 {
        let prev = choose|prev: Seq<i64>|
            follows(root, path.drop_last(), prev) && #[trigger] step_applies(
                prev,
                path.last(),
                state,
            );
        lemma_path_within_spread(root, path.drop_last(), prev);
        lemma_step_within_spread(prev, path.last(), state);
        assert forall|i: int| 0 <= i < path.len() implies step_is_exact(#[trigger] path[i]) by {
            if i < path.len() - 1 {
                assert(path.drop_last()[i] == path[i]);
            }
        }
    }
}

} // verus!
