//! The four operations on a state and the record each leaves on the path.
//!
//! A state is a sequence of fixed-point values. An operation takes one, two
//! or three of them out, by index, and appends what they become.

use vstd::prelude::*;
use crate::arith::{combine_three, combine_two, half_of, saturate, split_into_three, split_into_two, third_of};

verus! {

/// One applied operation: the values it consumed and what it produced.
#[derive(Clone, Copy, Debug, PartialEq, Eq)]
pub enum PathStep {
    /// `value` became two values equal to `part`.
    SplitTwo { value: i64, part: i64 },
    /// `value` became three values equal to `part`.
    SplitThree { value: i64, part: i64 },
    /// `first` and `second` became `sum`.
    CombineTwo { first: i64, second: i64, sum: i64 },
    /// `first`, `second` and `third` became `sum`.
    CombineThree { first: i64, second: i64, third: i64, sum: i64 },
}

/// The state after the value at `i` is split into two.
pub open spec fn split_two_at(s: Seq<i64>, i: int) -> Seq<i64> {
    s.remove(i).push(half_of(s[i])).push(half_of(s[i]))
}

/// The state after the value at `i` is split into three.
pub open spec fn split_three_at(s: Seq<i64>, i: int) -> Seq<i64> {
    s.remove(i).push(third_of(s[i])).push(third_of(s[i])).push(third_of(s[i]))
}

/// The state after the values at `i < j` are replaced by their sum.
pub open spec fn combine_two_at(s: Seq<i64>, i: int, j: int) -> Seq<i64> {
    s.remove(i).remove(j - 1).push(saturate(s[i] + s[j]))
}

/// The state after the values at `i < j < k` are replaced by their sum.
pub open spec fn combine_three_at(s: Seq<i64>, i: int, j: int, k: int) -> Seq<i64> {
    s.remove(i).remove(j - 1).remove(k - 2).push(saturate(s[i] + s[j] + s[k]))
}

/// The record of splitting the value at `i` into two.
pub open spec fn split_two_step(s: Seq<i64>, i: int) -> PathStep {
    PathStep::SplitTwo { value: s[i], part: half_of(s[i]) }
}

/// The record of splitting the value at `i` into three.
pub open spec fn split_three_step(s: Seq<i64>, i: int) -> PathStep {
    PathStep::SplitThree { value: s[i], part: third_of(s[i]) }
}

/// The record of combining the values at `i` and `j`.
pub open spec fn combine_two_step(s: Seq<i64>, i: int, j: int) -> PathStep {
    PathStep::CombineTwo { first: s[i], second: s[j], sum: saturate(s[i] + s[j]) }
}

/// The record of combining the values at `i`, `j` and `k`.
pub open spec fn combine_three_step(s: Seq<i64>, i: int, j: int, k: int) -> PathStep {
    PathStep::CombineThree {
        first: s[i],
        second: s[j],
        third: s[k],
        sum: saturate(s[i] + s[j] + s[k]),
    }
}

/// Whether one operation turns the state `s` into the state `t`.
pub open spec fn is_successor(s: Seq<i64>, t: Seq<i64>) -> bool {
    ||| exists|i: int| 0 <= i < s.len() && t == #[trigger] split_two_at(s, i)
    ||| exists|i: int| 0 <= i < s.len() && t == #[trigger] split_three_at(s, i)
    ||| exists|i: int, j: int| 0 <= i < j < s.len() && t == #[trigger] combine_two_at(s, i, j)
    ||| exists|i: int, j: int, k: int|
        0 <= i < j < k < s.len() && t == #[trigger] combine_three_at(s, i, j, k)
}

/// A copy of `values`.
pub fn copy_values(values: &Vec<i64>) -> (copy: Vec<i64>)
    ensures
        copy@ == values@,
{
    let copy = values.clone();
    assert(copy@ =~= values@);
    copy
}

/// Splits the value at `i` into two: the new state and the step's record.
pub fn apply_split_two(values: &Vec<i64>, i: usize) -> (out: (Vec<i64>, PathStep))
    requires
        i < values.len(),
    ensures
        out.0@ == split_two_at(values@, i as int),
        out.1 == split_two_step(values@, i as int),
{
    let value = values[i];
    let (part1, part2) = split_into_two(value);
    let mut state = copy_values(values);
    state.remove(i);
    state.push(part1);
    state.push(part2);
    (state, PathStep::SplitTwo { value, part: part1 })
}

/// Splits the value at `i` into three: the new state and the step's record.
pub fn apply_split_three(values: &Vec<i64>, i: usize) -> (out: (Vec<i64>, PathStep))
    requires
        i < values.len(),
    ensures
        out.0@ == split_three_at(values@, i as int),
        out.1 == split_three_step(values@, i as int),
{
    let value = values[i];
    let (part1, part2, part3) = split_into_three(value);
    let mut state = copy_values(values);
    state.remove(i);
    state.push(part1);
    state.push(part2);
    state.push(part3);
    (state, PathStep::SplitThree { value, part: part1 })
}

/// Replaces the values at `i < j` by their sum: the new state and the step's
/// record.
pub fn apply_combine_two(values: &Vec<i64>, i: usize, j: usize) -> (out: (Vec<i64>, PathStep))
    requires
        i < j < values.len(),
    ensures
        out.0@ == combine_two_at(values@, i as int, j as int),
        out.1 == combine_two_step(values@, i as int, j as int),
{
    let first = values[i];
    let second = values[j];
    let sum = combine_two(first, second);
    let mut state = copy_values(values);
    state.remove(i);
    state.remove(j - 1);
    state.push(sum);
    (state, PathStep::CombineTwo { first, second, sum })
}

/// Replaces the values at `i < j < k` by their sum: the new state and the
/// step's record.
pub fn apply_combine_three(values: &Vec<i64>, i: usize, j: usize, k: usize) -> (out: (
    Vec<i64>,
    PathStep,
))
    requires
        i < j < k < values.len(),
    ensures
        out.0@ == combine_three_at(values@, i as int, j as int, k as int),
        out.1 == combine_three_step(values@, i as int, j as int, k as int),
{
    let first = values[i];
    let second = values[j];
    let third = values[k];
    let sum = combine_three(first, second, third);
    let mut state = copy_values(values);
    state.remove(i);
    state.remove(j - 1);
    state.remove(k - 2);
    state.push(sum);
    (state, PathStep::CombineThree { first, second, third, sum })
}

} // verus!
