use split_combine::moves::{
    apply_combine_three, apply_combine_two, apply_split_three, apply_split_two, copy_values,
    PathStep,
};

#[test]
fn split_two_removes_the_value_and_appends_its_halves() {
    let (state, step) = apply_split_two(&vec![1000, 2001, 3000], 1);
    assert_eq!(state, vec![1000, 3000, 1000, 1000]);
    assert_eq!(step, PathStep::SplitTwo { value: 2001, part: 1000 });
}

#[test]
fn split_three_removes_the_value_and_appends_its_thirds() {
    let (state, step) = apply_split_three(&vec![1000, 2000, 3000], 0);
    assert_eq!(state, vec![2000, 3000, 333, 333, 333]);
    assert_eq!(step, PathStep::SplitThree { value: 1000, part: 333 });
}

#[test]
fn combine_two_removes_both_and_appends_their_sum() {
    let (state, step) = apply_combine_two(&vec![1, 2, 4, 8], 1, 3);
    assert_eq!(state, vec![1, 4, 10]);
    assert_eq!(step, PathStep::CombineTwo { first: 2, second: 8, sum: 10 });
}

#[test]
fn combine_three_removes_all_three_and_appends_their_sum() {
    let (state, step) = apply_combine_three(&vec![1, 2, 4, 8, 16], 0, 2, 4);
    assert_eq!(state, vec![2, 8, 21]);
    assert_eq!(step, PathStep::CombineThree { first: 1, second: 4, third: 16, sum: 21 });
}

#[test]
fn operations_on_a_single_value() {
    assert_eq!(apply_split_two(&vec![7], 0).0, vec![3, 3]);
    assert_eq!(apply_split_three(&vec![7], 0).0, vec![2, 2, 2]);
}

#[test]
fn operations_leave_the_parent_alone() {
    let parent = vec![10, 20, 30];
    let _ = apply_combine_two(&parent, 0, 1);
    let _ = apply_split_two(&parent, 2);
    assert_eq!(parent, vec![10, 20, 30]);
    assert_eq!(copy_values(&parent), parent);
}

#[test]
fn no_operation_empties_a_state() {
    assert_eq!(apply_combine_two(&vec![1, 2], 0, 1).0.len(), 1);
    assert_eq!(apply_combine_three(&vec![1, 2, 3], 0, 1, 2).0.len(), 1);
}
