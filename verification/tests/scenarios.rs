use split_combine::moves::PathStep;
use split_combine::search::{search, shortest_path_to_target};

#[test]
fn equal_inputs_on_target_succeed_at_once() {
    let found = shortest_path_to_target(vec![5000, 5000], 5000, 10);
    let (final_values, remainder, path) = found.expect("both inputs are on target");
    assert_eq!(final_values, vec![5000, 5000]);
    assert_eq!(remainder, Vec::<i64>::new());
    assert!(path.is_empty());
}

#[test]
fn lone_small_value_never_reaches_far_target() {
    assert_eq!(shortest_path_to_target(vec![1000], 100_000, 500), None);
}

#[test]
fn sixty_splits_into_three_twenties() {
    let found = shortest_path_to_target(vec![60_000], 20_000, 500);
    let (final_values, remainder, path) = found.expect("one split reaches the target");
    assert_eq!(final_values, vec![20_000, 20_000, 20_000]);
    assert!(remainder.is_empty());
    assert_eq!(path, vec![PathStep::SplitThree { value: 60_000, part: 20_000 }]);
}

#[test]
fn two_tens_combine_into_twenty() {
    let found = shortest_path_to_target(vec![10_000, 10_000, 10_000], 20_000, 500);
    let (final_values, remainder, path) = found.expect("one sum reaches the target");
    assert_eq!(final_values, vec![20_000]);
    assert_eq!(remainder, vec![10_000]);
    assert_eq!(
        path,
        vec![PathStep::CombineTwo { first: 10_000, second: 10_000, sum: 20_000 }]
    );
}

#[test]
fn deep_solution_follows_the_cheapest_nodes() {
    let found = search(vec![60_000], 12_000, 1000, 6);
    let (final_values, remainder, path) = found.expect("a chain of six steps exists");
    assert_eq!(final_values, vec![11_666, 11_666]);
    assert_eq!(remainder, vec![10_000, 10_000, 10_000, 6666]);
    assert_eq!(
        path,
        vec![
            PathStep::SplitThree { value: 60_000, part: 20_000 },
            PathStep::SplitTwo { value: 20_000, part: 10_000 },
            PathStep::SplitTwo { value: 20_000, part: 10_000 },
            PathStep::SplitThree { value: 20_000, part: 6666 },
            PathStep::CombineThree { first: 10_000, second: 6666, third: 6666, sum: 23_332 },
            PathStep::SplitTwo { value: 23_332, part: 11_666 },
        ]
    );
}
