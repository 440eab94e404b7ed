use split_combine::frontier::Node;
use split_combine::moves::{
    apply_combine_three, apply_combine_two, apply_split_three, apply_split_two, PathStep,
};
use split_combine::search::{copy_path, search, shortest_path_to_target, Search, MAX_DEPTH};

/// Every state that one operation leads to.
fn successors(state: &Vec<i64>) -> Vec<Vec<i64>> {
    let n = state.len();
    let mut out = Vec::new();
    for i in 0..n {
        out.push(apply_split_two(state, i).0);
        out.push(apply_split_three(state, i).0);
        for j in i + 1..n {
            out.push(apply_combine_two(state, i, j).0);
            for k in j + 1..n {
                out.push(apply_combine_three(state, i, j, k).0);
            }
        }
    }
    out
}

/// Whether some state within `max_depth` operations of `inputs` holds a
/// value within the margin, by enumeration.
fn reachable_by_enumeration(inputs: &Vec<i64>, target: i64, margin: i64, max_depth: usize) -> bool {
    let mut level = vec![inputs.clone()];
    for depth in 0..=max_depth {
        if level.iter().any(|s| s.iter().any(|v| (v - target).abs() <= margin)) {
            return true;
        }
        if depth < max_depth {
            let mut next: Vec<Vec<i64>> = level.iter().flat_map(successors).collect();
            next.sort();
            next.dedup();
            level = next;
        }
    }
    false
}

/// The chain applied to `state`, value by value.
fn replay(mut state: Vec<i64>, path: &[PathStep]) -> Vec<i64> {
    fn take(state: &mut Vec<i64>, v: i64) {
        let at = state.iter().position(|x| *x == v).expect("the step's operand is in the state");
        state.remove(at);
    }
    for step in path {
        match *step {
            PathStep::SplitTwo { value, part } => {
                take(&mut state, value);
                state.extend([part, part]);
            }
            PathStep::SplitThree { value, part } => {
                take(&mut state, value);
                state.extend([part, part, part]);
            }
            PathStep::CombineTwo { first, second, sum } => {
                take(&mut state, first);
                take(&mut state, second);
                state.push(sum);
            }
            PathStep::CombineThree { first, second, third, sum } => {
                take(&mut state, first);
                take(&mut state, second);
                take(&mut state, third);
                state.push(sum);
            }
        }
    }
    state
}

#[test]
fn default_horizon_is_six() {
    assert_eq!(MAX_DEPTH, 6);
}

#[test]
fn no_inputs_give_no_solution() {
    assert_eq!(shortest_path_to_target(vec![], 5000, 10), None);
}

#[test]
fn root_on_target_needs_no_horizon() {
    let found = search(vec![5000, 1], 5000, 0, 0);
    assert_eq!(found, Some((vec![5000], vec![1], vec![])));
}

#[test]
fn horizon_zero_expands_nothing() {
    assert_eq!(search(vec![60_000], 20_000, 500, 0), None);
}

#[test]
fn horizon_one_allows_one_step() {
    let found = search(vec![10_000, 10_000, 10_000], 30_000, 500, 1);
    assert_eq!(
        found,
        Some((
            vec![30_000],
            vec![],
            vec![PathStep::CombineThree {
                first: 10_000,
                second: 10_000,
                third: 10_000,
                sum: 30_000
            }]
        ))
    );
}

#[test]
fn path_is_never_longer_than_the_horizon() {
    for max_depth in 0..=4 {
        for target in [4250, 12_500, 1750, 8500, 333] {
            if let Some((_, _, path)) = search(vec![7000, 3000], target, 100, max_depth) {
                assert!(path.len() <= max_depth);
            }
        }
    }
    for target in [4250, 1750, 8500, 333] {
        let (_, _, path) = search(vec![7000, 3000], target, 100, 6).expect("a chain exists");
        assert!(path.len() <= 6);
    }
}

#[test]
fn cheapest_first_can_miss_the_shorter_chain() {
    let (final_values, remainder, path) =
        search(vec![100_000], 12_500, 100, 6).expect("three halvings reach the target");
    assert_eq!(final_values, vec![12_499, 12_499]);
    assert_eq!(remainder, vec![33_333, 11_111, 11_111, 11_111, 8333]);
    assert_eq!(
        path,
        vec![
            PathStep::SplitThree { value: 100_000, part: 33_333 },
            PathStep::SplitThree { value: 33_333, part: 11_111 },
            PathStep::SplitTwo { value: 33_333, part: 16_666 },
            PathStep::SplitTwo { value: 16_666, part: 8333 },
            PathStep::CombineTwo { first: 16_666, second: 8333, sum: 24_999 },
            PathStep::SplitTwo { value: 24_999, part: 12_499 },
        ]
    );
}

#[test]
fn tighter_horizon_finds_the_three_halvings() {
    let found = search(vec![100_000], 12_500, 100, 3);
    assert_eq!(
        found,
        Some((
            vec![12_500, 12_500],
            vec![50_000, 25_000],
            vec![
                PathStep::SplitTwo { value: 100_000, part: 50_000 },
                PathStep::SplitTwo { value: 50_000, part: 25_000 },
                PathStep::SplitTwo { value: 25_000, part: 12_500 },
            ]
        ))
    );
}

#[test]
fn split_then_combine_then_split() {
    let found = search(vec![7000, 3000], 4250, 100, 3);
    assert_eq!(
        found,
        Some((
            vec![4250, 4250],
            vec![1500],
            vec![
                PathStep::SplitTwo { value: 3000, part: 1500 },
                PathStep::CombineTwo { first: 7000, second: 1500, sum: 8500 },
                PathStep::SplitTwo { value: 8500, part: 4250 },
            ]
        ))
    );
}

#[test]
fn wider_horizon_changes_the_chain_found() {
    let found = shortest_path_to_target(vec![7000, 3000], 4250, 100);
    assert_eq!(
        found,
        Some((
            vec![4187, 4187],
            vec![1625],
            vec![
                PathStep::SplitTwo { value: 7000, part: 3500 },
                PathStep::CombineTwo { first: 3000, second: 3500, sum: 6500 },
                PathStep::SplitTwo { value: 6500, part: 3250 },
                PathStep::SplitTwo { value: 3250, part: 1625 },
                PathStep::CombineThree { first: 3500, second: 3250, third: 1625, sum: 8375 },
                PathStep::SplitTwo { value: 8375, part: 4187 },
            ]
        ))
    );
}

#[test]
fn combine_three_then_split() {
    let found = shortest_path_to_target(vec![3000, 5000, 1000], 4500, 0);
    assert_eq!(
        found,
        Some((
            vec![4500, 4500],
            vec![],
            vec![
                PathStep::CombineThree { first: 3000, second: 5000, third: 1000, sum: 9000 },
                PathStep::SplitTwo { value: 9000, part: 4500 },
            ]
        ))
    );
}

#[test]
fn same_inputs_give_the_same_answer() {
    let first = shortest_path_to_target(vec![60_000], 12_000, 1000);
    let second = shortest_path_to_target(vec![60_000], 12_000, 1000);
    assert!(first.is_some());
    assert_eq!(first, second);
    let third = search(vec![7000, 3000], 4250, 100, 3);
    let fourth = search(vec![7000, 3000], 4250, 100, 3);
    assert_eq!(third, fourth);
}

#[test]
fn success_always_has_a_final_value() {
    for target in (0..=12_000).step_by(500) {
        if let Some((final_values, remainder, _)) = search(vec![7000, 3000], target, 100, 3) {
            assert!(!final_values.is_empty());
            assert!(final_values.iter().all(|v| (v - target).abs() <= 100));
            assert!(remainder.iter().all(|v| (v - target).abs() > 100));
        }
    }
}

#[test]
fn search_fails_exactly_when_enumeration_finds_nothing() {
    let inputs = vec![7000, 3000];
    for max_depth in 0..=3 {
        for target in (-1000..=12_000).step_by(250) {
            let found = search(inputs.clone(), target, 100, max_depth);
            let reachable = reachable_by_enumeration(&inputs, target, 100, max_depth);
            assert_eq!(found.is_some(), reachable, "target {target}, horizon {max_depth}");
        }
    }
}

#[test]
fn search_on_one_value_fails_exactly_when_enumeration_finds_nothing() {
    let inputs = vec![1000];
    for target in [1000, 500, 333, 666, 250, 1500, 2000, 83, 100_000, 417, 999, 0] {
        let found = search(inputs.clone(), target, 0, 3);
        let reachable = reachable_by_enumeration(&inputs, target, 0, 3);
        assert_eq!(found.is_some(), reachable, "target {target}");
    }
}

#[test]
fn path_leads_from_the_inputs_to_the_answer() {
    for (inputs, target, margin) in [
        (vec![60_000], 12_000, 1000),
        (vec![7000, 3000], 4250, 100),
        (vec![100_000], 12_500, 100),
        (vec![30_000, 10_000], 12_500, 0),
    ] {
        let (final_values, remainder, path) =
            shortest_path_to_target(inputs.clone(), target, margin).expect("a chain exists");
        let mut reached = replay(inputs, &path);
        let mut answer: Vec<i64> = final_values.iter().chain(remainder.iter()).copied().collect();
        reached.sort();
        answer.sort();
        assert_eq!(reached, answer);
    }
}

#[test]
fn sum_drifts_by_at_most_two_units_a_step() {
    for (inputs, target, margin) in [
        (vec![60_000], 12_000, 1000),
        (vec![100_000], 12_500, 100),
        (vec![1000, 1000, 1001], 429, 1),
        (vec![-100_000], -12_500, 100),
    ] {
        let before: i64 = inputs.iter().sum();
        if let Some((final_values, remainder, path)) = shortest_path_to_target(inputs, target, margin) {
            let after: i64 = final_values.iter().chain(remainder.iter()).sum();
            assert!((after - before).abs() <= 2 * path.len() as i64);
        }
    }
}

#[test]
fn sixty_thousand_loses_two_units_on_the_way_to_twelve() {
    let (final_values, remainder, path) =
        shortest_path_to_target(vec![60_000], 12_000, 1000).expect("a chain exists");
    let after: i64 = final_values.iter().chain(remainder.iter()).sum();
    assert_eq!(after, 59_998);
    assert_eq!(path.len(), 6);
}

#[test]
fn expansion_offers_successors_in_order_of_generation() {
    let mut engine = Search::start(vec![1000, 2000, 4000], 3000);
    let root = engine.pop().expect("the root waits");
    assert_eq!(
        root,
        Node { values: vec![1000, 2000, 4000], path: vec![], depth: 0, estimated_cost: 4000 }
    );
    engine.expand(&root, 3000);
    let mut served = Vec::new();
    while let Some(node) = engine.pop() {
        assert_eq!(node.depth, 1);
        assert_eq!(node.path.len(), 1);
        served.push((node.values, node.estimated_cost));
    }
    assert_eq!(
        served,
        vec![
            (vec![4000, 3000], 1000),
            (vec![2000, 5000], 3000),
            (vec![7000], 4000),
            (vec![1000, 6000], 5000),
            (vec![1000, 2000, 2000, 2000], 5000),
            (vec![2000, 4000, 500, 500], 7000),
            (vec![1000, 4000, 1000, 1000], 7000),
            (vec![1000, 2000, 1333, 1333, 1333], 8001),
            (vec![2000, 4000, 333, 333, 333], 10_001),
            (vec![1000, 4000, 666, 666, 666], 10_002),
        ]
    );
}

#[test]
fn expansion_skips_states_already_seen() {
    // both halves of the pair give the same states
    let mut engine = Search::start(vec![1000, 1000], 0);
    let root = engine.pop().expect("the root waits");
    engine.expand(&root, 0);
    let mut served = Vec::new();
    while let Some(node) = engine.pop() {
        served.push(node.values);
    }
    assert_eq!(served, vec![vec![1000, 333, 333, 333], vec![1000, 500, 500], vec![2000]]);
}

#[test]
fn offer_admits_a_seen_state_only_at_a_smaller_depth() {
    let mut engine = Search::start(vec![8], 0);
    let root = engine.pop().expect("the root waits");
    let deep = Node { values: vec![1], path: vec![], depth: 4, estimated_cost: 1 };
    let shallow = Node { values: vec![2], path: vec![], depth: 1, estimated_cost: 2 };
    let step = PathStep::SplitTwo { value: 8, part: 4 };
    engine.offer(&deep, vec![4, 4], step, 0);
    engine.offer(&deep, vec![4, 4], step, 0);
    engine.offer(&shallow, vec![4, 4], step, 0);
    engine.offer(&root, vec![8], step, 0);
    let first = engine.pop().expect("the state entered at depth five");
    assert_eq!(
        first,
        Node { values: vec![4, 4], path: vec![step], depth: 5, estimated_cost: 8 }
    );
    let second = engine.pop().expect("the state entered again at depth two");
    assert_eq!(second.depth, 2);
    assert_eq!(second.values, vec![4, 4]);
    assert_eq!(engine.pop(), None);
}

#[test]
fn copy_path_keeps_every_step() {
    let path = vec![
        PathStep::SplitTwo { value: 8, part: 4 },
        PathStep::CombineTwo { first: 4, second: 4, sum: 8 },
    ];
    assert_eq!(copy_path(&path), path);
    assert_eq!(copy_path(&vec![]), vec![]);
}

#[test]
fn opposite_extremes_combine_exactly() {
    let found = search(vec![i64::MAX, i64::MIN], -1, 0, 1);
    assert_eq!(
        found,
        Some((
            vec![-1],
            vec![],
            vec![PathStep::CombineTwo { first: i64::MAX, second: i64::MIN, sum: -1 }]
        ))
    );
}

#[test]
fn sum_beyond_the_range_stops_at_its_end() {
    let found = search(vec![i64::MAX - 1, 5], i64::MAX, 0, 1);
    assert_eq!(
        found,
        Some((
            vec![i64::MAX],
            vec![],
            vec![PathStep::CombineTwo { first: i64::MAX - 1, second: 5, sum: i64::MAX }]
        ))
    );
}

#[test]
fn extreme_inputs_are_searched_without_overflow() {
    assert_eq!(search(vec![i64::MIN, i64::MIN, i64::MAX], 12_345, 0, 2), None);
}
