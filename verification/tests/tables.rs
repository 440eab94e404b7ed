use split_combine::frontier::{Frontier, Node};
use split_combine::visited::{same_values, Visited};

fn node(tag: i64, cost: u128) -> Node {
    Node { values: vec![tag], path: Vec::new(), depth: 0, estimated_cost: cost }
}

#[test]
fn frontier_serves_the_cheapest_first() {
    let mut frontier = Frontier::new();
    frontier.push(node(1, 50));
    frontier.push(node(2, 30));
    frontier.push(node(3, 70));
    assert_eq!(frontier.len(), 3);
    assert_eq!(frontier.pop_min().map(|n| n.values), Some(vec![2]));
    assert_eq!(frontier.pop_min().map(|n| n.values), Some(vec![1]));
    assert_eq!(frontier.pop_min().map(|n| n.values), Some(vec![3]));
    assert!(frontier.is_empty());
}

#[test]
fn frontier_breaks_ties_by_order_of_entry() {
    let mut frontier = Frontier::new();
    frontier.push(node(1, 5));
    frontier.push(node(2, 3));
    frontier.push(node(3, 3));
    frontier.push(node(4, 7));
    frontier.push(node(5, 3));
    let order: Vec<i64> = std::iter::from_fn(|| frontier.pop_min()).map(|n| n.values[0]).collect();
    assert_eq!(order, vec![2, 3, 5, 1, 4]);
}

#[test]
fn empty_frontier_gives_nothing() {
    let mut frontier = Frontier::new();
    assert!(frontier.is_empty());
    assert_eq!(frontier.pop_min(), None);
    assert_eq!(frontier.len(), 0);
}

#[test]
fn frontier_returns_the_whole_node() {
    let mut frontier = Frontier::new();
    let kept = Node { values: vec![1, 2], path: Vec::new(), depth: 3, estimated_cost: 9 };
    frontier.push(Node { values: vec![1, 2], path: Vec::new(), depth: 3, estimated_cost: 9 });
    assert_eq!(frontier.pop_min(), Some(kept));
}

#[test]
fn table_lets_a_new_state_in() {
    let mut table = Visited::new();
    assert_eq!(table.depth_of(&vec![1, 2]), None);
    assert!(table.relax(&vec![1, 2], 3));
    assert_eq!(table.depth_of(&vec![1, 2]), Some(3));
}

#[test]
fn table_refuses_a_state_at_the_same_or_a_greater_depth() {
    let mut table = Visited::new();
    assert!(table.relax(&vec![1, 2], 3));
    assert!(!table.relax(&vec![1, 2], 3));
    assert!(!table.relax(&vec![1, 2], 4));
    assert_eq!(table.depth_of(&vec![1, 2]), Some(3));
}

#[test]
fn table_lets_a_state_in_again_at_a_smaller_depth() {
    let mut table = Visited::new();
    assert!(table.relax(&vec![1, 2], 3));
    assert!(table.relax(&vec![1, 2], 1));
    assert_eq!(table.depth_of(&vec![1, 2]), Some(1));
    assert!(!table.relax(&vec![1, 2], 2));
    assert!(table.relax(&vec![1, 2], 0));
    assert_eq!(table.depth_of(&vec![1, 2]), Some(0));
}

#[test]
fn table_tells_states_apart_by_order_and_length() {
    let mut table = Visited::new();
    table.record(&vec![1, 2], 5);
    assert_eq!(table.depth_of(&vec![2, 1]), None);
    assert_eq!(table.depth_of(&vec![1, 2, 0]), None);
    assert_eq!(table.depth_of(&vec![1]), None);
    assert_eq!(table.depth_of(&vec![]), None);
    assert!(table.relax(&vec![2, 1], 6));
    assert_eq!(table.depth_of(&vec![1, 2]), Some(5));
    assert_eq!(table.depth_of(&vec![2, 1]), Some(6));
}

#[test]
fn record_overwrites_with_any_depth() {
    let mut table = Visited::new();
    table.record(&vec![9], 1);
    table.record(&vec![9], 4);
    assert_eq!(table.depth_of(&vec![9]), Some(4));
}

#[test]
fn table_holds_many_states() {
    let mut table = Visited::new();
    for a in -20i64..20 {
        for b in -20i64..20 {
            assert!(table.relax(&vec![a, b], (a + b + 40) as usize));
        }
    }
    for a in -20i64..20 {
        for b in -20i64..20 {
            assert_eq!(table.depth_of(&vec![a, b]), Some((a + b + 40) as usize));
            assert!(!table.relax(&vec![a, b], 100));
        }
    }
}

#[test]
fn same_values_compares_element_by_element() {
    assert!(same_values(&vec![1, 2, 3], &vec![1, 2, 3]));
    assert!(!same_values(&vec![1, 2, 3], &vec![1, 2, 4]));
    assert!(!same_values(&vec![1, 2], &vec![1, 2, 3]));
    assert!(same_values(&vec![], &vec![]));
}
