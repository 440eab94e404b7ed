use split_combine::partition::find_final_and_remainder;

#[test]
fn partition_keeps_the_order_of_both_parts() {
    let parts = find_final_and_remainder(&[19_600, 5, 20_400, 7, 20_000], 20_000, 500);
    assert_eq!(parts, Some((vec![19_600, 20_400, 20_000], vec![5, 7])));
}

#[test]
fn partition_fails_when_no_value_is_close() {
    assert_eq!(find_final_and_remainder(&[1000, 2000], 100_000, 500), None);
    assert_eq!(find_final_and_remainder(&[], 0, 500), None);
}

#[test]
fn one_close_value_is_enough() {
    let parts = find_final_and_remainder(&[10_000, 20_000], 20_000, 500);
    assert_eq!(parts, Some((vec![20_000], vec![10_000])));
}

#[test]
fn margin_is_inclusive() {
    assert_eq!(
        find_final_and_remainder(&[19_500, 20_500, 19_499, 20_501], 20_000, 500),
        Some((vec![19_500, 20_500], vec![19_499, 20_501]))
    );
}

#[test]
fn zero_margin_needs_the_exact_target() {
    assert_eq!(find_final_and_remainder(&[4, 5, 6], 5, 0), Some((vec![5], vec![4, 6])));
}

#[test]
fn negative_margin_admits_nothing() {
    assert_eq!(find_final_and_remainder(&[5, 5], 5, -1), None);
}

#[test]
fn partition_is_exact_at_the_ends_of_the_range() {
    assert_eq!(find_final_and_remainder(&[i64::MIN], i64::MAX, i64::MAX), None);
    assert_eq!(
        find_final_and_remainder(&[i64::MIN, -1, 0], i64::MAX, i64::MAX),
        Some((vec![0], vec![i64::MIN, -1]))
    );
}

#[test]
fn every_final_value_is_close_and_every_other_is_not() {
    let values = [3, 18, 25, 22, -4, 20, 17, 23];
    let (target, margin) = (20, 2);
    let (final_values, remainder) =
        find_final_and_remainder(&values, target, margin).expect("20 is on target");
    assert!(!final_values.is_empty());
    assert!(final_values.iter().all(|v| (v - target).abs() <= margin));
    assert!(remainder.iter().all(|v| (v - target).abs() > margin));
    assert_eq!(final_values.len() + remainder.len(), values.len());
}
