use split_combine::arith::{
    combine_three, combine_two, deviation, split_into_three, split_into_two, SCALE,
};
use split_combine::heuristic::calculate_heuristic;

#[test]
fn scale_is_one_thousand() {
    assert_eq!(SCALE, 1000);
}

#[test]
fn halves_round_toward_zero() {
    assert_eq!(split_into_two(10), (5, 5));
    assert_eq!(split_into_two(5), (2, 2));
    assert_eq!(split_into_two(-5), (-2, -2));
    assert_eq!(split_into_two(1), (0, 0));
    assert_eq!(split_into_two(-1), (0, 0));
    assert_eq!(split_into_two(0), (0, 0));
}

#[test]
fn halves_of_the_extremes() {
    assert_eq!(split_into_two(i64::MAX), (4611686018427387903, 4611686018427387903));
    assert_eq!(split_into_two(i64::MIN), (-4611686018427387904, -4611686018427387904));
}

#[test]
fn thirds_round_toward_zero() {
    assert_eq!(split_into_three(60_000), (20_000, 20_000, 20_000));
    assert_eq!(split_into_three(10), (3, 3, 3));
    assert_eq!(split_into_three(-10), (-3, -3, -3));
    assert_eq!(split_into_three(2), (0, 0, 0));
    assert_eq!(split_into_three(-2), (0, 0, 0));
    assert_eq!(split_into_three(i64::MIN), (-3074457345618258602, -3074457345618258602, -3074457345618258602));
}

#[test]
fn sums_of_two() {
    assert_eq!(combine_two(10_000, 10_000), 20_000);
    assert_eq!(combine_two(-7, 3), -4);
    assert_eq!(combine_two(i64::MAX, -1), i64::MAX - 1);
}

#[test]
fn sums_of_two_stop_at_the_ends_of_the_range() {
    assert_eq!(combine_two(i64::MAX, 1), i64::MAX);
    assert_eq!(combine_two(i64::MAX, i64::MAX), i64::MAX);
    assert_eq!(combine_two(i64::MIN, -1), i64::MIN);
    assert_eq!(combine_two(i64::MIN, i64::MIN), i64::MIN);
}

#[test]
fn sums_of_three() {
    assert_eq!(combine_three(10_000, 6666, 6666), 23_332);
    assert_eq!(combine_three(1, -2, 3), 2);
}

#[test]
fn sums_of_three_saturate_only_on_the_whole_sum() {
    // the first two alone would leave the range; the sum of all three does not
    assert_eq!(combine_three(i64::MAX, i64::MAX, -i64::MAX), i64::MAX);
    assert_eq!(combine_three(i64::MAX, 10, -20), i64::MAX - 10);
    assert_eq!(combine_three(i64::MAX, i64::MAX, i64::MAX), i64::MAX);
    assert_eq!(combine_three(i64::MIN, i64::MIN, 5), i64::MIN);
}

#[test]
fn deviation_is_the_absolute_difference() {
    assert_eq!(deviation(5, 3), 2);
    assert_eq!(deviation(3, 5), 2);
    assert_eq!(deviation(-3, 4), 7);
    assert_eq!(deviation(4, 4), 0);
    assert_eq!(deviation(i64::MIN, i64::MAX), u64::MAX);
    assert_eq!(deviation(i64::MAX, i64::MIN), u64::MAX);
}

#[test]
fn heuristic_sums_the_deviations() {
    assert_eq!(calculate_heuristic(&[1000, 3000], 2000), 2000);
    assert_eq!(calculate_heuristic(&[5000, 5000], 5000), 0);
    assert_eq!(calculate_heuristic(&[20_000, 20_000, 20_000], 12_000), 24_000);
    assert_eq!(calculate_heuristic(&[-1, 1], 0), 2);
}

#[test]
fn heuristic_of_no_values_is_zero() {
    assert_eq!(calculate_heuristic(&[], 7), 0);
}

#[test]
fn heuristic_is_exact_beyond_the_value_range() {
    assert_eq!(
        calculate_heuristic(&[i64::MIN, i64::MIN, i64::MIN], i64::MAX),
        3 * (u64::MAX as u128)
    );
}
