use belt_balancer::balancer::BalancerState;
use belt_balancer::helpers::{
    apply_operation, combinations, count_value, distinct_values, gcd, gcd_vec, merges,
    parts_to_vec, remove_value, replace_values, rev_merges, rev_splits, splits, unapply_operation,
};
use belt_balancer::operation::{Operation, ReverseOperation};

fn split_parts(op: &Operation) -> (u64, (Option<u64>, Option<u64>, Option<u64>)) {
    match op {
        Operation::Split { input, output } => (*input, *output),
        Operation::Merge { .. } => panic!("expected a split"),
    }
}

fn merge_parts(op: &Operation) -> ((Option<u64>, Option<u64>, Option<u64>), u64) {
    match op {
        Operation::Merge { input, output } => (*input, *output),
        Operation::Split { .. } => panic!("expected a merge"),
    }
}

fn rev_split_parts(op: &ReverseOperation) -> (u64, (Option<u64>, Option<u64>, Option<u64>)) {
    match op {
        ReverseOperation::Split { input, output } => (*input, *output),
        ReverseOperation::Merge { .. } => panic!("expected a reverse split"),
    }
}

fn rev_merge_parts(op: &ReverseOperation) -> ((Option<u64>, Option<u64>, Option<u64>), u64) {
    match op {
        ReverseOperation::Merge { input, output } => (*input, *output),
        ReverseOperation::Split { .. } => panic!("expected a reverse merge"),
    }
}

fn states_of<T>(r: &Vec<(T, BalancerState)>) -> Vec<Vec<u64>> {
    r.iter().map(|(_, s)| s.to_vec()).collect()
}

#[test]
fn gcd_edge_cases() {
    assert_eq!(gcd(0, 0), 0);
    assert_eq!(gcd(0, 7), 7);
    assert_eq!(gcd(7, 0), 7);
    assert_eq!(gcd(1, 999), 1);
    assert_eq!(gcd(48, 36), 12);
    assert_eq!(gcd(36, 48), 12);
    assert_eq!(gcd(17, 17), 17);
    assert_eq!(gcd(u64::MAX, u64::MAX - 1), 1);
    assert_eq!(gcd(1 << 63, 1 << 40), 1 << 40);
}

#[test]
fn gcd_of_powers_of_two_and_odd_numbers() {
    assert_eq!(gcd(1 << 20, 1 << 7), 1 << 7);
    assert_eq!(gcd(96, 40), 8);
    assert_eq!(gcd(3 * 5 * 7, 5 * 7 * 11), 35);
    assert_eq!(gcd(1_200_000_000, 45_000_000), 15_000_000);
    assert_eq!(gcd(1, 1), 1);
    assert_eq!(gcd(u64::MAX, u64::MAX), u64::MAX);
    assert_eq!(gcd(1 << 63, 1 << 63), 1 << 63);
    assert_eq!(gcd((1 << 63) + (1 << 62), 1 << 62), 1 << 62);
}

#[test]
fn gcd_vec_edge_cases() {
    assert_eq!(gcd_vec(vec![]), 0);
    assert_eq!(gcd_vec(vec![42]), 42);
    assert_eq!(gcd_vec(vec![0, 0]), 0);
    assert_eq!(gcd_vec(vec![0, 12, 18]), 6);
    assert_eq!(gcd_vec(vec![100_000_000, 200_000_000, 150_000_000]), 50_000_000);
}

#[test]
fn combinations_of_two_from_four() {
    let c = combinations(&vec![1, 2, 3, 4], 2);
    assert_eq!(
        c,
        vec![vec![1, 2], vec![1, 3], vec![1, 4], vec![2, 3], vec![2, 4], vec![3, 4]]
    );
}

#[test]
fn combinations_of_three_from_four() {
    let c = combinations(&vec![1, 2, 3, 4], 3);
    assert_eq!(c, vec![vec![1, 2, 3], vec![1, 2, 4], vec![1, 3, 4], vec![2, 3, 4]]);
}

#[test]
fn combinations_edge_cases() {
    assert_eq!(combinations(&vec![1, 2, 3], 0), Vec::<Vec<u64>>::new());
    assert_eq!(combinations(&vec![1, 2, 3], 4), Vec::<Vec<u64>>::new());
    assert_eq!(combinations(&vec![], 1), Vec::<Vec<u64>>::new());
    assert_eq!(combinations(&vec![], 0), Vec::<Vec<u64>>::new());
    assert_eq!(combinations(&vec![1, 2, 3], 3), vec![vec![1, 2, 3]]);
    assert_eq!(combinations(&vec![5, 5, 7], 1), vec![vec![5], vec![5], vec![7]]);
    assert_eq!(combinations(&vec![9], 1), vec![vec![9]]);
}

#[test]
fn combinations_keep_repeated_values() {
    let c = combinations(&vec![1, 1, 2], 2);
    assert_eq!(c, vec![vec![1, 1], vec![1, 2], vec![1, 2]]);
}

#[test]
fn distinct_values_in_order_of_first_occurrence() {
    assert_eq!(distinct_values(&vec![3, 1, 3, 2, 1]), vec![3, 1, 2]);
    assert_eq!(distinct_values(&vec![]), Vec::<u64>::new());
    assert_eq!(distinct_values(&vec![4, 4, 4]), vec![4]);
}

#[test]
fn remove_value_takes_out_the_first_occurrence_only() {
    let mut v = vec![1, 2, 3, 2];
    remove_value(&mut v, 2);
    assert_eq!(v, vec![1, 3, 2]);
    remove_value(&mut v, 9);
    assert_eq!(v, vec![1, 3, 2]);
}

#[test]
fn count_value_counts_occurrences() {
    assert_eq!(count_value(&vec![2, 5, 2, 2], 2), 3);
    assert_eq!(count_value(&vec![2, 5, 2, 2], 5), 1);
    assert_eq!(count_value(&vec![2, 5, 2, 2], 7), 0);
}

#[test]
fn parts_to_vec_keeps_filled_slots() {
    assert_eq!(parts_to_vec((Some(1), Some(2), None)), vec![1, 2]);
    assert_eq!(parts_to_vec((Some(1), Some(2), Some(3))), vec![1, 2, 3]);
    assert_eq!(parts_to_vec((None, None, None)), Vec::<u64>::new());
}

#[test]
fn replace_values_removes_one_occurrence_each() {
    let s = replace_values(&vec![5, 5, 5, 9], &vec![5, 5], &vec![10]);
    assert_eq!(s.to_vec(), vec![5, 9, 10]);
}

#[test]
fn apply_and_unapply_are_inverse_on_a_merge() {
    let op = Operation::Merge { input: (Some(2), Some(3), None), output: 5 };
    let after = apply_operation(&vec![3, 2, 7], &op);
    assert_eq!(after.to_vec(), vec![5, 7]);
    let rop = ReverseOperation::Split { input: 5, output: (Some(2), Some(3), None) };
    let before = unapply_operation(&after.to_vec(), &rop);
    assert_eq!(before.to_vec(), vec![2, 3, 7]);
}

#[test]
fn splits_of_distinct_values() {
    let r = splits(&vec![6, 6, 9]);
    assert_eq!(r.len(), 3);
    assert_eq!(split_parts(&r[0].0), (6, (Some(3), Some(3), None)));
    assert_eq!(split_parts(&r[1].0), (6, (Some(2), Some(2), Some(2))));
    assert_eq!(split_parts(&r[2].0), (9, (Some(3), Some(3), Some(3))));
    assert_eq!(
        states_of(&r),
        vec![vec![3, 3, 6, 9], vec![2, 2, 2, 6, 9], vec![3, 3, 3, 6, 6]]
    );
}

#[test]
fn splits_leave_out_what_would_lose_a_remainder() {
    assert_eq!(splits(&vec![7]).len(), 0);
    assert_eq!(splits(&vec![1]).len(), 0);
    let r = splits(&vec![3]);
    assert_eq!(r.len(), 1);
    assert_eq!(split_parts(&r[0].0), (3, (Some(1), Some(1), Some(1))));
    let r = splits(&vec![4]);
    assert_eq!(r.len(), 1);
    assert_eq!(split_parts(&r[0].0), (4, (Some(2), Some(2), None)));
}

#[test]
fn splits_keep_the_total() {
    let state = vec![12, 18, 30, 12];
    let sum: u64 = state.iter().sum();
    for (_, next) in splits(&state) {
        assert_eq!(next.iter().sum::<u64>(), sum);
    }
}

#[test]
fn splits_of_the_empty_state() {
    assert_eq!(splits(&vec![]).len(), 0);
}

#[test]
fn merges_of_pairs_and_triples() {
    let r = merges(&vec![1, 1, 2]);
    assert_eq!(r.len(), 3);
    assert_eq!(merge_parts(&r[0].0), ((Some(1), Some(1), None), 2));
    assert_eq!(merge_parts(&r[1].0), ((Some(1), Some(2), None), 3));
    assert_eq!(merge_parts(&r[2].0), ((Some(1), Some(1), Some(2)), 4));
    assert_eq!(states_of(&r), vec![vec![2, 2], vec![1, 3], vec![4]]);
}

#[test]
fn merges_remove_one_occurrence_of_each_merged_value() {
    let r = merges(&vec![5, 5, 5, 5]);
    assert_eq!(r.len(), 2);
    assert_eq!(merge_parts(&r[0].0), ((Some(5), Some(5), None), 10));
    assert_eq!(merge_parts(&r[1].0), ((Some(5), Some(5), Some(5)), 15));
    assert_eq!(states_of(&r), vec![vec![5, 5, 10], vec![5, 15]]);
}

#[test]
fn merges_order_the_merged_values() {
    let r = merges(&vec![9, 4]);
    assert_eq!(r.len(), 1);
    assert_eq!(merge_parts(&r[0].0), ((Some(4), Some(9), None), 13));
    assert_eq!(states_of(&r), vec![vec![13]]);
}

#[test]
fn merges_of_too_few_values() {
    assert_eq!(merges(&vec![]).len(), 0);
    assert_eq!(merges(&vec![8]).len(), 0);
}

#[test]
fn merges_leave_out_a_sum_that_does_not_fit() {
    let r = merges(&vec![u64::MAX, 1, 2]);
    assert_eq!(r.len(), 1);
    assert_eq!(merge_parts(&r[0].0), ((Some(1), Some(2), None), 3));
    assert_eq!(states_of(&r), vec![vec![3, u64::MAX]]);
}

#[test]
fn merges_keep_the_total() {
    let state = vec![10, 20, 20, 30];
    let sum: u64 = state.iter().sum();
    let r = merges(&state);
    assert_eq!(r.len(), 4 + 3);
    for (_, next) in r {
        assert_eq!(next.iter().sum::<u64>(), sum);
    }
}

#[test]
fn rev_splits_of_one_value() {
    let r = rev_splits(&vec![4], 1);
    assert_eq!(r.len(), 3);
    assert_eq!(rev_split_parts(&r[0].0), (4, (Some(1), Some(3), None)));
    assert_eq!(rev_split_parts(&r[1].0), (4, (Some(2), Some(2), None)));
    assert_eq!(rev_split_parts(&r[2].0), (4, (Some(1), Some(2), Some(1))));
    assert_eq!(states_of(&r), vec![vec![1, 3], vec![2, 2], vec![1, 1, 2]]);
}

#[test]
fn rev_splits_step_by_the_divisor() {
    let r = rev_splits(&vec![60, 7], 10);
    let of_sixty: Vec<_> = r.iter().filter(|(op, _)| rev_split_parts(op).0 == 60).collect();
    assert_eq!(rev_split_parts(&of_sixty[0].0), (60, (Some(10), Some(50), None)));
    assert_eq!(rev_split_parts(&of_sixty[1].0), (60, (Some(20), Some(40), None)));
    assert_eq!(rev_split_parts(&of_sixty[2].0), (60, (Some(30), Some(30), None)));
    assert_eq!(rev_split_parts(&of_sixty[3].0), (60, (Some(10), Some(40), Some(10))));
    assert_eq!(rev_split_parts(&of_sixty[4].0), (60, (Some(20), Some(30), Some(10))));
    assert_eq!(rev_split_parts(&of_sixty[5].0), (60, (Some(10), Some(30), Some(20))));
    assert_eq!(rev_split_parts(&of_sixty[6].0), (60, (Some(20), Some(20), Some(20))));
    assert_eq!(of_sixty.len(), 7);
    assert_eq!(of_sixty[0].1.to_vec(), vec![7, 10, 50]);
    assert_eq!(of_sixty[6].1.to_vec(), vec![7, 20, 20, 20]);
    assert_eq!(r.len(), 7);
}

#[test]
fn rev_splits_keep_the_total() {
    let state = vec![40, 90, 40];
    let sum: u64 = state.iter().sum();
    let r = rev_splits(&state, 10);
    assert!(r.len() > 0);
    for (_, prev) in r {
        assert_eq!(prev.iter().sum::<u64>(), sum);
    }
}

#[test]
fn rev_splits_with_divisor_zero_or_too_large() {
    assert_eq!(rev_splits(&vec![4, 8], 0).len(), 0);
    assert_eq!(rev_splits(&vec![4, 8], 9).len(), 0);
    assert_eq!(rev_splits(&vec![], 1).len(), 0);
}

#[test]
fn rev_merges_of_repeated_values() {
    let r = rev_merges(&vec![2, 2, 2, 5]);
    assert_eq!(r.len(), 2);
    assert_eq!(rev_merge_parts(&r[0].0), ((Some(2), Some(2), None), 4));
    assert_eq!(rev_merge_parts(&r[1].0), ((Some(2), Some(2), Some(2)), 6));
    assert_eq!(states_of(&r), vec![vec![2, 4, 5], vec![5, 6]]);
}

#[test]
fn rev_merges_need_a_repeated_value() {
    assert_eq!(rev_merges(&vec![1, 2, 3]).len(), 0);
    assert_eq!(rev_merges(&vec![]).len(), 0);
    let r = rev_merges(&vec![7, 7]);
    assert_eq!(r.len(), 1);
    assert_eq!(rev_merge_parts(&r[0].0), ((Some(7), Some(7), None), 14));
    assert_eq!(states_of(&r), vec![vec![14]]);
}

#[test]
fn rev_merges_leave_out_a_result_that_does_not_fit() {
    let big = u64::MAX / 2 + 1;
    assert_eq!(rev_merges(&vec![big, big, big]).len(), 0);
    let r = rev_merges(&vec![u64::MAX / 2, u64::MAX / 2, u64::MAX / 2]);
    assert_eq!(r.len(), 1);
    assert_eq!(rev_merge_parts(&r[0].0).1, u64::MAX - 1);
}
