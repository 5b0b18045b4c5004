use belt_balancer::balancer::{Balancer, BalancerResult, BalancerState, Outcome};
use belt_balancer::calc::sum_values;
use belt_balancer::moves::within_capacity;
use belt_balancer::helpers::{apply_operation, multiset, validate_state};
use belt_balancer::operation::Operation;

const UNIT: u64 = 100_000_000;
const MK6: u64 = 1200 * UNIT;

fn scaled(values: &[u64]) -> Vec<u64> {
    values.iter().map(|v| v * UNIT).collect()
}

/// Replays the path from the inputs and checks each recorded state.
fn assert_solution(b: &Balancer, r: &BalancerResult) {
    assert_eq!(r.outcome, Outcome::Solved);
    let sum: u64 = b.inputs.iter().sum();
    let mut current = multiset(b.inputs.clone());
    for (op, state) in r.iter() {
        let replayed = apply_operation(&current.to_vec(), op);
        assert!(replayed == *state);
        assert_eq!(state.iter().sum::<u64>(), sum);
        assert!(state.iter().all(|v| *v <= b.max_belt));
        let mut sorted = state.to_vec();
        sorted.sort();
        assert_eq!(sorted, state.to_vec());
        match op {
            Operation::Split { input, output } => {
                let parts = output.0.unwrap() + output.1.unwrap() + output.2.unwrap_or(0);
                assert_eq!(parts, *input);
                assert!(current.iter().any(|v| v == input));
            },
            Operation::Merge { input, output } => {
                let parts = input.0.unwrap() + input.1.unwrap() + input.2.unwrap_or(0);
                assert_eq!(parts, *output);
            },
        }
        current = state.clone();
    }
    assert!(current == multiset(b.outputs.clone()));
    assert_eq!(sum, b.outputs.iter().sum::<u64>());
}

#[test]
fn two_splits_into_two_ones() {
    let b = Balancer::new(scaled(&[2]), scaled(&[1, 1]), MK6);
    let r = b.search(1000);
    assert_eq!(r.outcome, Outcome::Solved);
    assert_eq!(r.path.len(), 1);
    match r.path[0].0 {
        Operation::Split { input, output } => {
            assert_eq!(input, 2 * UNIT);
            assert_eq!(output, (Some(UNIT), Some(UNIT), None));
        },
        Operation::Merge { .. } => panic!("expected a split"),
    }
    assert_eq!(r.path[0].1.to_vec(), scaled(&[1, 1]));
    assert_solution(&b, &r);
}

#[test]
fn two_ones_merge_into_two() {
    let b = Balancer::new(scaled(&[1, 1]), scaled(&[2]), MK6);
    let r = b.search(1000);
    assert_eq!(r.outcome, Outcome::Solved);
    assert_eq!(r.path.len(), 1);
    match r.path[0].0 {
        Operation::Merge { input, output } => {
            assert_eq!(input, (Some(UNIT), Some(UNIT), None));
            assert_eq!(output, 2 * UNIT);
        },
        Operation::Split { .. } => panic!("expected a merge"),
    }
    assert_eq!(r.path[0].1.to_vec(), scaled(&[2]));
    assert_solution(&b, &r);
}

#[test]
fn same_values_need_no_operation() {
    let b = Balancer::new(scaled(&[1, 1, 1]), scaled(&[1, 1, 1]), MK6);
    let r = b.search(1000);
    assert_eq!(r.outcome, Outcome::Solved);
    assert_eq!(r.path.len(), 0);
    assert_eq!(r.iter().count(), 0);
    assert_eq!(r.checked_states, 1);
}

#[test]
fn same_values_in_another_order_need_no_operation() {
    let b = Balancer::new(scaled(&[3, 1, 2]), scaled(&[2, 3, 1]), MK6);
    let r = b.search(1);
    assert_eq!(r.outcome, Outcome::Solved);
    assert_eq!(r.path.len(), 0);
}

#[test]
fn unbalanced_totals_are_not_searched() {
    let b = Balancer::new(scaled(&[1]), scaled(&[1, 1]), MK6);
    let r = b.search(1000);
    assert_eq!(r.outcome, Outcome::Unbalanced);
    assert_eq!(r.path.len(), 0);
    assert_eq!(r.checked_states, 0);
    assert_eq!(r.total_states, 0);
}

#[test]
fn capacity_forbids_the_only_merge() {
    let b = Balancer::new(scaled(&[3, 3]), scaled(&[6]), 5 * UNIT);
    let r = b.search(1000);
    assert_eq!(r.outcome, Outcome::Exhausted);
    assert_eq!(r.path.len(), 0);
    assert_eq!(b.get_states_fwd(&scaled(&[3, 3]), 3 * UNIT).len(), 0);
}

#[test]
fn a_value_that_cannot_be_split_exactly_is_exhausted() {
    // 5 has no exact split and nothing to merge with, so 2 + 3 cannot be made of it
    let b = Balancer::new(vec![5], vec![2, 3], MK6);
    let r = b.search(100_000);
    assert_eq!(r.outcome, Outcome::Exhausted);
    assert_eq!(r.path.len(), 0);
    assert!(r.checked_states < 100_000);
    assert_eq!(b.get_states_fwd(&vec![5], 1).len(), 0);
}

#[test]
fn exhaustion_is_not_a_matter_of_budget() {
    let b = Balancer::new(vec![7, 7], vec![14], 13);
    let small = b.search(50);
    let large = b.search(5_000);
    assert_eq!(small.outcome, Outcome::Exhausted);
    assert_eq!(large.outcome, Outcome::Exhausted);
    assert_eq!(small.checked_states, large.checked_states);
}

#[test]
fn capacity_that_just_allows_the_merge() {
    let b = Balancer::new(scaled(&[3, 3]), scaled(&[6]), 6 * UNIT);
    let r = b.search(1000);
    assert_eq!(r.path.len(), 1);
    assert_solution(&b, &r);
}

#[test]
fn wall_clock_search_finds_the_split() {
    let b = Balancer::new(scaled(&[2]), scaled(&[1, 1]), MK6);
    let r = b.find_ideal_balance();
    assert_eq!(r.path.len(), 1);
    assert_solution(&b, &r);
}

#[test]
fn wall_clock_search_reports_unbalanced_totals() {
    let b = Balancer::new(scaled(&[5]), scaled(&[2, 2]), MK6);
    let r = b.find_ideal_balance();
    assert_eq!(r.outcome, Outcome::Unbalanced);
    assert_eq!(r.checked_states, 0);
}

#[test]
fn no_budget_is_a_timeout() {
    let b = Balancer::new(scaled(&[2]), scaled(&[1, 1]), MK6);
    let r = b.search(0);
    assert_eq!(r.outcome, Outcome::TimedOut);
    assert_eq!(r.checked_states, 0);
    assert_eq!(r.path.len(), 0);
}

#[test]
fn a_budget_of_one_step_is_too_small_for_a_split() {
    let b = Balancer::new(scaled(&[2]), scaled(&[1, 1]), MK6);
    let r = b.search(1);
    assert_eq!(r.outcome, Outcome::TimedOut);
    assert_eq!(r.checked_states, 1);
    assert_eq!(r.total_states, 1);
    let r = b.search(2);
    assert_eq!(r.outcome, Outcome::Solved);
    assert_eq!(r.checked_states, 2);
}

#[test]
fn the_same_query_gives_the_same_result() {
    let b = Balancer::new(scaled(&[4, 4, 4]), scaled(&[6, 6]), MK6);
    let first = b.search(10_000);
    let second = b.search(10_000);
    assert_eq!(first.outcome, second.outcome);
    assert_eq!(first.checked_states, second.checked_states);
    assert_eq!(first.total_states, second.total_states);
    assert_eq!(first.path.len(), second.path.len());
    for (x, y) in first.iter().zip(second.iter()) {
        assert!(x.1 == y.1);
    }
}

#[test]
fn three_fours_into_two_sixes() {
    let b = Balancer::new(scaled(&[4, 4, 4]), scaled(&[6, 6]), MK6);
    let r = b.search(10_000);
    assert_solution(&b, &r);
    assert!(r.path.len() >= 2);
}

#[test]
fn one_belt_into_three_and_back() {
    let b = Balancer::new(scaled(&[9]), scaled(&[3, 3, 3]), MK6);
    let r = b.search(10_000);
    assert_solution(&b, &r);
    assert_eq!(r.path.len(), 1);
    let b = Balancer::new(scaled(&[3, 3, 3]), scaled(&[9]), MK6);
    let r = b.search(10_000);
    assert_solution(&b, &r);
    assert_eq!(r.path.len(), 1);
}

#[test]
fn uneven_outputs_need_several_operations() {
    let b = Balancer::new(scaled(&[60]), scaled(&[10, 20, 30]), MK6);
    let r = b.search(100_000);
    assert_solution(&b, &r);
}

#[test]
fn paths_respect_a_tight_capacity() {
    let b = Balancer::new(scaled(&[2, 2, 2, 2]), scaled(&[4, 4]), 4 * UNIT);
    let r = b.search(100_000);
    assert_solution(&b, &r);
    for (_, state) in r.iter() {
        assert!(within_capacity(state, 4 * UNIT));
        assert!(validate_state(state, 2 * UNIT));
    }
}

#[test]
fn empty_query_is_solved_by_doing_nothing() {
    let b = Balancer::new(vec![], vec![], MK6);
    let r = b.search(10);
    assert_eq!(r.outcome, Outcome::Solved);
    assert_eq!(r.path.len(), 0);
}

#[test]
fn heuristic_counts_what_is_missing() {
    assert_eq!(Balancer::heuristic(&vec![2], &vec![1, 1], 1), 6);
    assert_eq!(Balancer::heuristic(&vec![1, 1], &vec![1, 1], 1), 0);
    assert_eq!(Balancer::heuristic(&vec![1, 3], &vec![1, 1, 2], 1), 3 + 3);
}

#[test]
fn heuristic_charges_for_surplus_channels() {
    assert_eq!(Balancer::heuristic(&vec![1, 1, 1, 1], &vec![4], 1), 3 + 1);
    assert_eq!(Balancer::heuristic(&vec![1, 1, 1, 1, 1, 1], &vec![6], 1), 3 + 2);
    assert_eq!(Balancer::heuristic(&vec![4], &vec![4, 4, 4], 4), 6);
}

#[test]
fn heuristic_creation_costs() {
    // 6 is no multiple of 4, but the state holds the larger multiple 12
    assert_eq!(Balancer::heuristic(&vec![12], &vec![6], 4), 3);
    // the state holds 6 itself, a multiple of 6 that is not larger
    assert_eq!(Balancer::heuristic(&vec![6], &vec![6, 6], 4), 2);
    // nothing in the state is a multiple of 6
    assert_eq!(Balancer::heuristic(&vec![5], &vec![6], 4), 1);
    assert_eq!(Balancer::heuristic(&vec![], &vec![], 0), 0);
}

#[test]
fn forward_states_pass_gate_and_capacity() {
    let b = Balancer::new(vec![], vec![], 30);
    let next = b.get_states_fwd(&vec![20, 20], 10);
    // halves of 20 pass; thirds are inexact; the merge into 40 exceeds the capacity
    assert_eq!(next.len(), 1);
    assert_eq!(next[0].1.to_vec(), vec![10, 10, 20]);
    let b = Balancer::new(vec![], vec![], 40);
    let next = b.get_states_fwd(&vec![20, 20], 10);
    assert_eq!(next.len(), 2);
    assert_eq!(next[1].1.to_vec(), vec![40]);
    let next = b.get_states_fwd(&vec![20, 20], 20);
    assert_eq!(next.len(), 1);
    assert_eq!(next[0].1.to_vec(), vec![40]);
}

#[test]
fn backward_states_pass_gate_and_capacity() {
    let b = Balancer::new(vec![], vec![], 30);
    let prev = b.get_states_bkwd(&vec![20, 20], 10);
    // 20 = 10 + 10; two 20s could come from a split of 40, which exceeds the capacity
    assert_eq!(prev.len(), 1);
    assert_eq!(prev[0].1.to_vec(), vec![10, 10, 20]);
    let b = Balancer::new(vec![], vec![], 40);
    let prev = b.get_states_bkwd(&vec![20, 20], 10);
    assert_eq!(prev.len(), 2);
    assert_eq!(prev[1].1.to_vec(), vec![40]);
}

#[test]
fn sum_values_does_not_overflow() {
    assert_eq!(sum_values(&vec![]), 0);
    assert_eq!(sum_values(&vec![1, 2, 3]), 6);
    assert_eq!(sum_values(&vec![u64::MAX, u64::MAX]), 2 * (u64::MAX as u128));
}

#[test]
fn within_capacity_checks_every_value() {
    assert!(within_capacity(&BalancerState::new(vec![1, 5, 3]), 5));
    assert!(!within_capacity(&BalancerState::new(vec![1, 6, 3]), 5));
    assert!(within_capacity(&BalancerState::new(vec![]), 0));
}
