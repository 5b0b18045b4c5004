use belt_balancer::balancer::{Balancer, BalancerResult, BalancerState, Outcome};
use belt_balancer::helpers::{multiset, validate_state};

#[test]
fn multiset_sorts_ascending() {
    let s = multiset(vec![30, 10, 20, 10]);
    assert_eq!(s.values, vec![10, 10, 20, 30]);
    assert_eq!(s.len(), 4);
}

#[test]
fn multiset_of_nothing_is_empty() {
    let s = multiset(vec![]);
    assert_eq!(s.len(), 0);
    assert_eq!(s.to_vec(), Vec::<u64>::new());
}

#[test]
fn multiset_twice_is_multiset_once() {
    let once = multiset(vec![7, 3, 9, 3, 1]);
    let twice = multiset(once.to_vec());
    assert!(once == twice);
    assert_eq!(twice.values, vec![1, 3, 3, 7, 9]);
}

#[test]
fn multiset_ignores_the_order_given() {
    let a = multiset(vec![5, 1, 4, 1]);
    let b = multiset(vec![1, 1, 4, 5]);
    let c = multiset(vec![4, 5, 1, 1]);
    assert!(a == b);
    assert!(b == c);
    assert!(a != multiset(vec![1, 4, 5]));
}

#[test]
fn state_new_keeps_the_values_as_given() {
    let s = BalancerState::new(vec![3, 1, 2]);
    assert_eq!(s.to_vec(), vec![3, 1, 2]);
    assert_eq!(s.len(), 3);
    assert_eq!(s.iter().copied().collect::<Vec<u64>>(), vec![3, 1, 2]);
    assert!(s != multiset(vec![3, 1, 2]));
    assert!(s.clone() == s);
}

#[test]
fn validate_rejects_the_empty_state() {
    assert!(!validate_state(&multiset(vec![]), 10));
    assert!(!validate_state(&multiset(vec![]), 1));
    assert!(!validate_state(&multiset(vec![]), 0));
}

#[test]
fn validate_accepts_multiples_of_the_divisor() {
    assert!(validate_state(&multiset(vec![10, 20, 270]), 10));
    assert!(validate_state(&multiset(vec![10]), 10));
    assert!(validate_state(&multiset(vec![3, 1, 2]), 1));
}

#[test]
fn validate_rejects_a_value_that_is_no_multiple() {
    assert!(!validate_state(&multiset(vec![10, 25]), 10));
    assert!(!validate_state(&multiset(vec![20, 30, 31]), 10));
}

#[test]
fn validate_rejects_a_value_below_the_divisor() {
    assert!(!validate_state(&multiset(vec![5, 10]), 10));
    assert!(!validate_state(&multiset(vec![0, 10]), 10));
}

#[test]
fn validate_with_divisor_zero_accepts_only_zeros() {
    assert!(validate_state(&multiset(vec![0, 0]), 0));
    assert!(!validate_state(&multiset(vec![0, 5]), 0));
}

#[test]
fn balancer_new_holds_what_it_is_given() {
    let b = Balancer::new(vec![2, 1], vec![3], 7);
    assert_eq!(b.inputs, vec![2, 1]);
    assert_eq!(b.outputs, vec![3]);
    assert_eq!(b.max_belt, 7);
}

#[test]
fn result_default_is_an_empty_failure() {
    let r = BalancerResult::default();
    assert_eq!(r.outcome, Outcome::Exhausted);
    assert_eq!(r.iter().count(), 0);
    assert_eq!(r.total_states, 0);
    assert_eq!(r.checked_states, 0);
    assert_eq!(r.elapsed_millis, 0);
}

#[test]
fn result_new_is_a_solution() {
    let r = BalancerResult::new(vec![], 4, 2, 9);
    assert_eq!(r.outcome, Outcome::Solved);
    assert_eq!(r.total_states, 4);
    assert_eq!(r.checked_states, 2);
    assert_eq!(r.elapsed_millis, 9);
    let f = BalancerResult::without_path(Outcome::TimedOut, 1, 2, 3);
    assert_eq!(f.outcome, Outcome::TimedOut);
    assert_eq!(f.path.len(), 0);
}
