use belt_balancer::clock::{capped_millis, Deadline};

#[test]
fn a_deadline_of_no_milliseconds_has_passed_at_once() {
    let d = Deadline::after(0);
    assert_eq!(d.limit_millis, 0);
    assert!(d.passed());
    assert!(d.passed());
}

#[test]
fn a_distant_deadline_has_not_passed_yet() {
    let d = Deadline::after(3_600_000);
    assert!(!d.passed());
    assert!(d.elapsed_millis() < 3_600_000);
}

#[test]
fn the_limit_is_reached_at_the_limit_and_after_it() {
    let d = Deadline::after(30_000);
    assert!(!d.reached(0));
    assert!(!d.reached(29_999));
    assert!(d.reached(30_000));
    assert!(d.reached(u64::MAX));
}

#[test]
fn milliseconds_beyond_64_bits_are_capped() {
    assert_eq!(capped_millis(0), 0);
    assert_eq!(capped_millis(29_999), 29_999);
    assert_eq!(capped_millis(u64::MAX as u128), u64::MAX);
    assert_eq!(capped_millis(u64::MAX as u128 + 1), u64::MAX);
    assert_eq!(capped_millis(u128::MAX), u64::MAX);
}
