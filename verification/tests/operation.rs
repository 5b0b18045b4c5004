use belt_balancer::operation::{Operation, ReverseOperation};

#[test]
fn split_costs_one_and_merge_three() {
    let split = Operation::Split { input: 6, output: (Some(3), Some(3), None) };
    let merge = Operation::Merge { input: (Some(3), Some(3), None), output: 6 };
    assert_eq!(split.cost(), 1);
    assert_eq!(merge.cost(), 3);
}

#[test]
fn operations_compare_by_kind() {
    let a = Operation::Split { input: 6, output: (Some(3), Some(3), None) };
    let b = Operation::Split { input: 9, output: (Some(3), Some(3), Some(3)) };
    let c = Operation::Merge { input: (Some(3), Some(3), None), output: 6 };
    assert!(a == b);
    assert!(a != c);
    assert!(c == Operation::Merge { input: (Some(1), Some(1), Some(1)), output: 3 });
}

#[test]
fn reverse_split_flips_to_a_merge_of_the_same_values() {
    let rop = ReverseOperation::Split { input: 10, output: (Some(4), Some(6), None) };
    match rop.forward() {
        Operation::Merge { input, output } => {
            assert_eq!(input, (Some(4), Some(6), None));
            assert_eq!(output, 10);
        },
        Operation::Split { .. } => panic!("a reverse split must flip to a merge"),
    }
    assert_eq!(rop.cost(), 3);
}

#[test]
fn reverse_merge_flips_to_a_split_of_the_same_values() {
    let rop = ReverseOperation::Merge { input: (Some(5), Some(5), Some(5)), output: 15 };
    match rop.forward() {
        Operation::Split { input, output } => {
            assert_eq!(input, 15);
            assert_eq!(output, (Some(5), Some(5), Some(5)));
        },
        Operation::Merge { .. } => panic!("a reverse merge must flip to a split"),
    }
    assert_eq!(rop.cost(), 1);
}
