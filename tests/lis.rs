use algo_kit::lis::{lis_length, lower_bound};

#[test]
fn lower_bound_finds_first_not_less() {
    let a: Vec<i64> = vec![1, 3, 3, 5, 8];
    assert_eq!(lower_bound(&a, 0), 0);
    assert_eq!(lower_bound(&a, 1), 0);
    assert_eq!(lower_bound(&a, 3), 1);
    assert_eq!(lower_bound(&a, 4), 3);
    assert_eq!(lower_bound(&a, 8), 4);
    assert_eq!(lower_bound(&a, 9), 5);
}

#[test]
fn lower_bound_empty_slice() {
    let a: Vec<i64> = vec![];
    assert_eq!(lower_bound(&a, 7), 0);
}

#[test]
fn lis_of_classic_sequence() {
    assert_eq!(lis_length(&[10, 9, 2, 5, 3, 7, 101, 18]), 4);
    assert_eq!(lis_length(&[0, 1, 0, 3, 2, 3]), 4);
}

#[test]
fn lis_counts_strict_increase_only() {
    assert_eq!(lis_length(&[7, 7, 7, 7]), 1);
    assert_eq!(lis_length(&[5, 4, 3, 2, 1]), 1);
    assert_eq!(lis_length(&[1, 2, 3, 4, 5]), 5);
}

#[test]
fn lis_of_empty_and_single() {
    assert_eq!(lis_length(&[]), 0);
    assert_eq!(lis_length(&[i64::MIN]), 1);
}

#[test]
fn lis_with_extreme_values() {
    assert_eq!(lis_length(&[i64::MAX, i64::MIN, 0, i64::MAX]), 3);
}
