use algo_kit::matrix::{fibonacci, mat_mul, mat_pow, Matrix, MOD};

#[test]
fn fibonacci_small_values() {
    assert_eq!(fibonacci(0), 0);
    assert_eq!(fibonacci(1), 1);
    assert_eq!(fibonacci(2), 1);
    assert_eq!(fibonacci(3), 2);
    assert_eq!(fibonacci(10), 55);
}

#[test]
fn fibonacci_reduced_modulo() {
    assert_eq!(fibonacci(50), 586268941);
    assert_eq!(fibonacci(90), 210345902);
    assert_eq!(fibonacci(100), 687995182);
}

#[test]
fn fibonacci_largest_input_stays_reduced() {
    assert!(fibonacci(u64::MAX) < MOD);
}

#[test]
fn mat_mul_reduces_entries() {
    let a: Matrix = [[2, 3], [4, 5]];
    let b: Matrix = [[6, 7], [8, 9]];
    assert_eq!(mat_mul(&a, &b), [[36, 41], [64, 73]]);
    let big: Matrix = [[MOD - 1, 0], [0, MOD - 1]];
    assert_eq!(mat_mul(&big, &big), [[1, 0], [0, 1]]);
}

#[test]
fn mat_pow_zero_is_identity() {
    let a: Matrix = [[2, 3], [4, 5]];
    assert_eq!(mat_pow(a, 0), [[1, 0], [0, 1]]);
    assert_eq!(mat_pow(a, 1), a);
}

#[test]
fn mat_pow_matches_repeated_products() {
    let a: Matrix = [[123456789, 987654321], [55555, 1]];
    let mut expected: Matrix = [[1, 0], [0, 1]];
    for k in 0..20u64 {
        assert_eq!(mat_pow(a, k), expected);
        expected = mat_mul(&expected, &a);
    }
}
