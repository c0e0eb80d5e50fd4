use rust_practice_lab::basics::example;
use rust_practice_lab::fibonacci::{fib, using_fib};
use rust_practice_lab::{fibonacci_iterative, fibonacci_recursive};

#[test]
fn example_below_ten() {
    assert_eq!(example(3), Some(3));
    assert_eq!(example(9), Some(9));
    assert_eq!(example(-4), Some(-4));
}

#[test]
fn example_ten_and_above() {
    assert_eq!(example(10), None);
    assert_eq!(example(i32::MAX), None);
}

#[test]
fn fibonacci_recursive_values() {
    assert_eq!(fibonacci_recursive(0), 0);
    assert_eq!(fibonacci_recursive(1), 1);
    assert_eq!(fibonacci_recursive(2), 1);
    assert_eq!(fibonacci_recursive(10), 55);
    assert_eq!(fibonacci_recursive(20), 6765);
    assert_eq!(fibonacci_recursive(-3), -3);
}

#[test]
fn fibonacci_iterative_values() {
    assert_eq!(fibonacci_iterative(-5), 1);
    assert_eq!(fibonacci_iterative(0), 1);
    assert_eq!(fibonacci_iterative(1), 1);
    assert_eq!(fibonacci_iterative(2), 1);
    assert_eq!(fibonacci_iterative(10), 55);
    assert_eq!(fibonacci_iterative(92), 7540113804746346429);
}

#[test]
fn fib_values() {
    assert_eq!(fib(0), Some(1));
    assert_eq!(fib(1), Some(1));
    assert_eq!(fib(10), Some(89));
    assert_eq!(fib(60), Some(2504730781961));
    assert_eq!(fib(61), None);
}

#[test]
fn using_fib_adds_offset() {
    assert_eq!(using_fib(10), Some(1088));
    assert_eq!(using_fib(40), Some(165580141 + 999));
    assert_eq!(using_fib(61), None);
}
