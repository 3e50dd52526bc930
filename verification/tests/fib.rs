use miniactor::fib::{fib_loop, fib_recur};

#[test]
fn test_loop_small() {
    assert_eq!(fib_loop(0), 0);
    assert_eq!(fib_loop(1), 1);
    assert_eq!(fib_loop(2), 1);
    assert_eq!(fib_loop(3), 2);
    assert_eq!(fib_loop(4), 3);
    assert_eq!(fib_loop(5), 5);
    assert_eq!(fib_loop(6), 8);
    assert_eq!(fib_loop(7), 13);
}

#[test]
fn test_recur_small() {
    assert_eq!(fib_recur(0), 0);
    assert_eq!(fib_recur(1), 1);
    assert_eq!(fib_recur(2), 1);
    assert_eq!(fib_recur(3), 2);
    assert_eq!(fib_recur(4), 3);
    assert_eq!(fib_recur(5), 5);
    assert_eq!(fib_recur(6), 8);
    assert_eq!(fib_recur(7), 13);
}

#[test]
fn test_loop_large() {
    assert_eq!(fib_loop(50), 12_586_269_025);
    assert_eq!(fib_loop(70), 190_392_490_709_135);
}

#[test]
fn test_recur_large() {
    assert_eq!(fib_recur(50), 12_586_269_025);
    assert_eq!(fib_recur(70), 190_392_490_709_135);
}
