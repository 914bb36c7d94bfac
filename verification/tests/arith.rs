use cliparse::arith;

#[test]
fn test_add() {
    assert_eq!(arith::add(2, 3), 5);
    assert_eq!(arith::add(-1, 1), 0);
    assert_eq!(arith::add(0, 0), 0);
}

#[test]
fn test_multiply() {
    assert_eq!(arith::multiply(2, 3), 6);
    assert_eq!(arith::multiply(-2, 3), -6);
    assert_eq!(arith::multiply(0, 100), 0);
}

#[test]
fn test_is_even() {
    assert!(arith::is_even(2));
    assert!(!arith::is_even(3));
}
