use cargo_example::{add, factorial, multiply};

#[test]
fn test_add() {
    assert_eq!(add(2, 3), 5);
    assert_eq!(add(-1, 1), 0);
}

#[test]
fn test_multiply() {
    assert_eq!(multiply(3, 4), 12);
    assert_eq!(multiply(0, 100), 0);
}

#[test]
fn test_factorial() {
    assert_eq!(factorial(0), 1);
    assert_eq!(factorial(1), 1);
    assert_eq!(factorial(5), 120);
}

#[test]
fn add_is_commutative_and_associative() {
    assert_eq!(add(7, 35), add(35, 7));
    assert_eq!(add(add(4, 9), 16), add(4, add(9, 16)));
    assert_eq!(add(0, 0), 0);
}

#[test]
fn add_at_the_edges_of_i32() {
    assert_eq!(add(i32::MAX, 0), i32::MAX);
    assert_eq!(add(i32::MIN, 0), i32::MIN);
    assert_eq!(add(i32::MAX, i32::MIN), -1);
}

#[test]
fn multiply_by_zero_gives_zero() {
    assert_eq!(multiply(123_456, 0), 0);
    assert_eq!(multiply(-7, 0), 0);
    assert_eq!(multiply(-6, 7), -42);
    assert_eq!(multiply(46_340, 46_340), 2_147_395_600);
}

#[test]
fn factorial_follows_its_recurrence() {
    for n in 1..=12u32 {
        assert_eq!(factorial(n), n * factorial(n - 1));
    }
}

#[test]
fn factorial_largest_that_fits() {
    assert_eq!(factorial(10), 3_628_800);
    assert_eq!(factorial(12), 479_001_600);
}
