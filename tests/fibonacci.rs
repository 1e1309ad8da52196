use algorithms::{divide_conquer_fibonacci, dynamic_programming_fibonacci, fibonacci};

#[test]
fn fibonacci_small_values() {
    let expected: [u64; 8] = [1, 1, 2, 3, 5, 8, 13, 21];
    for (n, e) in expected.iter().enumerate() {
        assert_eq!(fibonacci(n as u32), *e);
        assert_eq!(divide_conquer_fibonacci(n as u32), *e);
        assert_eq!(dynamic_programming_fibonacci(n as u32), *e);
    }
}

#[test]
fn fibonacci_of_twelve() {
    assert_eq!(fibonacci(12), 233);
    assert_eq!(divide_conquer_fibonacci(12), 233);
    assert_eq!(dynamic_programming_fibonacci(12), 233);
}

#[test]
fn fibonacci_largest_in_u64() {
    assert_eq!(divide_conquer_fibonacci(92), 12200160415121876738);
    assert_eq!(dynamic_programming_fibonacci(92), 12200160415121876738);
    assert_eq!(divide_conquer_fibonacci(91), 7540113804746346429);
}
