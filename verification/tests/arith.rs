use columnar_exec::arith::{checked_power_of_two_at_least, gcd};

#[test]
fn greatest_common_divisors() {
    assert_eq!(gcd(0, 0), 0);
    assert_eq!(gcd(0, 12), 12);
    assert_eq!(gcd(12, 0), 12);
    assert_eq!(gcd(12, 18), 6);
    assert_eq!(gcd(1_000_000, 999_999), 1);
    assert_eq!(gcd(i64::MAX, 7), 7);
    // Every common divisor divides it.
    for divisor in [1, 2, 3, 6] {
        assert_eq!(gcd(12, 18) % divisor, 0);
    }
}

#[test]
fn powers_of_two_are_rounded_up() {
    assert_eq!(checked_power_of_two_at_least(0), Some(1));
    assert_eq!(checked_power_of_two_at_least(1), Some(1));
    assert_eq!(checked_power_of_two_at_least(5), Some(8));
    assert_eq!(checked_power_of_two_at_least(8), Some(8));
    assert_eq!(checked_power_of_two_at_least(usize::MAX), None);
}
