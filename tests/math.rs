use nflz::{count_digits_without_leading_zeroes, digits};

#[test]
fn test_count_digits_without_leading_zeroes() {
    assert_eq!(count_digits_without_leading_zeroes(0), 0);
    assert_eq!(count_digits_without_leading_zeroes(1), 1);
    assert_eq!(count_digits_without_leading_zeroes(9), 1);
    assert_eq!(count_digits_without_leading_zeroes(10), 2);
    assert_eq!(count_digits_without_leading_zeroes(999), 3);
}

#[test]
fn digit_counts_at_the_edges() {
    assert_eq!(count_digits_without_leading_zeroes(1000), 4);
    assert_eq!(count_digits_without_leading_zeroes(12345), 5);
    assert_eq!(count_digits_without_leading_zeroes(u64::MAX), 20);
    assert_eq!(digits(0), 0);
    assert_eq!(digits(9), 1);
    assert_eq!(digits(10), 2);
    assert_eq!(digits(999), 3);
    assert_eq!(digits(734), 3);
}
