use prime::primes::{generate_primes, get_last_prime, get_primes, sum_array, sum_primes};

#[test]
fn primes_up_to_thirty() {
    assert_eq!(generate_primes(30), vec![2, 3, 5, 7, 11, 13, 17, 19, 23, 29]);
}

#[test]
fn primes_below_two_are_none() {
    assert_eq!(generate_primes(0), Vec::<usize>::new());
    assert_eq!(generate_primes(1), Vec::<usize>::new());
}

#[test]
fn two_is_the_first_prime() {
    assert_eq!(generate_primes(2), vec![2]);
    assert_eq!(generate_primes(3), vec![2, 3]);
}

#[test]
fn prime_limit_is_included() {
    assert_eq!(get_primes(13), vec![2, 3, 5, 7, 11, 13]);
    assert_eq!(get_primes(12), vec![2, 3, 5, 7, 11]);
}

#[test]
fn squares_of_primes_are_crossed_out() {
    let primes = generate_primes(121);
    assert!(!primes.contains(&4));
    assert!(!primes.contains(&9));
    assert!(!primes.contains(&25));
    assert!(!primes.contains(&49));
    assert!(!primes.contains(&121));
    assert!(primes.contains(&113));
    assert_eq!(primes.len(), 30);
}

#[test]
fn count_of_primes_below_ten_thousand() {
    assert_eq!(generate_primes(10_000).len(), 1229);
}

#[test]
fn last_prime_found() {
    assert_eq!(get_last_prime(10), 7);
    assert_eq!(get_last_prime(11), 11);
    assert_eq!(get_last_prime(100), 97);
}

#[test]
fn last_prime_without_primes_is_zero() {
    assert_eq!(get_last_prime(0), 0);
    assert_eq!(get_last_prime(1), 0);
}

#[test]
fn sum_of_small_primes() {
    assert_eq!(sum_primes(10), Some(17));
    assert_eq!(sum_primes(1), Some(0));
    assert_eq!(sum_primes(100), Some(1060));
}

#[test]
fn sum_of_array() {
    assert_eq!(sum_array(vec![1, 2, 3, 4]), Some(10));
    assert_eq!(sum_array(Vec::new()), Some(0));
}

#[test]
fn sum_at_the_largest_value() {
    assert_eq!(sum_array(vec![usize::MAX - 1, 1]), Some(usize::MAX));
}

#[test]
fn sum_overflow_is_reported() {
    assert_eq!(sum_array(vec![usize::MAX, 1]), None);
    assert_eq!(sum_array(vec![usize::MAX / 2 + 1, usize::MAX / 2 + 1, 0]), None);
}
