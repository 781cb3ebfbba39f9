use num_traits::FromPrimitive;
use pokerscore::big::{get_digit_count, get_sum_of_digits, is_num_palindrome, num_reverse};

#[test]
fn test_bi() {
    let n = num_bigint::BigUint::from_u64(1234).unwrap();

    println!("{}", get_sum_of_digits(&n));
}

#[test]
fn test_big_reverse() {
    let n = num_bigint::BigUint::from_u64(1234).unwrap();
    let r = num_reverse(&n);
    assert_eq!(r, num_bigint::BigUint::from_u64(4321).unwrap());
    let t = num_bigint::BigUint::from_u64(1200).unwrap();
    assert_eq!(num_reverse(&t), num_bigint::BigUint::from_u64(21).unwrap());
}

#[test]
fn test_big_palindrome() {
    let p = num_bigint::BigUint::from_u64(1221).unwrap();
    assert!(is_num_palindrome(&p));
    let q = num_bigint::BigUint::from_u64(1231).unwrap();
    assert!(!is_num_palindrome(&q));
    let small = num_bigint::BigUint::from_u64(7).unwrap();
    assert!(is_num_palindrome(&small));
}

#[test]
fn test_big_digit_count() {
    // Zero prints as one digit here, unlike the machine-word count.
    let z = num_bigint::BigUint::from_u64(0).unwrap();
    assert_eq!(get_digit_count(&z), 1);
    let n = num_bigint::BigUint::from_u64(12345).unwrap();
    assert_eq!(get_digit_count(&n), 5);
}

#[test]
fn test_big_digit_sum() {
    let n = num_bigint::BigUint::from_u64(1234).unwrap();
    assert_eq!(get_sum_of_digits(&n), 10);
    let z = num_bigint::BigUint::from_u64(0).unwrap();
    assert_eq!(get_sum_of_digits(&z), 0);
}
