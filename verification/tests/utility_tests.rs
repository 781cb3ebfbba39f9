use pokerscore::utility::{
    digits_to_int, factorial, gen_pandigital, gen_permutation, gen_primes, get_digit_count,
    get_sum_of_digits, hexagonal, int_to_digits, is_hexagonal, is_lychrel, is_num_palindrome,
    is_pandigital, is_pandigital_z, is_pentagonal, is_permutation, is_prime, is_triangular,
    n_choose_r, num_reverse, pentagonal, prime_factors, to_num, triangular,
};

#[test]
fn test_it() {
    println!("{}", is_lychrel(349));
    println!("{}", is_lychrel(9999));
}

#[test]
fn test_primes() {
    let v = gen_primes(11);
    println!("{:?}", v);

    assert!(v.len() == 5);
}

#[test]
fn test_perm() {
    let mut c = 0;
    let mut g = gen_permutation(&[1, 2, 3, 4]);
    loop {
        println!("{:?}", g.current());
        c = c + 1;
        if !g.advance() {
            break;
        }
    }

    assert!(c == 1 * 2 * 3 * 4);
}

#[test]
fn test_factor() {
    let t = prime_factors(644);
    assert!(t.len() == 4);
    assert!(t[0] == 2 && t[1] == 2 && t[2] == 7 && t[3] == 23);
}

#[test]
fn test_prime() {
    let tst = is_prime(7);
    assert!(tst);

    let tst2 = is_prime(6);
    assert!(!tst2)
}

#[test]
fn test_to_digits() {
    let n = 12872;
    let v = int_to_digits(n);
    println!("{:?}", v);
}

#[test]
fn test_from_digits() {
    let j = 12872;
    let v = int_to_digits(j);
    let n = digits_to_int(&v);
    assert!(n == 12872);
}

#[test]
fn test_pandigital() {
    let tst = is_pandigital(123456789);
    assert!(tst);

    let tst2 = is_pandigital(122456789);
    assert!(!tst2)
}

#[test]
fn test_triangular() {
    for n in 1..10 {
        let t = triangular(n);
        assert!(is_triangular(t));
    }
}

#[test]
fn test_hexagonal() {
    for n in 1..10 {
        let h = hexagonal(n);
        assert!(is_hexagonal(h));
    }
}

#[test]
fn test_pentagonal() {
    for n in 1..10 {
        let h = pentagonal(n);
        assert!(is_pentagonal(h));
    }
}

#[test]
fn test_pandigital_capture() {
    let g = gen_pandigital();
    let v = to_num(g.current().as_slice());

    let tst = is_pandigital(v);

    assert!(tst);
}

#[test]
fn test_is_perm() {
    let tst = is_permutation(1234, 4213);
    assert!(tst);

    let tst2 = is_permutation(1013, 1307);
    assert!(!tst2);
}

#[test]
fn test_factorial() {
    let f = factorial(5).unwrap_or(0);

    assert!(f == 120);
}

#[test]
fn test_choose() {
    let p = n_choose_r(10, 5).unwrap();
    assert!(p == 252);
}

#[test]
fn test_factorial_overflow() {
    assert!(factorial(100).is_none());
    assert_eq!(factorial(0), Some(1));
    assert_eq!(factorial(1), Some(1));
    assert_eq!(factorial(10), Some(3628800));
}

#[test]
fn test_choose_edges() {
    assert_eq!(n_choose_r(5, 5), Some(1));
    assert_eq!(n_choose_r(3, 5), Some(0));
    assert_eq!(n_choose_r(7, 0), Some(1));
    assert_eq!(n_choose_r(52, 5), Some(2598960));
    assert!(n_choose_r(100, 50).is_none());
}

#[test]
fn test_digit_helpers() {
    assert_eq!(num_reverse(123), 321);
    assert_eq!(num_reverse(1200), 21);
    assert_eq!(num_reverse(7), 7);
    assert!(is_num_palindrome(12321));
    assert!(!is_num_palindrome(12331));
    assert!(is_num_palindrome(5));
    assert!(!is_num_palindrome(120));
    assert_eq!(get_digit_count(0), 0);
    assert_eq!(get_digit_count(12345), 5);
    assert_eq!(get_sum_of_digits(999), 27);
    assert_eq!(get_sum_of_digits(0), 0);
    assert_eq!(int_to_digits(0), vec![0u8]);
    assert_eq!(int_to_digits(907), vec![9u8, 0, 7]);
    assert_eq!(digits_to_int(&vec![9u8, 0, 7]), 907);
}

#[test]
fn test_pandigital_z_cases() {
    assert!(is_pandigital_z(1023456789));
    assert!(is_pandigital_z(123456789));
    assert!(!is_pandigital_z(122456789));
    assert!(!is_pandigital_z(0));
}

#[test]
fn test_figurate_exact() {
    assert_eq!(pentagonal(1), 1);
    assert_eq!(pentagonal(4), 22);
    assert_eq!(hexagonal(3), 15);
    assert_eq!(triangular(10), 55);
    assert!(!is_pentagonal(2));
    assert!(!is_hexagonal(2));
    assert!(!is_triangular(2));
    assert!(!is_triangular(0));
    assert!(is_triangular(55));
}

#[test]
fn test_prime_quirks() {
    // Trial division up to n / 2 calls 0, 1 and 2 prime alike.
    assert!(is_prime(0));
    assert!(is_prime(1));
    assert!(is_prime(2));
    assert!(!is_prime(9));
    assert!(is_prime(97));
}

#[test]
fn test_factor_quirks() {
    // The scan stops at the square root, so a square of a prime
    // survives whole.
    assert_eq!(prime_factors(9), vec![9]);
    assert_eq!(prime_factors(18), vec![2, 9]);
    assert_eq!(prime_factors(1), Vec::<usize>::new());
    assert_eq!(prime_factors(97), vec![97]);
    assert_eq!(prime_factors(360), vec![2, 2, 2, 3, 3, 5]);
}

#[test]
fn test_primes_small() {
    assert_eq!(gen_primes(1).len(), 0);
    let two = gen_primes(2);
    assert_eq!(two.len(), 1);
    assert!(two.contains(&2));
    let p30 = gen_primes(30);
    assert_eq!(p30.len(), 10);
    assert!(p30.contains(&29) && !p30.contains(&27));
}

#[test]
fn test_prime_vs_sieve() {
    let sieve = gen_primes(60);
    for n in 2..=60usize {
        assert_eq!(is_prime(n), sieve.contains(&n), "{}", n);
    }
}

#[test]
fn test_lychrel_cases() {
    assert!(is_lychrel(196));
    assert!(!is_lychrel(47));
    assert!(!is_lychrel(5));
}

#[test]
fn test_permuter_multiset() {
    let mut g = gen_permutation(&[4, 7, 9]);
    let mut seen: Vec<Vec<usize>> = Vec::new();
    loop {
        let cur = g.current().clone();
        let mut sorted = cur.clone();
        sorted.sort();
        assert_eq!(sorted, vec![4, 7, 9]);
        assert!(!seen.contains(&cur));
        seen.push(cur);
        if !g.advance() {
            break;
        }
    }
    assert_eq!(seen.len(), 6);
    assert_eq!(seen[0], vec![4, 7, 9]);
}
