//! Decimal digit helpers over arbitrary-precision unsigned integers.
//!
//! The big integers themselves come from num_bigint; each arithmetic
//! step the logic needs is wrapped with a contract over `big_nat`, the
//! numeric value a `BigUint` stands for, and the digit loops on top of
//! those steps are verified against the same decimal specifications as
//! their machine-word counterparts in `utility`.

use vstd::prelude::*;
use num_traits::ToPrimitive;
use num_traits::Zero;
use crate::utility::dec_digits;
use crate::utility::digit_sum;
use crate::utility::rev_acc;

verus! {

#[verifier::external_type_specification]
#[verifier::external_body]
pub struct ExBigUint(num_bigint::BigUint);

/// The numeric value a `BigUint` stands for: an unsigned integer of
/// unbounded size, the one abstraction every wrapper contract below
/// speaks through.
pub uninterp spec fn big_nat(n: num_bigint::BigUint) -> nat;

/// Relies on `From<u32> for BigUint`: the big integer zero.
#[verifier::external_body]
fn big_zero() -> (r: num_bigint::BigUint)
    ensures
        big_nat(r) == 0,
{
    num_bigint::BigUint::from(0u32)
}

/// Relies on `Clone for BigUint`: the copy stands for the same number.
#[verifier::external_body]
fn big_clone(n: &num_bigint::BigUint) -> (r: num_bigint::BigUint)
    ensures
        big_nat(r) == big_nat(*n),
{
    n.clone()
}

/// Relies on `Zero::is_zero for BigUint`: true exactly on zero.
#[verifier::external_body]
fn big_is_zero(n: &num_bigint::BigUint) -> (b: bool)
    ensures
        b == (big_nat(*n) == 0),
{
    n.is_zero()
}

/// Relies on `PartialEq for BigUint`: equality of the numbers.
#[verifier::external_body]
fn big_eq(a: &num_bigint::BigUint, b: &num_bigint::BigUint) -> (r: bool)
    ensures
        r == (big_nat(*a) == big_nat(*b)),
{
    a == b
}

/// Relies on `Rem<u32> for &BigUint`: the remainder of division by
/// ten, converted down to the machine word it always fits.
#[verifier::external_body]
fn big_mod_10(n: &num_bigint::BigUint) -> (d: u64)
    ensures
        d == big_nat(*n) % 10,
{
    (n % 10u32).to_u64().unwrap()
}

/// Relies on `Div<u32> for &BigUint`: the quotient of division by ten.
#[verifier::external_body]
fn big_div_10(n: &num_bigint::BigUint) -> (q: num_bigint::BigUint)
    ensures
        big_nat(q) == big_nat(*n) / 10,
{
    n / 10u32
}

/// Relies on `Mul<u32> for &BigUint`: the product with ten.
#[verifier::external_body]
fn big_mul_10(n: &num_bigint::BigUint) -> (r: num_bigint::BigUint)
    ensures
        big_nat(r) == big_nat(*n) * 10,
{
    n * 10u32
}

/// Relies on `Add<u64> for &BigUint`: the sum with a machine word.
#[verifier::external_body]
fn big_add_u64(n: &num_bigint::BigUint, d: u64) -> (r: num_bigint::BigUint)
    ensures
        big_nat(r) == big_nat(*n) + d,
{
    n + d
}

/// The decimal reversal of `n`; trailing zeros of `n` are dropped.
pub fn num_reverse(n: &num_bigint::BigUint) -> (r: num_bigint::BigUint)
    ensures
        big_nat(r) == rev_acc(big_nat(*n), 0),
{
    let mut k = big_clone(n);
    let mut r = big_zero();
    while !big_is_zero(&k)
        invariant
            rev_acc(big_nat(*n), 0) == rev_acc(big_nat(k), big_nat(r)),
        decreases big_nat(k),
    {
        let d = big_mod_10(&k);
        r = big_add_u64(&big_mul_10(&r), d);
        k = big_div_10(&k);
    }
    r
}

/// Whether `n` reads the same forwards and backwards in decimal:
/// exactly when it equals its own reversal.
pub fn is_num_palindrome(n: &num_bigint::BigUint) -> (b: bool)
    ensures
        b == (rev_acc(big_nat(*n), 0) == big_nat(*n)),
{
    let mut k = big_clone(n);
    let mut r = num_reverse(n);
    let ghost rev = big_nat(r);
    while !big_is_zero(&k) && !big_is_zero(&r)
        invariant
            rev == rev_acc(big_nat(*n), 0),
            (big_nat(*n) == rev) <==> (big_nat(k) == big_nat(r)),
        decreases big_nat(k),
    {
        let d1 = big_mod_10(&k);
        let d2 = big_mod_10(&r);
        if d1 != d2 {
            return false;
        }
        proof {
            vstd::arithmetic::div_mod::lemma_fundamental_div_mod(big_nat(k) as int, 10);
            vstd::arithmetic::div_mod::lemma_fundamental_div_mod(big_nat(r) as int, 10);
        }
        k = big_div_10(&k);
        r = big_div_10(&r);
    }
    big_eq(&k, &r)
}

/// Sum of the decimal digits of `n`. The sum must fit the machine
/// word, which every value that fits in memory meets with room to
/// spare.
pub fn get_sum_of_digits(n: &num_bigint::BigUint) -> (s: usize)
    requires
        digit_sum(big_nat(*n)) <= usize::MAX,
    ensures
        s == digit_sum(big_nat(*n)),
{
    let mut s: usize = 0;
    let mut r = big_clone(n);
    while !big_is_zero(&r)
        invariant
            s + digit_sum(big_nat(r)) == digit_sum(big_nat(*n)),
            digit_sum(big_nat(*n)) <= usize::MAX,
        decreases big_nat(r),
    {
        let d = big_mod_10(&r);
        s = s + (d as usize);
        r = big_div_10(&r);
    }
    s
}

/// Number of decimal digits of `n`; zero prints as one digit. The
/// count must fit the machine word, which every value that fits in
/// memory meets with room to spare.
pub fn get_digit_count(n: &num_bigint::BigUint) -> (c: usize)
    requires
        dec_digits(big_nat(*n)) <= usize::MAX,
    ensures
        c == dec_digits(big_nat(*n)),
{
    if big_is_zero(n) {
        return 1;
    }
    let mut c: usize = 0;
    let mut r = big_clone(n);
    while !big_is_zero(&r)
        invariant
            big_nat(r) > 0 ==> c + dec_digits(big_nat(r)) == dec_digits(big_nat(*n)),
            big_nat(r) == 0 ==> c == dec_digits(big_nat(*n)),
            dec_digits(big_nat(*n)) <= usize::MAX,
            c <= dec_digits(big_nat(*n)),
        decreases big_nat(r),
    {
        r = big_div_10(&r);
        c = c + 1;
    }
    c
}

} // verus!
