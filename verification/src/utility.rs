//! Standalone number-theory helpers: factorials and binomials, decimal
//! digit manipulation, palindromes, pandigital tests, figurate numbers,
//! primality and permutation generation.

use vstd::prelude::*;

verus! {

/// Mathematical factorial.
pub open spec fn fact(n: nat) -> nat
    decreases n,
{
    if n == 0 {
        1
    } else {
        n * fact((n - 1) as nat)
    }
}

/// The number a digit sequence denotes, most significant digit first.
pub open spec fn digits_val(s: Seq<u8>) -> nat
    decreases s.len(),
{
    if s.len() == 0 {
        0
    } else {
        digits_val(s.drop_last()) * 10 + s.last() as nat
    }
}

/// The decimal digits of a number, most significant first; 0 is `[0]`.
pub open spec fn digits_of(n: nat) -> Seq<u8>
    decreases n,
{
    if n < 10 {
        seq![n as u8]
    } else {
        digits_of(n / 10).push((n % 10) as u8)
    }
}

/// Decimal reversal with an accumulator: the digits of `v` are peeled
/// off least significant first and pushed onto `acc`.
pub open spec fn rev_acc(v: nat, acc: nat) -> nat
    decreases v,
{
    if v == 0 {
        acc
    } else {
        rev_acc(v / 10, acc * 10 + v % 10)
    }
}

/// Sum of the decimal digits.
pub open spec fn digit_sum(v: nat) -> nat
    decreases v,
{
    if v == 0 {
        0
    } else {
        digit_sum(v / 10) + v % 10
    }
}

/// Number of decimal digits; 0 counts one digit.
pub open spec fn dec_digits(v: nat) -> nat
    decreases v,
{
    if v < 10 {
        1
    } else {
        1 + dec_digits(v / 10)
    }
}

/// Whether `d` occurs among the decimal digits of `v`; 0 has no digits.
pub open spec fn has_digit(v: nat, d: int) -> bool
    decreases v,
{
    if v == 0 {
        false
    } else {
        v % 10 == d || has_digit(v / 10, d)
    }
}

/// The decimal digits of `v`, least significant first; 0 has none.
pub open spec fn digit_seq(v: nat) -> Seq<int>
    decreases v,
{
    if v == 0 {
        Seq::empty()
    } else {
        seq![(v % 10) as int] + digit_seq(v / 10)
    }
}

/// A number is prime when it is at least 2 and has no smaller divisor.
pub open spec fn is_prime_math(p: int) -> bool {
    p >= 2 && forall|q: int| 2 <= q < p ==> #[trigger] (p % q) != 0
}

/// `a > m / b` exactly when the product `a * b` overflows past `m`.
proof fn lemma_div_mul_check(a: int, b: int, m: int)
    requires
        a >= 0,
        b >= 1,
        m >= 0,
    ensures
        (a > m / b) <==> (a * b > m),
{
    vstd::arithmetic::div_mod::lemma_fundamental_div_mod(m, b);
    let q = m / b;
    let r = m % b;
    assert(m == b * q + r);
    if a > q {
        assert(a * b > m) by (nonlinear_arith)
            requires
                a >= q + 1,
                b >= 1,
                m == b * q + r,
                r < b,
        ;
    } else {
        assert(a * b <= m) by (nonlinear_arith)
            requires
                0 <= a <= q,
                b >= 1,
                m == b * q + r,
                r >= 0,
        ;
    }
}

proof fn lemma_fact_pos(n: nat)
    ensures
        fact(n) >= 1,
    decreases n,
{
    if n > 0 {
        lemma_fact_pos((n - 1) as nat);
        assert(n * fact((n - 1) as nat) >= 1) by (nonlinear_arith)
            requires
                n >= 1,
                fact((n - 1) as nat) >= 1,
        ;
    }
}

proof fn lemma_fact_mono(a: nat, b: nat)
    requires
        a <= b,
    ensures
        1 <= fact(a) <= fact(b),
    decreases b,
{
    if a == b {
        lemma_fact_pos(a);
    } else {
        lemma_fact_mono(a, (b - 1) as nat);
        assert(fact(b) == b * fact((b - 1) as nat));
        assert(b * fact((b - 1) as nat) >= fact((b - 1) as nat)) by (nonlinear_arith)
            requires
                b >= 1,
                fact((b - 1) as nat) >= 0,
        ;
    }
}

proof fn lemma_fact_ge_product(n: nat)
    requires
        n >= 2,
    ensures
        fact(n) >= n * (n - 1),
{
    lemma_fact_mono((n - 1) as nat, (n - 1) as nat);
    lemma_fact_ge_self((n - 1) as nat);
    assert(fact(n) == n * fact((n - 1) as nat));
    assert(n * fact((n - 1) as nat) >= n * (n - 1)) by (nonlinear_arith)
        requires
            n >= 2,
            fact((n - 1) as nat) >= n - 1,
    ;
}

proof fn lemma_fact_ge_self(n: nat)
    requires
        n >= 1,
    ensures
        fact(n) >= n,
    decreases n,
{
    if n > 1 {
        lemma_fact_ge_self((n - 1) as nat);
        assert(fact(n) == n * fact((n - 1) as nat));
        assert(n * fact((n - 1) as nat) >= n) by (nonlinear_arith)
            requires
                n >= 1,
                fact((n - 1) as nat) >= 1,
        ;
    } else {
        assert(fact(1nat) == 1 * fact(0nat));
        assert(fact(0nat) == 1);
    }
}

/// Factorial of `i`, or `None` as soon as the running product would
/// overflow the machine word.
pub fn factorial(i: usize) -> (r: Option<usize>)
    ensures
        r is None <==> fact(i as nat) > usize::MAX,
        r matches Some(v) ==> v == fact(i as nat),
{
    let mut acc: usize = 1;
    let mut num: usize = 2;
    proof {
        assert(fact(1nat) == 1 * fact(0nat));
        assert(fact(0nat) == 1);
    }
    while num <= i
        invariant
            2 <= num,
            num <= i + 1 || num == 2,
            acc == fact((num - 1) as nat),
        decreases i + 1 - num,
    {
        proof {
            lemma_div_mul_check(acc as int, num as int, usize::MAX as int);
        }
        if acc > usize::MAX / num {
            proof {
                assert(acc * num > usize::MAX);
                assert(fact(num as nat) == num * fact((num - 1) as nat));
                assert(num * acc == acc * num) by (nonlinear_arith);
                lemma_fact_mono(num as nat, i as nat);
                assert(fact(i as nat) >= fact(num as nat));
            }
            return None;
        }
        proof {
            assert(acc * num <= usize::MAX);
            assert(fact(num as nat) == num * fact((num - 1) as nat));
            assert(num * acc == acc * num) by (nonlinear_arith);
            if num == usize::MAX {
                lemma_fact_ge_product((num - 1) as nat);
                assert((usize::MAX - 1) * (usize::MAX - 2) > usize::MAX) by (nonlinear_arith)
                    requires
                        usize::MAX >= 7,
                ;
                assert(false);
            }
        }
        acc = acc * num;
        num = num + 1;
    }
    proof {
        if i < 2 {
            assert(fact(0) == 1 && fact(1) == 1);
        }
        lemma_fact_mono((num - 1) as nat, (num - 1) as nat);
    }
    Some(acc)
}

proof fn lemma_digits_val_prefix(s: Seq<u8>, i: int)
    requires
        0 <= i <= s.len(),
    ensures
        digits_val(s.take(i)) <= digits_val(s),
    decreases s.len() - i,
{
    if i < s.len() {
        lemma_digits_val_prefix(s, i + 1);
        assert(s.take(i + 1).drop_last() =~= s.take(i));
        assert(s.take(i + 1).last() == s[i]);
        assert(digits_val(s.take(i + 1)) == digits_val(s.take(i)) * 10 + s[i]);
        assert(digits_val(s.take(i)) * 10 >= digits_val(s.take(i))) by (nonlinear_arith)
            requires
                digits_val(s.take(i)) >= 0,
        ;
    } else {
        assert(s.take(i) =~= s);
    }
}

/// The number a digit vector denotes, most significant digit first.
/// The digits must denote a value that fits in the machine word, and at
/// least one digit must be present.
pub fn digits_to_int(v: &Vec<u8>) -> (n: usize)
    requires
        v@.len() >= 1,
        digits_val(v@) <= usize::MAX,
    ensures
        n == digits_val(v@),
{
    let mut n: usize = 0;
    let mut i: usize = 0;
    while i < v.len()
        invariant
            i <= v@.len(),
            digits_val(v@) <= usize::MAX,
            n == digits_val(v@.take(i as int)),
        decreases v@.len() - i,
    {
        proof {
            lemma_digits_val_prefix(v@, i + 1);
            assert(v@.take(i + 1).drop_last() =~= v@.take(i as int));
            assert(v@.take(i + 1).last() == v@[i as int]);
            assert(digits_val(v@.take(i + 1)) == digits_val(v@.take(i as int)) * 10 + v@[i as int]);
        }
        n = n * 10 + (v[i] as usize);
        i = i + 1;
    }
    proof {
        assert(v@.take(v@.len() as int) =~= v@);
    }
    n
}

/// The decimal digit vector of `n`, most significant digit first.
pub fn int_to_digits(n: usize) -> (v: Vec<u8>)
    ensures
        v@ == digits_of(n as nat),
{
    let mut m_n: usize = n;
    let mut v: Vec<u8> = Vec::new();
    proof {
        assert(digits_of(m_n as nat) + v@ =~= digits_of(n as nat));
    }
    while m_n >= 10
        invariant
            digits_of(m_n as nat) + v@ == digits_of(n as nat),
        decreases m_n,
    {
        let k = m_n / 10;
        let d = m_n - k * 10;
        let ghost prev = v@;
        v.insert(0, d as u8);
        proof {
            assert(v@ =~= seq![d as u8] + prev);
            assert(digits_of(m_n as nat) == digits_of((m_n as nat) / 10).push(
                ((m_n as nat) % 10) as u8,
            ));
            assert(d == m_n % 10);
            assert(digits_of(k as nat) + v@ =~= digits_of(m_n as nat) + prev);
        }
        m_n = k;
    }
    let ghost prev = v@;
    v.insert(0, m_n as u8);
    proof {
        assert(v@ =~= seq![m_n as u8] + prev);
        assert(digits_of(m_n as nat) =~= seq![m_n as u8]);
        assert(v@ =~= digits_of(m_n as nat) + prev);
    }
    v
}

/// The n-th pentagonal number, n(3n-1)/2.
pub fn pentagonal(n: usize) -> (r: usize)
    requires
        n >= 1,
        n * (3 * n - 1) <= usize::MAX,
    ensures
        r == n * (3 * n - 1) / 2,
{
    proof {
        if n >= 2 {
            assert(3 * n <= n * (3 * n - 1)) by (nonlinear_arith)
                requires
                    n >= 2,
            ;
        }
    }
    n * (3 * n - 1) / 2
}

/// The n-th hexagonal number, n(2n-1).
pub fn hexagonal(n: usize) -> (r: usize)
    requires
        n >= 1,
        n * (2 * n - 1) <= usize::MAX,
    ensures
        r == n * (2 * n - 1),
{
    proof {
        if n >= 2 {
            assert(2 * n <= n * (2 * n - 1)) by (nonlinear_arith)
                requires
                    n >= 2,
            ;
        }
    }
    n * (2 * n - 1)
}

/// The n-th triangular number, n(n+1)/2.
pub fn triangular(n: usize) -> (r: usize)
    requires
        n * (n + 1) <= usize::MAX,
    ensures
        r == n * (n + 1) / 2,
{
    proof {
        if n >= 1 {
            assert(n + 1 <= n * (n + 1)) by (nonlinear_arith)
                requires
                    n >= 1,
            ;
        }
    }
    n * (n + 1) / 2
}

/// No divisor up to `n / 2` divides `n`. For `n >= 2` this coincides
/// with primality; 0 and 1 pass the trial division vacuously.
pub fn is_prime(n: usize) -> (r: bool)
    ensures
        r == forall|d: int| 2 <= d <= n / 2 ==> #[trigger] (n as int % d) != 0,
        n >= 2 ==> r == is_prime_math(n as int),
{
    let m = n / 2;
    let mut i: usize = 2;
    let mut r: bool = true;
    while i <= m && r
        invariant
            2 <= i,
            i <= m + 1 || i == 2,
            m == n / 2,
            r ==> forall|d: int| 2 <= d < i ==> #[trigger] (n as int % d) != 0,
            !r ==> exists|d: int| 2 <= d <= m && #[trigger] (n as int % d) == 0,
        decreases m + 1 - i + (if r {
            1int
        } else {
            0int
        }),
    {
        if n % i == 0 {
            r = false;
        } else {
            i = i + 1;
        }
    }
    proof {
        if n >= 2 {
            lemma_half_divisor(n as int);
        }
    }
    r
}

/// A proper divisor of `n`, if any, already shows up by `n / 2`.
proof fn lemma_half_divisor(n: int)
    requires
        n >= 2,
    ensures
        (forall|d: int| 2 <= d <= n / 2 ==> #[trigger] (n % d) != 0) <==> is_prime_math(n),
{
    if forall|d: int| 2 <= d <= n / 2 ==> #[trigger] (n % d) != 0 {
        assert forall|q: int| 2 <= q < n implies #[trigger] (n % q) != 0 by {
            if n % q == 0 && q > n / 2 {
                vstd::arithmetic::div_mod::lemma_fundamental_div_mod(n, q);
                let k = n / q;
                assert(n == q * k);
                assert(2 * q > n) by {
                    vstd::arithmetic::div_mod::lemma_fundamental_div_mod(n, 2);
                }
                assert(false) by (nonlinear_arith)
                    requires
                        n == q * k,
                        2 * q > n,
                        2 <= q < n,
                        n >= 2,
                ;
            }
        }
    }
}

proof fn lemma_digit_sum_le(v: nat)
    ensures
        digit_sum(v) <= v,
    decreases v,
{
    if v > 0 {
        lemma_digit_sum_le(v / 10);
    }
}

/// Sum of the decimal digits of `n`.
pub fn get_sum_of_digits(n: usize) -> (s: usize)
    ensures
        s == digit_sum(n as nat),
{
    proof {
        lemma_digit_sum_le(n as nat);
    }
    let mut s: usize = 0;
    let mut r: usize = n;
    while r > 0
        invariant
            s + digit_sum(r as nat) == digit_sum(n as nat),
            digit_sum(n as nat) <= n,
        decreases r,
    {
        let d = r % 10;
        s = s + d;
        r = r / 10;
    }
    s
}

/// Reversing can only grow the accumulator.
proof fn lemma_rev_acc_ge(v: nat, acc: nat)
    ensures
        rev_acc(v, acc) >= acc,
    decreases v,
{
    if v > 0 {
        lemma_rev_acc_ge(v / 10, acc * 10 + v % 10);
        assert(acc * 10 >= acc) by (nonlinear_arith)
            requires
                acc >= 0,
        ;
    }
}

/// The decimal reversal of `n`; trailing zeros of `n` are dropped. The
/// reversed value must itself fit in the machine word.
pub fn num_reverse(n: u128) -> (r: u128)
    requires
        rev_acc(n as nat, 0) <= u128::MAX,
    ensures
        r == rev_acc(n as nat, 0),
{
    if n < 10 {
        proof {
            assert(rev_acc(n as nat, 0) == if n == 0 {
                0nat
            } else {
                rev_acc((n as nat) / 10, (n as nat) % 10)
            });
            assert(rev_acc(0, n as nat) == n as nat);
        }
        return n;
    }
    let mut k: u128 = n;
    let mut r: u128 = 0;
    while k > 0
        invariant
            rev_acc(k as nat, r as nat) == rev_acc(n as nat, 0),
            rev_acc(n as nat, 0) <= u128::MAX,
        decreases k,
    {
        proof {
            lemma_rev_acc_ge((k as nat) / 10, (r as nat) * 10 + (k as nat) % 10);
        }
        let d = k % 10;
        r = r * 10 + d;
        k = k / 10;
    }
    proof {
        assert(rev_acc(0, r as nat) == r as nat);
    }
    r
}

/// Whether `n` reads the same forwards and backwards in decimal:
/// exactly when it equals its own reversal.
pub fn is_num_palindrome(n: u128) -> (b: bool)
    requires
        rev_acc(n as nat, 0) <= u128::MAX,
    ensures
        b == (rev_acc(n as nat, 0) == n as nat),
{
    if n < 10 {
        proof {
            assert(rev_acc(n as nat, 0) == if n == 0 {
                0nat
            } else {
                rev_acc((n as nat) / 10, (n as nat) % 10)
            });
            assert(rev_acc(0, n as nat) == n as nat);
        }
        return true;
    }
    let mut k: u128 = n;
    let mut r: u128 = num_reverse(n);
    let ghost rev = r;
    while k > 0 && r > 0
        invariant
            rev == rev_acc(n as nat, 0),
            (n == rev) <==> (k == r),
        decreases k,
    {
        let d1 = k % 10;
        let d2 = r % 10;
        if d1 != d2 {
            proof {
                assert(k != r);
                assert(n != rev);
            }
            return false;
        }
        proof {
            vstd::arithmetic::div_mod::lemma_fundamental_div_mod(k as int, 10);
            vstd::arithmetic::div_mod::lemma_fundamental_div_mod(r as int, 10);
        }
        k = k / 10;
        r = r / 10;
    }
    k == r
}

proof fn lemma_dec_digits_mono(a: nat, b: nat)
    requires
        a <= b,
    ensures
        dec_digits(a) <= dec_digits(b),
    decreases b,
{
    if b >= 10 && a >= 10 {
        vstd::arithmetic::div_mod::lemma_div_is_ordered(a as int, b as int, 10);
        lemma_dec_digits_mono(a / 10, b / 10);
    }
}

/// A 128-bit value spans at most 39 decimal digits.
proof fn lemma_dec_digits_cap(v: nat)
    requires
        v <= u128::MAX,
    ensures
        dec_digits(v) <= 39,
{
    lemma_dec_digits_mono(v, u128::MAX as nat);
    assert(dec_digits(u128::MAX as nat) == 39) by {
        reveal_with_fuel(dec_digits, 40);
    }
}

/// Number of decimal digits of `n`; 0 counts zero digits here.
pub fn get_digit_count(n: u128) -> (c: usize)
    ensures
        c == if n == 0 {
            0int
        } else {
            dec_digits(n as nat) as int
        },
{
    proof {
        lemma_dec_digits_cap(n as nat);
    }
    let mut c: usize = 0;
    let mut r: u128 = n;
    while r > 0
        invariant
            r <= n,
            r > 0 ==> c + dec_digits(r as nat) == dec_digits(n as nat),
            r == 0 ==> c == if n == 0 {
                0int
            } else {
                dec_digits(n as nat) as int
            },
            dec_digits(n as nat) <= 39,
            c <= 39,
        decreases r,
    {
        proof {
            lemma_dec_digits_mono(r as nat, n as nat);
        }
        r = r / 10;
        c = c + 1;
    }
    c
}

/// Value of the first `r` entries of `s` read as decimal digits, most
/// significant first.
pub open spec fn concat_val(s: Seq<usize>, r: int) -> nat
    decreases r,
{
    if r <= 0 {
        0
    } else {
        concat_val(s, r - 1) * 10 + s[r - 1] as nat
    }
}

proof fn lemma_concat_val_mono(s: Seq<usize>, i: int, j: int)
    requires
        0 <= i <= j <= s.len(),
    ensures
        concat_val(s, i) <= concat_val(s, j),
    decreases j - i,
{
    if i < j {
        lemma_concat_val_mono(s, i, j - 1);
        assert(concat_val(s, j - 1) * 10 >= concat_val(s, j - 1)) by (nonlinear_arith)
            requires
                concat_val(s, j - 1) >= 0,
        ;
    }
}

/// Reads the first ten single-digit entries of `arr` as one decimal
/// number, most significant digit first.
pub fn to_num(arr: &[usize]) -> (n: usize)
    requires
        arr@.len() >= 10,
        forall|k: int| 0 <= k < 10 ==> arr@[k] <= 9,
        concat_val(arr@, 10) <= usize::MAX,
    ensures
        n == concat_val(arr@, 10),
{
    let mut n: usize = 0;
    let mut i: usize = 0;
    while i < 10
        invariant
            i <= 10,
            arr@.len() >= 10,
            concat_val(arr@, 10) <= usize::MAX,
            n == concat_val(arr@, i as int),
        decreases 10 - i,
    {
        proof {
            lemma_concat_val_mono(arr@, i + 1, 10);
        }
        n = n * 10 + arr[i];
        i = i + 1;
    }
    n
}

/// Which decimal digits occur in `v`; slot `d` is set exactly when `d`
/// occurs.
fn digit_flags(v: u64) -> (seen: [bool; 10])
    ensures
        forall|d: int| 0 <= d < 10 ==> seen@[d] == has_digit(v as nat, d),
{
    let mut seen: [bool; 10] = [false, false, false, false, false, false, false, false, false,
        false];
    let mut u: u64 = v;
    while u > 0
        invariant
            forall|d: int|
                0 <= d < 10 ==> (has_digit(v as nat, d) <==> (seen@[d] || has_digit(u as nat, d))),
        decreases u,
    {
        let d0 = (u % 10) as usize;
        seen[d0] = true;
        u = u / 10;
    }
    seen
}

/// Whether every digit 1 through 9 occurs somewhere in `n`; repeats are
/// allowed and the digit 0 is ignored.
pub fn is_pandigital_z(n: u64) -> (r: bool)
    ensures
        r == forall|d: int| 1 <= d <= 9 ==> has_digit(n as nat, d),
{
    let seen = digit_flags(n);
    let mut d: usize = 1;
    while d <= 9
        invariant
            1 <= d <= 10,
            forall|dd: int| 0 <= dd < 10 ==> seen@[dd] == has_digit(n as nat, dd),
            forall|dd: int| 1 <= dd < d ==> has_digit(n as nat, dd),
        decreases 10 - d,
    {
        if !seen[d] {
            proof {
                assert(!has_digit(n as nat, d as int));
            }
            return false;
        }
        d = d + 1;
    }
    true
}

/// Whether `x` and `y` show the same decimal digit set at the same
/// length; digit multiplicity is not compared.
pub fn is_permutation(x: usize, y: usize) -> (r: bool)
    ensures
        r == ((if x == 0 {
            1int
        } else {
            dec_digits(x as nat) as int
        }) == (if y == 0 {
            1int
        } else {
            dec_digits(y as nat) as int
        }) && forall|d: int| 0 <= d <= 9 ==> has_digit(x as nat, d) == has_digit(y as nat, d)),
{
    let lx: usize = if x == 0 {
        1
    } else {
        get_digit_count(x as u128)
    };
    let ly: usize = if y == 0 {
        1
    } else {
        get_digit_count(y as u128)
    };
    if lx != ly {
        proof {
            assert((x as u128) as nat == x as nat);
            assert((y as u128) as nat == y as nat);
        }
        return false;
    }
    let sx = digit_flags(x as u64);
    let sy = digit_flags(y as u64);
    let mut d: usize = 0;
    while d < 10
        invariant
            d <= 10,
            forall|dd: int| 0 <= dd < 10 ==> sx@[dd] == has_digit(x as nat, dd),
            forall|dd: int| 0 <= dd < 10 ==> sy@[dd] == has_digit(y as nat, dd),
            forall|dd: int| 0 <= dd < d ==> has_digit(x as nat, dd) == has_digit(y as nat, dd),
        decreases 10 - d,
    {
        if sx[d] != sy[d] {
            proof {
                assert(has_digit(x as nat, d as int) != has_digit(y as nat, d as int));
                assert(!(forall|dd: int|
                    0 <= dd <= 9 ==> has_digit(x as nat, dd) == has_digit(y as nat, dd)));
            }
            return false;
        }
        d = d + 1;
    }
    true
}

/// How many slots of a boolean sequence are set.
pub open spec fn num_true(s: Seq<bool>) -> nat
    decreases s.len(),
{
    if s.len() == 0 {
        0
    } else {
        num_true(s.drop_last()) + (if s.last() {
            1nat
        } else {
            0nat
        })
    }
}

proof fn lemma_num_true_le(s: Seq<bool>)
    ensures
        num_true(s) <= s.len(),
    decreases s.len(),
{
    if s.len() > 0 {
        lemma_num_true_le(s.drop_last());
    }
}

proof fn lemma_num_true_update(s: Seq<bool>, k: int)
    requires
        0 <= k < s.len(),
        !s[k],
    ensures
        num_true(s.update(k, true)) == num_true(s) + 1,
    decreases s.len(),
{
    let u = s.update(k, true);
    if k == s.len() - 1 {
        assert(u.drop_last() =~= s.drop_last());
        assert(u.last());
    } else {
        assert(u.drop_last() =~= s.drop_last().update(k, true));
        assert(u.last() == s.last());
        lemma_num_true_update(s.drop_last(), k);
    }
}

proof fn lemma_num_true_zero_slot(s: Seq<bool>, k: int)
    requires
        0 <= k < s.len(),
        !s[k],
    ensures
        num_true(s) <= s.len() - 1,
    decreases s.len(),
{
    if k == s.len() - 1 {
        lemma_num_true_le(s.drop_last());
    } else {
        lemma_num_true_zero_slot(s.drop_last(), k);
    }
}

proof fn lemma_no_dup_push(s: Seq<int>, x: int)
    requires
        s.no_duplicates(),
        !s.contains(x),
    ensures
        s.push(x).no_duplicates(),
{
    let p = s.push(x);
    assert forall|i: int, j: int|
        0 <= i < p.len() && 0 <= j < p.len() && i != j implies p[i] != p[j] by {
        if i < s.len() && j < s.len() {
            assert(p[i] == s[i] && p[j] == s[j]);
        } else if j == s.len() && i < s.len() {
            assert(p[j] == x && p[i] == s[i]);
            if s[i] == x {
                assert(s.contains(x));
            }
        } else if i == s.len() && j < s.len() {
            assert(p[i] == x && p[j] == s[j]);
            if s[j] == x {
                assert(s.contains(x));
            }
        }
    }
}

/// 1-to-k pandigital test: the digits of `n` are distinct and form
/// exactly the run 1 through their own count. Repeated digits fail; a
/// zero digit is not handled, so it is ruled out.
pub fn is_pandigital(n: usize) -> (r: bool)
    requires
        !has_digit(n as nat, 0),
    ensures
        r == (digit_seq(n as nat).no_duplicates() && forall|j: int|
            1 <= j <= digit_seq(n as nat).len() ==> digit_seq(n as nat).contains(j)),
{
    let ghost full = digit_seq(n as nat);
    let mut u: usize = n;
    let mut seen: [bool; 10] = [false, false, false, false, false, false, false, false, false,
        false];
    let mut count: usize = 0;
    let ghost mut processed: Seq<int> = Seq::empty();
    proof {
        assert(full =~= processed + digit_seq(u as nat));
        reveal_with_fuel(num_true, 11);
        assert(num_true(seen@) == 0);
    }
    while u > 0
        invariant
            full == digit_seq(n as nat),
            full == processed + digit_seq(u as nat),
            processed.no_duplicates(),
            count == processed.len(),
            count == num_true(seen@),
            seen@.len() == 10,
            !seen@[0],
            !has_digit(u as nat, 0),
            forall|dd: int| 0 <= dd < 10 ==> (seen@[dd] <==> processed.contains(dd)),
            forall|k: int| 0 <= k < processed.len() ==> 1 <= #[trigger] processed[k] <= 9,
        decreases u,
    {
        let d = u % 10;
        proof {
            assert(digit_seq(u as nat) == seq![(u as nat % 10) as int] + digit_seq(
                (u as nat) / 10,
            ));
            assert(d != 0);
        }
        if seen[d] {
            proof {
                assert(seen@[d as int]);
                assert(processed.contains(d as int));
                let i = choose|i: int| 0 <= i < processed.len() && processed[i] == d as int;
                assert(full[processed.len() as int] == d as int);
                assert(full[i] == d as int);
                assert(i != processed.len());
                assert(!full.no_duplicates());
            }
            return false;
        }
        let ghost oldseen = seen@;
        let ghost oldproc = processed;
        proof {
            lemma_num_true_le(oldseen);
        }
        seen[d] = true;
        count = count + 1;
        u = u / 10;
        proof {
            lemma_num_true_update(oldseen, d as int);
            lemma_no_dup_push(oldproc, d as int);
            processed = oldproc.push(d as int);
            assert(full =~= processed + digit_seq(u as nat));
            assert forall|dd: int| 0 <= dd < 10 implies (seen@[dd] <==> processed.contains(
                dd,
            )) by {
                if dd == d {
                    assert(processed[processed.len() - 1] == dd);
                } else {
                    if processed.contains(dd) {
                        let i = choose|i: int|
                            0 <= i < processed.len() && processed[i] == dd;
                        assert(oldproc[i] == dd);
                    }
                    if oldproc.contains(dd) {
                        let i = choose|i: int| 0 <= i < oldproc.len() && oldproc[i] == dd;
                        assert(processed[i] == dd);
                    }
                }
            }
        }
    }
    proof {
        assert(digit_seq(u as nat) =~= Seq::<int>::empty());
        assert(full =~= processed);
        lemma_num_true_zero_slot(seen@, 0);
    }
    let mut j: usize = 1;
    while j <= count
        invariant
            1 <= j <= count + 1,
            count <= 9,
            count == processed.len(),
            full == processed,
            full == digit_seq(n as nat),
            processed.no_duplicates(),
            forall|dd: int| 0 <= dd < 10 ==> (seen@[dd] <==> processed.contains(dd)),
            forall|jj: int| 1 <= jj < j ==> processed.contains(jj),
        decreases count + 1 - j,
    {
        if !seen[j] {
            proof {
                assert(!processed.contains(j as int));
            }
            return false;
        }
        j = j + 1;
    }
    true
}

/// One reverse-and-add step.
pub open spec fn lychrel_step(v: nat) -> nat {
    v + rev_acc(v, 0)
}

/// The reverse-and-add trajectory after `j` steps from `v`.
pub open spec fn lychrel_traj(v: nat, j: nat) -> nat
    decreases j,
{
    if j == 0 {
        v
    } else {
        lychrel_step(lychrel_traj(v, (j - 1) as nat))
    }
}

/// A decimal palindrome equals its own reversal.
pub open spec fn is_palindrome_spec(v: nat) -> bool {
    rev_acc(v, 0) == v
}

/// No palindrome shows up within the first `j` reverse-and-add steps.
pub open spec fn no_palin_through(v: nat, j: nat) -> bool {
    forall|i: nat| 1 <= i <= j ==> !is_palindrome_spec(#[trigger] lychrel_traj(v, i))
}

/// Lychrel candidate test: 50 reverse-and-add rounds never reach a
/// palindrome. Values below ten are never candidates. The trajectory,
/// while unstopped, must stay within the 128-bit word.
pub fn is_lychrel(n: usize) -> (r: bool)
    requires
        forall|j: nat|
            j < 50 && no_palin_through(n as nat, j) ==> lychrel_step(
                #[trigger] lychrel_traj(n as nat, j),
            ) <= u128::MAX,
        forall|j: nat|
            1 <= j <= 50 && no_palin_through(n as nat, (j - 1) as nat) ==> rev_acc(
                #[trigger] lychrel_traj(n as nat, j),
                0,
            ) <= u128::MAX,
    ensures
        r == (n >= 10 && no_palin_through(n as nat, 50)),
{
    if n < 10 {
        return false;
    }
    let mut k: u128 = n as u128;
    let mut idx: usize = 0;
    while idx < 50
        invariant
            idx <= 50,
            k == lychrel_traj(n as nat, idx as nat),
            no_palin_through(n as nat, idx as nat),
            forall|j: nat|
                j < 50 && no_palin_through(n as nat, j) ==> lychrel_step(
                    #[trigger] lychrel_traj(n as nat, j),
                ) <= u128::MAX,
            forall|j: nat|
                1 <= j <= 50 && no_palin_through(n as nat, (j - 1) as nat) ==> rev_acc(
                    #[trigger] lychrel_traj(n as nat, j),
                    0,
                ) <= u128::MAX,
        decreases 50 - idx,
    {
        proof {
            assert(lychrel_step(lychrel_traj(n as nat, idx as nat)) <= u128::MAX);
            lemma_rev_acc_ge(k as nat, 0);
            assert(rev_acc(k as nat, 0) <= lychrel_step(k as nat));
        }
        let r = num_reverse(k);
        let k2 = k + r;
        proof {
            assert(k2 == lychrel_traj(n as nat, (idx + 1) as nat));
            assert(rev_acc(lychrel_traj(n as nat, (idx + 1) as nat), 0) <= u128::MAX);
        }
        if is_num_palindrome(k2) {
            proof {
                assert(is_palindrome_spec(lychrel_traj(n as nat, (idx + 1) as nat)));
                assert(!no_palin_through(n as nat, 50));
            }
            return false;
        }
        proof {
            assert forall|i: nat| 1 <= i <= (idx + 1) as nat implies !is_palindrome_spec(
                #[trigger] lychrel_traj(n as nat, i),
            ) by {
                if i <= idx as nat {
                    assert(!is_palindrome_spec(lychrel_traj(n as nat, i)));
                }
            }
        }
        k = k2;
        idx = idx + 1;
    }
    true
}

/// Pascal's binomial coefficient.
pub open spec fn binom(n: nat, k: nat) -> nat
    decreases n, k,
{
    if k == 0 {
        1
    } else if n == 0 {
        0
    } else {
        binom((n - 1) as nat, (k - 1) as nat) + binom((n - 1) as nat, k)
    }
}

proof fn lemma_binom_over(n: nat, k: nat)
    requires
        k > n,
    ensures
        binom(n, k) == 0,
    decreases n,
{
    if n > 0 {
        lemma_binom_over((n - 1) as nat, (k - 1) as nat);
        lemma_binom_over((n - 1) as nat, k);
    }
}

proof fn lemma_binom_diag(n: nat)
    ensures
        binom(n, n) == 1,
    decreases n,
{
    if n > 0 {
        lemma_binom_diag((n - 1) as nat);
        lemma_binom_over((n - 1) as nat, n);
    }
}

proof fn lemma_binom_row1(n: nat)
    requires
        n >= 1,
    ensures
        binom(n, (n - 1) as nat) == n,
    decreases n,
{
    if n == 1 {
        assert(binom(1, 0) == 1);
    } else {
        lemma_binom_row1((n - 1) as nat);
        lemma_binom_diag((n - 1) as nat);
    }
}

/// The absorption identity that lets the running product advance:
/// `(k+1) * C(n, k+1) == (n-k) * C(n, k)`.
proof fn lemma_binom_mult(n: nat, k: nat)
    requires
        k < n,
    ensures
        (k + 1) * binom(n, (k + 1) as nat) == (n - k) * binom(n, k),
    decreases n,
{
    if k + 1 == n {
        lemma_binom_diag(n);
        lemma_binom_row1(n);
        assert((k + 1) * binom(n, (k + 1) as nat) == n * 1);
        assert((n - k) * binom(n, k) == 1 * binom(n, (n - 1) as nat));
    } else {
        let a = binom((n - 1) as nat, k);
        let b = binom((n - 1) as nat, (k + 1) as nat);
        assert(binom(n, (k + 1) as nat) == a + b);
        lemma_binom_mult((n - 1) as nat, k);
        assert((k + 1) * b == ((n - 1) - k) * a);
        assert((k + 1) * (a + b) == (k + 1) * a + (k + 1) * b) by (nonlinear_arith);
        assert((k + 1) * a + ((n - 1) - k) * a == n * a - (k + 1) * a + (k + 1) * a
            - (n - k - 1) * a + ((n - 1) - k) * a) by (nonlinear_arith);
        assert((k + 1) * a + ((n - 1) - k) * a == n * a) by (nonlinear_arith)
            requires
                k + 1 <= n,
        ;
        if k == 0 {
            assert(binom(n, 0nat) == 1);
            assert((n - 0) * binom(n, 0nat) == n);
            assert((k + 1) * binom(n, (k + 1) as nat) == n * a);
        } else {
            let c = binom((n - 1) as nat, (k - 1) as nat);
            assert(binom(n, k) == c + a);
            lemma_binom_mult((n - 1) as nat, (k - 1) as nat);
            assert(k * a == ((n - 1) - (k - 1)) * c);
            assert(k * a == (n - k) * c);
            assert((n - k) * (c + a) == (n - k) * c + (n - k) * a) by (nonlinear_arith);
            assert(k * a + (n - k) * a == n * a) by (nonlinear_arith)
                requires
                    k <= n,
            ;
        }
    }
}

proof fn lemma_binom_sym(n: nat, k: nat)
    requires
        k <= n,
    ensures
        binom(n, k) == binom(n, (n - k) as nat),
    decreases n,
{
    if k == 0 {
        lemma_binom_diag(n);
    } else if k == n {
        lemma_binom_diag(n);
    } else {
        lemma_binom_sym((n - 1) as nat, (k - 1) as nat);
        lemma_binom_sym((n - 1) as nat, k);
        assert(binom(n, k) == binom((n - 1) as nat, (k - 1) as nat) + binom((n - 1) as nat, k));
        assert(binom(n, (n - k) as nat) == binom((n - 1) as nat, (n - k - 1) as nat) + binom(
            (n - 1) as nat,
            (n - k) as nat,
        ));
    }
}

/// Number of ways to pick `r` of `n` things, or `None` as soon as the
/// running product overflows the machine word.
pub fn n_choose_r(n: usize, r: usize) -> (res: Option<usize>)
    ensures
        res matches Some(v) ==> v == binom(n as nat, r as nat),
        res is None <==> (r < n && exists|i: nat|
            i < (if r <= n - r {
                r as int
            } else {
                n - r
            }) && usize::MAX < binom(n as nat, i) * (n - i)),
{
    let mut k = r;
    if n == r {
        proof {
            lemma_binom_diag(n as nat);
        }
        return Some(1);
    }
    if r > n {
        proof {
            lemma_binom_over(n as nat, r as nat);
        }
        return Some(0);
    }
    if k > n - k {
        k = n - k;
    }
    let ghost kk: int = if r <= n - r {
        r as int
    } else {
        n - r
    };
    proof {
        assert(k == kk);
    }

    let mut res: usize = 1;
    let mut i: usize = 0;
    while i < k
        invariant
            i <= k,
            k == kk,
            k <= n - k,
            r < n,
            kk == (if r <= n - r {
                r as int
            } else {
                n - r
            }),
            res == binom(n as nat, i as nat),
            forall|j: nat| j < i ==> binom(n as nat, j) * (n - j) <= usize::MAX,
        decreases k - i,
    {
        proof {
            assert(i < n);
            lemma_div_mul_check(res as int, (n - i) as int, usize::MAX as int);
        }
        if res > usize::MAX / (n - i) {
            proof {
                assert(usize::MAX < binom(n as nat, i as nat) * (n - i));
            }
            return None;
        }
        proof {
            assert(res * (n - i) <= usize::MAX);
            lemma_binom_mult(n as nat, i as nat);
            assert(binom(n as nat, i as nat) * (n - i) == (n - i) * binom(n as nat, i as nat))
                by (nonlinear_arith);
            vstd::arithmetic::div_mod::lemma_div_multiples_vanish(
                binom(n as nat, (i + 1) as nat) as int,
                i + 1,
            );
        }
        res = res * (n - i);
        res = res / (i + 1);
        i = i + 1;
    }
    proof {
        if r > n - r {
            lemma_binom_sym(n as nat, r as nat);
        }
    }
    Some(res)
}

/// The k-th pentagonal number as a formula.
pub open spec fn pent_formula(k: int) -> int {
    k * (3 * k - 1) / 2
}

/// The k-th hexagonal number as a formula.
pub open spec fn hex_formula(k: int) -> int {
    k * (2 * k - 1)
}

/// The k-th triangular number as a formula.
pub open spec fn tri_formula(k: int) -> int {
    k * (k + 1) / 2
}

/// Rounded-down integer square root.
fn isqrt(x: u128) -> (r: u128)
    ensures
        r * r <= x,
        (r + 1) * (r + 1) > x,
        r <= 0xFFFF_FFFF_FFFF_FFFF,
{
    let mut lo: u128 = 0;
    let mut hi: u128 = if x >= 0xFFFF_FFFF_FFFF_FFFF {
        0x1_0000_0000_0000_0000
    } else {
        x + 1
    };
    proof {
        if x >= 0xFFFF_FFFF_FFFF_FFFF {
            assert(hi * hi > x) by (nonlinear_arith)
                requires
                    hi == 0x1_0000_0000_0000_0000u128,
                    x <= u128::MAX,
            ;
        } else {
            assert((x + 1) * (x + 1) > x) by (nonlinear_arith)
                requires
                    x >= 0,
            ;
        }
    }
    while lo + 1 < hi
        invariant
            lo < hi,
            hi <= 0x1_0000_0000_0000_0000,
            lo * lo <= x,
            hi * hi > x,
        decreases hi - lo,
    {
        let mid = lo + (hi - lo) / 2;
        proof {
            assert(lo < mid < hi);
            assert(mid * mid <= u128::MAX) by (nonlinear_arith)
                requires
                    0 <= mid < 0x1_0000_0000_0000_0000u128,
            ;
        }
        if mid * mid <= x {
            lo = mid;
        } else {
            hi = mid;
        }
    }
    lo
}

/// An integer square root is pinned down by its bracketing squares.
proof fn lemma_sqrt_unique(r: int, s: int, m: int)
    requires
        r >= 0,
        s >= 0,
        r * r <= m,
        (r + 1) * (r + 1) > m,
        s * s == m,
    ensures
        r == s,
{
    assert(r == s) by (nonlinear_arith)
        requires
            r >= 0,
            s >= 0,
            r * r <= m,
            (r + 1) * (r + 1) > m,
            s * s == m,
    ;
}

/// The product `k * (3k - 1)` is even: one factor always is.
proof fn lemma_pent_even(k: int)
    requires
        k >= 1,
    ensures
        (k * (3 * k - 1)) % 2 == 0,
{
    let m = k / 2;
    let b = k % 2;
    assert(k == 2 * m + b);
    if b == 0 {
        assert(k * (3 * k - 1) == 2 * (m * (6 * m - 1))) by (nonlinear_arith)
            requires
                k == 2 * m,
        ;
    } else {
        assert(k * (3 * k - 1) == 2 * ((2 * m + 1) * (3 * m + 1))) by (nonlinear_arith)
            requires
                k == 2 * m + 1,
        ;
    }
}

/// The product `k * (k + 1)` is even: consecutive numbers alternate.
proof fn lemma_tri_even(k: int)
    requires
        k >= 0,
    ensures
        (k * (k + 1)) % 2 == 0,
{
    let m = k / 2;
    let b = k % 2;
    assert(k == 2 * m + b);
    if b == 0 {
        assert(k * (k + 1) == 2 * (m * (2 * m + 1))) by (nonlinear_arith)
            requires
                k == 2 * m,
        ;
    } else {
        assert(k * (k + 1) == 2 * ((2 * m + 1) * (m + 1))) by (nonlinear_arith)
            requires
                k == 2 * m + 1,
        ;
    }
}

/// Whether `n` is pentagonal: some positive `k` has `k(3k-1)/2 == n`.
pub fn is_pentagonal(n: usize) -> (r: bool)
    ensures
        r == exists|k: int| 1 <= k && n == #[trigger] pent_formula(k),
{
    let m: u128 = 24 * (n as u128) + 1;
    let s = isqrt(m);
    proof {
        if exists|k: int| 1 <= k && n == #[trigger] pent_formula(k) {
            let k = choose|k: int| 1 <= k && n == #[trigger] pent_formula(k);
            lemma_pent_even(k);
            vstd::arithmetic::div_mod::lemma_fundamental_div_mod((k * (3 * k - 1)) as int, 2);
            assert(2 * n == k * (3 * k - 1));
            assert((6 * k - 1) * (6 * k - 1) == m) by (nonlinear_arith)
                requires
                    2 * n == k * (3 * k - 1),
                    m == 24 * n + 1,
                    k >= 1,
            ;
            lemma_sqrt_unique(s as int, 6 * k - 1, m as int);
            assert(s == 6 * k - 1);
        }
    }
    if s * s != m {
        return false;
    }
    if (1 + s) % 6 != 0 {
        return false;
    }
    let k = (1 + s) / 6;
    proof {
        vstd::arithmetic::div_mod::lemma_fundamental_div_mod((1 + s) as int, 6);
        assert(1 + s == 6 * k);
        assert(k >= 1);
        assert(k * (3 * k - 1) == 2 * n) by (nonlinear_arith)
            requires
                s * s == m,
                m == 24 * n + 1,
                1 + s == 6 * k,
                k >= 1,
        ;
        vstd::arithmetic::div_mod::lemma_div_multiples_vanish(n as int, 2);
        assert(pent_formula(k as int) == n);
        assert(1 <= k as int && n == pent_formula(k as int));
    }
    true
}

/// Whether `n` is hexagonal: some positive `k` has `k(2k-1) == n`.
pub fn is_hexagonal(n: usize) -> (r: bool)
    ensures
        r == exists|k: int| 1 <= k && n == #[trigger] hex_formula(k),
{
    let m: u128 = 8 * (n as u128) + 1;
    let s = isqrt(m);
    proof {
        if exists|k: int| 1 <= k && n == #[trigger] hex_formula(k) {
            let k = choose|k: int| 1 <= k && n == #[trigger] hex_formula(k);
            assert((4 * k - 1) * (4 * k - 1) == m) by (nonlinear_arith)
                requires
                    n == k * (2 * k - 1),
                    m == 8 * n + 1,
                    k >= 1,
            ;
            lemma_sqrt_unique(s as int, 4 * k - 1, m as int);
            assert(s == 4 * k - 1);
        }
    }
    if s * s != m {
        return false;
    }
    if (s + 1) % 4 != 0 {
        return false;
    }
    let k = (s + 1) / 4;
    proof {
        vstd::arithmetic::div_mod::lemma_fundamental_div_mod((s + 1) as int, 4);
        assert(s + 1 == 4 * k);
        assert(k >= 1);
        assert(k * (2 * k - 1) == n) by (nonlinear_arith)
            requires
                s * s == m,
                m == 8 * n + 1,
                s + 1 == 4 * k,
                k >= 1,
        ;
        assert(hex_formula(k as int) == n);
        assert(1 <= k as int && n == hex_formula(k as int));
    }
    true
}

/// Whether `n` is triangular: some positive `k` has `k(k+1)/2 == n`.
pub fn is_triangular(n: usize) -> (r: bool)
    ensures
        r == exists|k: int| 1 <= k && n == #[trigger] tri_formula(k),
{
    let m: u128 = 8 * (n as u128) + 1;
    let s = isqrt(m);
    proof {
        if exists|k: int| 1 <= k && n == #[trigger] tri_formula(k) {
            let k = choose|k: int| 1 <= k && n == #[trigger] tri_formula(k);
            lemma_tri_even(k);
            vstd::arithmetic::div_mod::lemma_fundamental_div_mod((k * (k + 1)) as int, 2);
            assert(2 * n == k * (k + 1));
            assert((2 * k + 1) * (2 * k + 1) == m) by (nonlinear_arith)
                requires
                    2 * n == k * (k + 1),
                    m == 8 * n + 1,
                    k >= 1,
            ;
            lemma_sqrt_unique(s as int, 2 * k + 1, m as int);
            assert(s == 2 * k + 1);
        }
    }
    if s * s != m {
        return false;
    }
    if (s + 1) % 2 != 0 {
        return false;
    }
    let k0 = (s + 1) / 2;
    if k0 < 2 {
        proof {
            if exists|k: int| 1 <= k && n == #[trigger] tri_formula(k) {
                assert(false);
            }
        }
        return false;
    }
    let k = k0 - 1;
    proof {
        vstd::arithmetic::div_mod::lemma_fundamental_div_mod((s + 1) as int, 2);
        assert(s + 1 == 2 * k0);
        assert(s == 2 * k + 1);
        assert(k >= 1);
        assert(k * (k + 1) == 2 * n) by (nonlinear_arith)
            requires
                s * s == m,
                m == 8 * n + 1,
                s == 2 * k + 1,
                k >= 1,
        ;
        vstd::arithmetic::div_mod::lemma_div_multiples_vanish(n as int, 2);
        assert(tri_formula(k as int) == n);
        assert(1 <= k as int && n == tri_formula(k as int));
    }
    true
}

/// Product of a sequence of factors.
pub open spec fn seq_prod(s: Seq<usize>) -> int
    decreases s.len(),
{
    if s.len() == 0 {
        1
    } else {
        seq_prod(s.drop_last()) * s.last()
    }
}

/// Whether `i * i < k`, computed without overflow in a wider word.
fn sq_below(i: usize, k: usize) -> (r: bool)
    ensures
        r == ((i as int) * (i as int) < k as int),
{
    proof {
        assert((i as u128) * (i as u128) <= u128::MAX) by (nonlinear_arith)
            requires
                i as u128 <= 0xFFFF_FFFF_FFFF_FFFFu128,
        ;
    }
    (i as u128) * (i as u128) < (k as u128)
}

/// Trial division: strips the 2s, then odd candidates while the
/// candidate's square stays below the remaining cofactor, and keeps
/// whatever survives. The factors come out nondecreasing, multiply
/// back to `n`, and all but the last are prime; the scan stops at the
/// square root, so the last factor can also be the square of an odd
/// prime — the leading loop strips every factor of two first.
pub fn prime_factors(n: usize) -> (v: Vec<usize>)
    requires
        n >= 1,
    ensures
        seq_prod(v@) == n,
        forall|idx: int| 0 <= idx < v@.len() ==> 2 <= #[trigger] v@[idx],
        forall|a: int, b: int| 0 <= a < b < v@.len() ==> v@[a] <= v@[b],
        forall|idx: int| 0 <= idx && idx + 1 < v@.len() ==> is_prime_math(#[trigger] v@[idx] as int),
        v@.len() > 0 ==> (is_prime_math(v@[v@.len() - 1] as int) || exists|p: int|
            #[trigger] is_prime_math(p) && p >= 3 && p * p == v@[v@.len() - 1]),
{
    let mut k: usize = n;
    let mut output: Vec<usize> = Vec::new();

    while k % 2 == 0
        invariant
            1 <= k <= n,
            seq_prod(output@) * k == n,
            forall|idx: int| 0 <= idx < output@.len() ==> #[trigger] output@[idx] == 2,
        decreases k,
    {
        let ghost prev = output@;
        output.push(2);
        proof {
            assert(output@.drop_last() =~= prev);
            vstd::arithmetic::div_mod::lemma_fundamental_div_mod(k as int, 2);
            assert(seq_prod(output@) * (k / 2) == seq_prod(prev) * k) by (nonlinear_arith)
                requires
                    seq_prod(output@) == seq_prod(prev) * 2,
                    k == 2 * (k / 2),
            ;
        }
        k = k / 2;
    }

    proof {
        assert(is_prime_math(2));
    }
    let mut i: usize = 3;
    while sq_below(i, k)
        invariant
            1 <= k <= n,
            k % 2 != 0,
            i % 2 != 0,
            3 <= i,
            i <= n + 2,
            seq_prod(output@) * k == n,
            forall|idx: int| 0 <= idx < output@.len() ==> 2 <= #[trigger] output@[idx],
            forall|a: int, b: int| 0 <= a < b < output@.len() ==> output@[a] <= output@[b],
            forall|idx: int| 0 <= idx < output@.len() ==> #[trigger] output@[idx] <= i,
            forall|idx: int|
                0 <= idx < output@.len() ==> is_prime_math(#[trigger] output@[idx] as int),
            forall|d: int| 2 <= d < i ==> #[trigger] ((k as int) % d) != 0,
        decreases n + 2 - i,
    {
        let ghost k0 = k as int;
        proof {
            assert(i < k) by (nonlinear_arith)
                requires
                    3 <= i,
                    (i as int) * (i as int) < k as int,
            ;
        }
        while k % i == 0
            invariant
                1 <= k <= n,
                k % 2 != 0,
                i % 2 != 0,
                3 <= i <= n,
                seq_prod(output@) * k == n,
                forall|idx: int| 0 <= idx < output@.len() ==> 2 <= #[trigger] output@[idx],
                forall|a: int, b: int| 0 <= a < b < output@.len() ==> output@[a] <= output@[b],
                forall|idx: int| 0 <= idx < output@.len() ==> #[trigger] output@[idx] <= i,
                forall|idx: int|
                    0 <= idx < output@.len() ==> is_prime_math(#[trigger] output@[idx] as int),
                forall|d: int| 2 <= d < i ==> #[trigger] ((k as int) % d) != 0,
            decreases k,
        {
            let ghost prev = output@;
            output.push(i);
            proof {
                assert(output@.drop_last() =~= prev);
                vstd::arithmetic::div_mod::lemma_fundamental_div_mod(k as int, i as int);
                assert forall|q: int| 2 <= q < i implies #[trigger] ((i as int) % q) != 0 by {
                    if (i as int) % q == 0 {
                        vstd::arithmetic::div_mod::lemma_fundamental_div_mod(i as int, q);
                        assert((k as int) == (((i as int) / q) * ((k as int) / (i as int)))
                            * q) by (nonlinear_arith)
                            requires
                                k == (i as int) * ((k as int) / (i as int)),
                                i == q * ((i as int) / q),
                        ;
                        vstd::arithmetic::div_mod::lemma_mod_multiples_basic(
                            ((i as int) / q) * ((k as int) / (i as int)),
                            q,
                        );
                    }
                }
                assert(is_prime_math(i as int));
                assert(k == (i as int) * ((k as int) / (i as int)));
                assert(seq_prod(output@) * (k as int / i as int) == seq_prod(prev) * k)
                    by (nonlinear_arith)
                    requires
                        seq_prod(output@) == seq_prod(prev) * i,
                        k == (i as int) * ((k as int) / (i as int)),
                ;
                let k2 = (k as int) / (i as int);
                assert(k2 >= 1 && k2 < k as int) by (nonlinear_arith)
                    requires
                        k >= 1,
                        k == (i as int) * k2,
                        i >= 3,
                ;
                if k2 % 2 == 0 {
                    vstd::arithmetic::div_mod::lemma_fundamental_div_mod(k2, 2);
                    assert((k as int) == ((i as int) * (k2 / 2)) * 2) by (nonlinear_arith)
                        requires
                            k == (i as int) * k2,
                            k2 == 2 * (k2 / 2),
                    ;
                    vstd::arithmetic::div_mod::lemma_mod_multiples_basic(
                        (i as int) * (k2 / 2),
                        2,
                    );
                    assert(false);
                }
                assert forall|d: int| 2 <= d < i implies #[trigger] (k2 % d) != 0 by {
                    if k2 % d == 0 {
                        vstd::arithmetic::div_mod::lemma_fundamental_div_mod(k2, d);
                        assert((k as int) == ((i as int) * (k2 / d)) * d) by (nonlinear_arith)
                            requires
                                k == (i as int) * k2,
                                k2 == d * (k2 / d),
                        ;
                        vstd::arithmetic::div_mod::lemma_mod_multiples_basic(
                            (i as int) * (k2 / d),
                            d,
                        );
                    }
                }
            }
            k = k / i;
        }
        proof {
            assert forall|d: int| 2 <= d < i + 2 implies #[trigger] ((k as int) % d) != 0 by {
                if d == i {
                    assert((k as int) % (i as int) != 0);
                } else if d == i + 1 {
                    if (k as int) % d == 0 {
                        vstd::arithmetic::div_mod::lemma_fundamental_div_mod(k as int, d);
                        let t = (k as int) / d;
                        assert(d == 2 * ((i as int + 1) / 2)) by {
                            assert((i as int + 1) % 2 == 0);
                        }
                        assert((k as int) == (((i as int + 1) / 2) * t) * 2)
                            by (nonlinear_arith)
                            requires
                                (k as int) == d * t,
                                d == 2 * ((i as int + 1) / 2),
                        ;
                        vstd::arithmetic::div_mod::lemma_mod_multiples_basic(
                            ((i as int + 1) / 2) * t,
                            2,
                        );
                        assert(false);
                    }
                }
            }
            assert(i + 2 <= n + 2 && 3 * i <= usize::MAX) by (nonlinear_arith)
                requires
                    (i as int) * (i as int) < k0,
                    k0 <= n,
                    n <= usize::MAX,
                    3 <= i,
            ;
        }
        i = i + 2;
    }

    if k > 2 {
        proof {
            if k < i {
                vstd::arithmetic::div_mod::lemma_mod_self_0(k as int);
                assert((k as int) % (k as int) != 0);
                assert(false);
            }
            if !is_prime_math(k as int) {
                lemma_has_prime_divisor(k as int);
                let p = choose|p: int|
                    is_prime_math(p) && 2 <= p <= k && #[trigger] ((k as int) % p) == 0;
                if p < i {
                    assert((k as int) % p != 0);
                }
                assert(p >= i);
                if p == k {
                    assert(is_prime_math(k as int));
                }
                assert(p < k);
                vstd::arithmetic::div_mod::lemma_fundamental_div_mod(k as int, p);
                let c = (k as int) / p;
                assert(k == p * c);
                assert(c >= 2) by (nonlinear_arith)
                    requires
                        k == p * c,
                        2 <= p < k,
                ;
                vstd::arithmetic::div_mod::lemma_mod_multiples_basic(p, c);
                assert((k as int) % c == 0) by {
                    assert((p * c) % c == 0);
                }
                if c < i {
                    assert((k as int) % c != 0);
                }
                assert(c >= i);
                assert(p == i && c == i) by (nonlinear_arith)
                    requires
                        k == p * c,
                        p >= i,
                        c >= i,
                        i >= 3,
                        (i as int) * (i as int) >= k as int,
                ;
                assert(is_prime_math(p) && p >= 3 && p * p == k);
            }
        }
        let ghost prev = output@;
        output.push(k);
        proof {
            assert(output@.drop_last() =~= prev);
            assert(seq_prod(output@) == seq_prod(prev) * k);
            assert(seq_prod(prev) * k == n);
        }
    } else {
        proof {
            assert(k == 1);
        }
    }
    output
}

/// Every number at least 2 has a prime divisor no larger than itself.
proof fn lemma_has_prime_divisor(c: int)
    requires
        c >= 2,
    ensures
        exists|p: int|
            is_prime_math(p) && 2 <= p <= c && #[trigger] (c % p) == 0,
    decreases c,
{
    if is_prime_math(c) {
        assert(c % c == 0) by {
            vstd::arithmetic::div_mod::lemma_mod_self_0(c);
        }
        assert(is_prime_math(c) && 2 <= c <= c && c % c == 0);
    } else {
        let q = choose|q: int| 2 <= q < c && #[trigger] (c % q) == 0;
        lemma_has_prime_divisor(q);
        let p = choose|p: int| is_prime_math(p) && 2 <= p <= q && #[trigger] (q % p) == 0;
        vstd::arithmetic::div_mod::lemma_fundamental_div_mod(c, q);
        vstd::arithmetic::div_mod::lemma_fundamental_div_mod(q, p);
        assert(c == ((q / p) * (c / q)) * p) by (nonlinear_arith)
            requires
                c == q * (c / q),
                q == p * (q / p),
        ;
        vstd::arithmetic::div_mod::lemma_mod_multiples_basic((q / p) * (c / q), p);
        assert(is_prime_math(p) && 2 <= p <= c && c % p == 0);
    }
}

/// Sieve over `[2, max]`: a number enters the reject set exactly when a
/// smaller prime divides it, so what remains is exactly the primes.
pub fn gen_primes(max: usize) -> (primes: std::collections::HashSet<usize>)
    requires
        max < usize::MAX,
    ensures
        forall|p: usize|
            #[trigger] primes@.contains(p) <==> (2 <= p <= max && is_prime_math(p as int)),
{
    broadcast use vstd::std_specs::hash::group_hash_axioms;

    let mut not_prime: std::collections::HashSet<usize> = std::collections::HashSet::new();
    let mut prime: std::collections::HashSet<usize> = std::collections::HashSet::new();

    let mut i: usize = 2;
    while i <= max
        invariant
            2 <= i,
            i <= max + 1 || i == 2,
            max < usize::MAX,
            forall|j: usize|
                #[trigger] not_prime@.contains(j) <==> (2 <= j <= max && exists|p: int|
                    2 <= p < i && is_prime_math(p) && p < j && (j as int) % p == 0),
            forall|j: usize|
                #[trigger] prime@.contains(j) <==> (2 <= j < i && is_prime_math(j as int)),
        decreases max + 1 - i,
    {
        if !not_prime.contains(&i) {
            proof {
                if !is_prime_math(i as int) {
                    lemma_has_prime_divisor(i as int);
                    let p = choose|p: int|
                        is_prime_math(p) && 2 <= p <= i && #[trigger] ((i as int) % p) == 0;
                    assert(p < i);
                    assert(not_prime@.contains(i));
                    assert(false);
                }
            }
            prime.insert(i);
            let ghost base = not_prime@;
            let mut j: usize = i + 1;
            while j <= max
                invariant
                    2 <= i < j,
                    j <= max + 1,
                    max < usize::MAX,
                    forall|m: usize|
                        #[trigger] not_prime@.contains(m) <==> (base.contains(m) || (i < m < j
                            && (m as int) % (i as int) == 0)),
                decreases max + 1 - j,
            {
                if j % i == 0 {
                    not_prime.insert(j);
                }
                j = j + 1;
            }
            proof {
                assert forall|jj: usize|
                    #[trigger] not_prime@.contains(jj) <==> (2 <= jj <= max && exists|p: int|
                        2 <= p < i + 1 && is_prime_math(p) && p < jj && (jj as int) % p
                            == 0) by {
                    if not_prime@.contains(jj) {
                        if base.contains(jj) {
                            let p = choose|p: int|
                                2 <= p < i && is_prime_math(p) && p < jj && (jj as int) % p
                                    == 0;
                            assert(2 <= p < i + 1 && is_prime_math(p) && p < jj && (jj as int)
                                % p == 0);
                        } else {
                            assert(2 <= (i as int) < i + 1 && is_prime_math(i as int) && (
                            i as int) < jj && (jj as int) % (i as int) == 0);
                        }
                    } else {
                        if 2 <= jj <= max && exists|p: int|
                            2 <= p < i + 1 && is_prime_math(p) && p < jj && (jj as int) % p
                                == 0 {
                            let p = choose|p: int|
                                2 <= p < i + 1 && is_prime_math(p) && p < jj && (jj as int) % p
                                    == 0;
                            if p < i {
                                assert(base.contains(jj));
                            } else {
                                assert(p == i);
                                assert(not_prime@.contains(jj));
                            }
                            assert(false);
                        }
                    }
                }
            }
        } else {
            proof {
                let p = choose|p: int|
                    2 <= p < i && is_prime_math(p) && p < i && ((i as int) % p) == 0;
                assert(!is_prime_math(i as int));
            }
        }
        i = i + 1;
    }
    prime
}

/// The stepping counters read as a mixed-radix number with factorial
/// place values: slot `k` counts in units of `k!`. Each successful step
/// raises this rank, and the rank is capped below `n!`, so a run of
/// steps must terminate.
pub open spec fn counters_val(c: Seq<usize>, k: int) -> int
    decreases k,
{
    if k <= 1 {
        0
    } else {
        counters_val(c, k - 1) + c[k - 1] * fact((k - 1) as nat)
    }
}

proof fn lemma_counters_val_same(a: Seq<usize>, b: Seq<usize>, n: int)
    requires
        forall|m: int| 1 <= m < n ==> a[m] == b[m],
    ensures
        counters_val(a, n) == counters_val(b, n),
    decreases n,
{
    if n > 1 {
        lemma_counters_val_same(a, b, n - 1);
    }
}

proof fn lemma_counters_val_update(c: Seq<usize>, k: int, v: usize, n: int)
    requires
        1 <= k < n,
        n <= c.len(),
    ensures
        counters_val(c.update(k, v), n) == counters_val(c, n) - c[k] * fact(k as nat) + v * fact(
            k as nat,
        ),
    decreases n,
{
    if k == n - 1 {
        lemma_counters_val_same(c.update(k, v), c, n - 1);
    } else {
        lemma_counters_val_update(c, k, v, n - 1);
        assert(c.update(k, v)[n - 1] == c[n - 1]);
    }
}

/// Under the counter bounds of `Permuter::wf`, the factorial-base rank
/// stays below `n!`: the telescoped maximum of the mixed radix.
pub proof fn lemma_counters_val_bound(c: Seq<usize>, n: int)
    requires
        0 <= n <= c.len(),
        forall|m: int| 0 <= m < c.len() ==> #[trigger] c[m] <= m,
    ensures
        0 <= counters_val(c, n) <= fact(n as nat) - 1,
    decreases n,
{
    if n <= 1 {
        assert(counters_val(c, n) == 0);
        assert(fact(0nat) == 1);
        assert(fact(1nat) == 1 * fact(0nat));
        assert(fact(n as nat) >= 1);
    } else {
        lemma_counters_val_bound(c, n - 1);
        assert(counters_val(c, n) == counters_val(c, n - 1) + c[n - 1] * fact((n - 1) as nat));
        assert(0 <= c[n - 1] <= n - 1);
        assert(c[n - 1] * fact((n - 1) as nat) <= (n - 1) * fact((n - 1) as nat))
            by (nonlinear_arith)
            requires
                0 <= c[n - 1] <= n - 1,
                fact((n - 1) as nat) >= 0,
        ;
        assert(c[n - 1] * fact((n - 1) as nat) >= 0) by (nonlinear_arith)
            requires
                c[n - 1] >= 0,
                fact((n - 1) as nat) >= 0,
        ;
        assert((n - 1) * fact((n - 1) as nat) + fact((n - 1) as nat) == n * fact(
            (n - 1) as nat,
        )) by (nonlinear_arith);
        assert(fact(n as nat) == n * fact((n - 1) as nat));
    }
}

proof fn lemma_counters_val_zeros(c: Seq<usize>, n: int)
    requires
        forall|m: int| 0 <= m < n ==> c[m] == 0,
    ensures
        counters_val(c, n) == 0,
    decreases n,
{
    if n > 1 {
        lemma_counters_val_zeros(c, n - 1);
    }
}

/// With every counter at its maximum the factorial-base rank telescopes
/// to exactly `n! - 1`: the exhausted reading.
pub proof fn lemma_counters_val_maxed(c: Seq<usize>, n: int)
    requires
        0 <= n <= c.len(),
        forall|m: int| 1 <= m < n ==> #[trigger] c[m] == m,
    ensures
        counters_val(c, n) == fact(n as nat) - 1,
    decreases n,
{
    if n <= 1 {
        assert(fact(0nat) == 1);
        assert(fact(1nat) == 1 * fact(0nat));
    } else {
        lemma_counters_val_maxed(c, n - 1);
        assert(counters_val(c, n) == counters_val(c, n - 1) + c[n - 1] * fact((n - 1) as nat));
        assert(c[n - 1] == n - 1);
        assert((n - 1) * fact((n - 1) as nat) + fact((n - 1) as nat) == n * fact(
            (n - 1) as nat,
        )) by (nonlinear_arith);
        assert(fact(n as nat) == n * fact((n - 1) as nat));
    }
}

/// Heap's algorithm as a stepper: `current` reads the present
/// arrangement, `advance` moves to the next one until all have been
/// visited. Every arrangement holds the same multiset of entries.
pub struct Permuter {
    pub arr: Vec<usize>,
    pub c: Vec<usize>,
    pub i: usize,
}

impl Permuter {
    /// The counters mirror the array and never outgrow their index,
    /// and the cursor is either ready (at 1) or past the end — the
    /// exhausted state, in which every counter sits at its maximum.
    pub open spec fn wf(self) -> bool {
        &&& self.c@.len() == self.arr@.len()
        &&& 1 <= self.i
        &&& forall|k: int| 0 <= k < self.c@.len() ==> #[trigger] self.c@[k] <= k
        &&& (self.i == 1 || self.i >= self.arr@.len())
        &&& (self.i >= self.arr@.len() ==> forall|k: int|
            1 <= k < self.c@.len() ==> #[trigger] self.c@[k] == k)
    }

    /// The present arrangement, first the seed order, then each
    /// successor in Heap's order.
    pub fn current(&self) -> (r: &Vec<usize>)
        ensures
            r@ == self.arr@,
    {
        &self.arr
    }

    /// Steps to the next arrangement; every `true` raises the
    /// counters' factorial-base rank by exactly one, and `false` comes
    /// only once that rank has reached `n! - 1` — after the full run —
    /// leaving the array untouched from then on. With distinct entries
    /// every `true` also changes the arrangement.
    pub fn advance(&mut self) -> (more: bool)
        requires
            old(self).wf(),
        ensures
            final(self).wf(),
            final(self).arr@.to_multiset() == old(self).arr@.to_multiset(),
            final(self).arr@.len() == old(self).arr@.len(),
            final(self).c@.len() == old(self).c@.len(),
            !more ==> final(self).arr@ == old(self).arr@,
            !more ==> final(self).i >= final(self).arr@.len(),
            !more ==> counters_val(final(self).c@, final(self).c@.len() as int) == fact(
                final(self).c@.len() as nat,
            ) - 1,
            more ==> final(self).i == 1,
            more ==> counters_val(final(self).c@, final(self).c@.len() as int) == counters_val(
                old(self).c@,
                old(self).c@.len() as int,
            ) + 1,
            more && old(self).arr@.no_duplicates() ==> final(self).arr@ != old(self).arr@,
    {
        broadcast use vstd::seq_lib::group_to_multiset_ensures;
        broadcast use vstd::multiset::group_multiset_axioms;

        let n = self.arr.len();
        if self.i >= n {
            proof {
                lemma_counters_val_maxed(self.c@, n as int);
            }
            return false;
        }
        // The cursor is ready: i == 1 and n >= 2. Look, without yet
        // changing anything, for the first counter below its maximum.
        let mut j: usize = 1;
        while j < n && self.c[j] >= j
            invariant
                1 <= j <= n,
                2 <= n,
                n == self.arr@.len(),
                n == self.c@.len(),
                self.arr@ == old(self).arr@,
                self.c@ == old(self).c@,
                self.i == old(self).i,
                old(self).wf(),
                forall|k: int| 1 <= k < j ==> #[trigger] self.c@[k] == k,
            decreases n - j,
        {
            j = j + 1;
        }
        if j >= n {
            // Every counter is at its maximum: the run is over; the
            // counters stay put as the certificate of exhaustion.
            self.i = n;
            proof {
                lemma_counters_val_maxed(self.c@, n as int);
            }
            return false;
        }
        // Reset the counters below j, then act at j.
        let ghost centry = self.c@;
        proof {
            assert(fact(0nat) == 1);
            assert(fact(1nat) == 1 * fact(0nat));
        }
        let mut k: usize = 1;
        while k < j
            invariant
                1 <= k <= j < n,
                n == self.arr@.len(),
                n == self.c@.len(),
                self.arr@ == old(self).arr@,
                self.i == old(self).i,
                old(self).wf(),
                centry == old(self).c@,
                forall|m: int| k <= m < n ==> #[trigger] self.c@[m] == centry[m],
                forall|m: int| 1 <= m < k ==> #[trigger] self.c@[m] == 0,
                self.c@[0] == centry[0],
                forall|m: int| 0 <= m < n ==> #[trigger] self.c@[m] <= m,
                forall|m: int| 1 <= m < j ==> #[trigger] centry[m] == m,
                centry[j as int] < j,
                counters_val(self.c@, n as int) == counters_val(centry, n as int) - fact(
                    k as nat,
                ) + 1,
            decreases j - k,
        {
            let ghost cprev = self.c@;
            self.c[k] = 0;
            proof {
                assert(self.c@ == cprev.update(k as int, 0usize));
                lemma_counters_val_update(cprev, k as int, 0, n as int);
                assert(cprev[k as int] == k);
                assert(fact((k + 1) as nat) == (k + 1) * fact(k as nat));
                assert((k + 1) * fact(k as nat) == k * fact(k as nat) + fact(k as nat))
                    by (nonlinear_arith);
            }
            k = k + 1;
        }
        let pos = if j % 2 == 0 {
            0
        } else {
            self.c[j]
        };
        proof {
            assert(pos != j);
        }
        let ghost prev = self.arr@;
        let a = self.arr[pos];
        let b = self.arr[j];
        self.arr[pos] = b;
        self.arr[j] = a;
        proof {
            assert(self.arr@ == prev.update(pos as int, b).update(j as int, a));
            assert(prev.update(pos as int, b)[j as int] == b);
            assert(prev[pos as int] == a);
            assert(prev.contains(a));
            vstd::seq_lib::to_multiset_contains(prev, a);
            vstd::seq_lib::to_multiset_update(prev, pos as int, b);
            vstd::seq_lib::to_multiset_update(prev.update(pos as int, b), j as int, a);
            assert(self.arr@.to_multiset() =~= prev.to_multiset());
            if prev.no_duplicates() {
                assert(prev[pos as int] != prev[j as int]);
                assert(self.arr@[pos as int] == b);
                assert(self.arr@[pos as int] != prev[pos as int]);
            }
        }
        let ghost cprev = self.c@;
        self.c[j] = self.c[j] + 1;
        proof {
            assert(self.c@ == cprev.update(j as int, (cprev[j as int] + 1) as usize));
            lemma_counters_val_update(cprev, j as int, (cprev[j as int] + 1) as usize, n as int);
            assert((cprev[j as int] + 1) * fact(j as nat) == cprev[j as int] * fact(j as nat)
                + fact(j as nat)) by (nonlinear_arith);
        }
        self.i = 1;
        true
    }
}

/// Seeds a permutation run over a copy of `pattern`; the first
/// arrangement read is `pattern` itself.
pub fn gen_permutation(pattern: &[usize]) -> (g: Permuter)
    ensures
        g.wf(),
        g.arr@ == pattern@,
        g.i == 1,
        counters_val(g.c@, g.c@.len() as int) == 0,
{
    let mut arr: Vec<usize> = Vec::new();
    let mut c: Vec<usize> = Vec::new();
    let mut k: usize = 0;
    while k < pattern.len()
        invariant
            k <= pattern@.len(),
            arr@ == pattern@.take(k as int),
            c@.len() == k,
            forall|m: int| 0 <= m < k ==> #[trigger] c@[m] == 0,
        decreases pattern@.len() - k,
    {
        arr.push(pattern[k]);
        c.push(0);
        proof {
            assert(arr@ =~= pattern@.take(k + 1));
        }
        k = k + 1;
    }
    proof {
        assert(pattern@.take(pattern@.len() as int) =~= pattern@);
        lemma_counters_val_zeros(c@, c@.len() as int);
    }
    Permuter { arr, c, i: 1 }
}

/// Seeds a permutation run over the ten digits 0 through 9; paired with
/// `to_num`, it enumerates the 0-to-9 pandigital numbers.
pub fn gen_pandigital() -> (g: Permuter)
    ensures
        g.wf(),
        g.arr@ == seq![0usize, 1, 2, 3, 4, 5, 6, 7, 8, 9],
        g.i == 1,
        counters_val(g.c@, g.c@.len() as int) == 0,
{
    let mut arr: Vec<usize> = Vec::new();
    let mut c: Vec<usize> = Vec::new();
    let mut k: usize = 0;
    while k < 10
        invariant
            k <= 10,
            arr@.len() == k,
            c@.len() == k,
            forall|m: int| 0 <= m < k ==> #[trigger] arr@[m] == m,
            forall|m: int| 0 <= m < k ==> #[trigger] c@[m] == 0,
        decreases 10 - k,
    {
        arr.push(k);
        c.push(0);
        k = k + 1;
    }
    proof {
        assert(arr@ =~= seq![0usize, 1, 2, 3, 4, 5, 6, 7, 8, 9]);
        lemma_counters_val_zeros(c@, c@.len() as int);
    }
    Permuter { arr, c, i: 1 }
}

} // verus!
