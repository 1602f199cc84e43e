//! The number theory that the key operations rest on: primes, Euclid's
//! lemma, Fermat's little theorem, and what follows of them for
//! exponentiation modulo a product of two primes.

use vstd::prelude::*;
use vstd::arithmetic::div_mod::{
    lemma_fundamental_div_mod, lemma_fundamental_div_mod_converse, lemma_mod_bound,
    lemma_mod_equivalence, lemma_mod_self_0, lemma_mul_mod_noop_left, lemma_mul_mod_noop_right,
    lemma_small_mod,
};
use vstd::arithmetic::power::{
    lemma1_pow, lemma_pow_adds, lemma_pow_mod_noop, lemma_pow_multiplies, pow,
};
use vstd::seq_lib::{commutative_foldr, lemma_fold_right_permutation};
use vstd::set_lib::lemma_subset_equality;

verus! {

/// Whether `p` is a prime.
pub open spec fn is_prime(p: nat) -> bool {
    p >= 2 && forall|d: nat| 1 < d < p ==> #[trigger] (p % d) != 0
}

/// Whether `d` divides `n`.
pub open spec fn divides(d: int, n: int) -> bool {
    n % d == 0
}

/// The greatest common divisor, by Euclid's algorithm.
pub open spec fn gcd(a: nat, b: nat) -> nat
    decreases b,
{
    if b == 0 {
        a
    } else {
        gcd(b, a % b)
    }
}

/// A common divisor of a divisor and a remainder divides the dividend.
pub proof fn lemma_divides_dividend(d: int, u: int, v: int)
    requires
        d > 0,
        v > 0,
        u >= 0,
        divides(d, v),
        divides(d, u % v),
    ensures
        divides(d, u),
{
    let (q, r) = (u / v, u % v);
    lemma_fundamental_div_mod(u, v);
    lemma_fundamental_div_mod(v, d);
    lemma_fundamental_div_mod(r, d);
    let (x, y) = (v / d, r / d);
    assert(u == (x * q + y) * d + 0) by (nonlinear_arith)
        requires
            u == v * q + r,
            v == d * x,
            r == d * y,
    ;
    lemma_fundamental_div_mod_converse(u, d, x * q + y, 0);
}

/// Bézout's identity: the greatest common divisor divides both numbers
/// and is a combination of them. The coefficients are returned.
pub proof fn lemma_gcd(a: nat, b: nat) -> (r: (int, int))
    ensures
        a * r.0 + b * r.1 == gcd(a, b),
        a > 0 || b > 0 ==> gcd(a, b) > 0,
        gcd(a, b) > 0 ==> divides(gcd(a, b) as int, a as int) && divides(
            gcd(a, b) as int,
            b as int,
        ),
    decreases b,
{
    if b == 0 {
        if a > 0 {
            lemma_mod_self_0(a as int);
            lemma_small_mod(0, a);
        }
        (1, 0)
    } else {
        let (x, y) = lemma_gcd(b, a % b);
        let g = gcd(a, b) as int;
        let q = (a / b) as int;
        let rest = (a % b) as int;
        lemma_fundamental_div_mod(a as int, b as int);
        lemma_mod_bound(a as int, b as int);
        assert(a * y + b * (x - q * y) == b * x + rest * y) by (nonlinear_arith)
            requires
                a == b * q + rest,
        ;
        lemma_divides_dividend(g, a as int, b as int);
        (y, x - q * y)
    }
}

/// Euclid's lemma: a prime that divides a product divides one of the
/// factors.
pub proof fn lemma_prime_divides_product(p: nat, a: int, b: int)
    requires
        is_prime(p),
        divides(p as int, a * b),
    ensures
        divides(p as int, a) || divides(p as int, b),
{
    let pi = p as int;
    let rest = a % pi;
    lemma_mod_bound(a, pi);
    if rest != 0 {
        let (x, y) = lemma_gcd(rest as nat, p);
        let g = gcd(rest as nat, p);
        // the greatest common divisor is 1
        assert(g == 1) by {
            if g != 1 {
                lemma_fundamental_div_mod(rest, g as int);
                let k = rest / (g as int);
                assert(g <= rest) by (nonlinear_arith)
                    requires
                        rest == g * k,
                        rest > 0,
                        g > 0,
                ;
                assert(p % g != 0);
            }
        }
        lemma_mul_mod_noop_left(a, b, pi);
        lemma_fundamental_div_mod(rest * b, pi);
        let k = (rest * b) / pi;
        assert(b == (k * x + b * y) * pi + 0) by (nonlinear_arith)
            requires
                rest * x + pi * y == 1,
                rest * b == pi * k,
        ;
        lemma_fundamental_div_mod_converse(b, pi, k * x + b * y, 0);
    }
}

/// The product of the numbers of a sequence.
pub open spec fn product(s: Seq<int>) -> int
    decreases s.len(),
{
    if s.len() == 0 {
        1
    } else {
        product(s.drop_last()) * s.last()
    }
}

/// Multiplication, as a function to fold with.
spec fn times() -> spec_fn(int, int) -> int {
    |x: int, y: int| x * y
}

/// The product, as a fold from the right.
proof fn lemma_product_fold(s: Seq<int>, b: int)
    ensures
        s.fold_right(times(), b) == product(s) * b,
    decreases s.len(),
{
    if s.len() == 0 {
        assert(1 * b == b);
    } else {
        lemma_product_fold(s.drop_last(), s.last() * b);
        let (front, last) = (product(s.drop_last()), s.last());
        assert(front * (last * b) == (front * last) * b) by (nonlinear_arith);
    }
}

/// The product does not depend on the order of the numbers.
proof fn lemma_product_permutation(s: Seq<int>, t: Seq<int>)
    requires
        s.to_multiset() == t.to_multiset(),
    ensures
        product(s) == product(t),
{
    assert(commutative_foldr(times())) by {
        assert forall|x: int, y: int, v: int| #[trigger]
            times()(x, times()(y, v)) == times()(y, times()(x, v)) by {
            assert(x * (y * v) == y * (x * v)) by (nonlinear_arith);
        }
    }
    lemma_fold_right_permutation(s, t, times(), 1);
    lemma_product_fold(s, 1);
    lemma_product_fold(t, 1);
    assert(product(s) * 1 == product(s));
    assert(product(t) * 1 == product(t));
}

/// The numbers `1, 2, ..., n`.
spec fn first_numbers(n: nat) -> Seq<int> {
    Seq::new(n, |i: int| i + 1)
}

/// The remainders of `a, 2 a, ..., n a` by `p`.
spec fn first_multiples(a: int, p: nat, n: nat) -> Seq<int> {
    Seq::new(n, |i: int| (a * (i + 1)) % (p as int))
}

/// No multiple `a i` with `0 < i < p` of a number that the prime `p` does
/// not divide is divisible by `p`.
proof fn lemma_multiple_not_divisible(a: int, p: nat, i: int)
    requires
        is_prime(p),
        !divides(p as int, a),
        0 < i < p,
    ensures
        (a * i) % (p as int) != 0,
        0 < (a * i) % (p as int) < p,
{
    lemma_mod_bound(a * i, p as int);
    if divides(p as int, a * i) {
        lemma_prime_divides_product(p, a, i);
        lemma_small_mod(i as nat, p);
    }
}

/// Two multiples `a i` and `a j` with `0 < j < i < p` leave different
/// remainders.
proof fn lemma_multiples_differ(a: int, p: nat, i: int, j: int)
    requires
        is_prime(p),
        !divides(p as int, a),
        0 < j < i < p,
    ensures
        (a * i) % (p as int) != (a * j) % (p as int),
{
    if (a * i) % (p as int) == (a * j) % (p as int) {
        lemma_mod_equivalence(a * i, a * j, p as int);
        assert(a * i - a * j == a * (i - j)) by (nonlinear_arith);
        lemma_multiple_not_divisible(a, p, i - j);
    }
}

/// Multiplication by a number that the prime `p` does not divide permutes
/// the remainders `1, ..., p - 1`.
proof fn lemma_multiples_permute(a: int, p: nat)
    requires
        is_prime(p),
        !divides(p as int, a),
    ensures
        first_multiples(a, p, (p - 1) as nat).to_multiset() == first_numbers(
            (p - 1) as nat,
        ).to_multiset(),
{
    let n = (p - 1) as nat;
    let numbers = first_numbers(n);
    let multiples = first_multiples(a, p, n);
    assert(numbers.no_duplicates());
    assert forall|i: int, j: int| 0 <= i < n && 0 <= j < n && i != j implies multiples[i]
        != multiples[j] by {
        if i > j {
            lemma_multiples_differ(a, p, i + 1, j + 1);
        } else {
            lemma_multiples_differ(a, p, j + 1, i + 1);
        }
    }
    assert(multiples.no_duplicates());
    numbers.unique_seq_to_set();
    multiples.unique_seq_to_set();
    vstd::seq_lib::seq_to_set_is_finite(numbers);
    vstd::seq_lib::seq_to_set_is_finite(multiples);
    assert(multiples.to_set().subset_of(numbers.to_set())) by {
        assert forall|x: int| multiples.to_set().contains(x) implies numbers.to_set().contains(
            x,
        ) by {
            let i = choose|i: int| 0 <= i < n && multiples[i] == x;
            lemma_multiple_not_divisible(a, p, i + 1);
            assert(numbers[x - 1] == x);
        }
    }
    lemma_subset_equality(multiples.to_set(), numbers.to_set());
    numbers.to_multiset_ensures();
    multiples.to_multiset_ensures();
    numbers.lemma_multiset_has_no_duplicates();
    multiples.lemma_multiset_has_no_duplicates();
    assert forall|x: int|
        multiples.to_multiset().count(x) == numbers.to_multiset().count(x) by {
        assert(multiples.to_set().contains(x) == numbers.to_set().contains(x));
        assert(multiples.contains(x) == numbers.contains(x));
    }
    assert(multiples.to_multiset() =~= numbers.to_multiset());
}

/// The product of the remainders of `a, 2 a, ..., n a` is, modulo `p`, the
/// product of `1, ..., n` times the `n`-th power of `a`.
proof fn lemma_multiples_product(a: int, p: nat, n: nat)
    requires
        p > 0,
    ensures
        product(first_multiples(a, p, n)) % (p as int) == (pow(a, n) * product(
            first_numbers(n),
        )) % (p as int),
    decreases n,
{
    let pi = p as int;
    reveal(pow);
    if n == 0 {
        assert(pow(a, 0) * 1 == 1) by (nonlinear_arith)
            requires
                pow(a, 0) == 1,
        ;
    } else {
        let m = (n - 1) as nat;
        lemma_multiples_product(a, p, m);
        assert(first_multiples(a, p, n).drop_last() =~= first_multiples(a, p, m));
        assert(first_numbers(n).drop_last() =~= first_numbers(m));
        let front = product(first_multiples(a, p, m));
        let numbers = product(first_numbers(m));
        let power = pow(a, m);
        // front * ((a n) % p)  is  front * (a n)  is  (power * numbers) * (a n)  modulo p
        lemma_mul_mod_noop_right(front, a * n, pi);
        lemma_mul_mod_noop_left(front, a * n, pi);
        lemma_mul_mod_noop_left(power * numbers, a * n, pi);
        assert((power * numbers) * (a * n) == (a * power) * (numbers * n)) by (nonlinear_arith);
    }
}

/// The prime `p` does not divide the product of `1, ..., n` for `n < p`.
proof fn lemma_numbers_product(p: nat, n: nat)
    requires
        is_prime(p),
        n < p,
    ensures
        !divides(p as int, product(first_numbers(n))),
    decreases n,
{
    if n == 0 {
        lemma_small_mod(1, p);
    } else {
        let m = (n - 1) as nat;
        lemma_numbers_product(p, m);
        assert(first_numbers(n).drop_last() =~= first_numbers(m));
        if divides(p as int, product(first_numbers(n))) {
            lemma_prime_divides_product(p, product(first_numbers(m)), n as int);
            lemma_small_mod(n, p);
        }
    }
}

/// Fermat's little theorem: a number that the prime `p` does not divide,
/// raised to the power `p - 1`, leaves the remainder 1.
pub proof fn lemma_fermat(a: int, p: nat)
    requires
        is_prime(p),
        !divides(p as int, a),
    ensures
        pow(a, (p - 1) as nat) % (p as int) == 1,
{
    let pi = p as int;
    let n = (p - 1) as nat;
    let numbers = product(first_numbers(n));
    let power = pow(a, n);
    lemma_multiples_permute(a, p);
    lemma_product_permutation(first_multiples(a, p, n), first_numbers(n));
    lemma_multiples_product(a, p, n);
    lemma_numbers_product(p, n);
    // numbers == power * numbers modulo p, and p does not divide numbers
    lemma_mod_equivalence(power * numbers, numbers, pi);
    assert(power * numbers - numbers == numbers * (power - 1)) by (nonlinear_arith);
    lemma_prime_divides_product(p, numbers, power - 1);
    lemma_mod_equivalence(power, 1, pi);
    lemma_small_mod(1, p);
}

/// A positive power of a multiple of `p` is a multiple of `p`.
pub proof fn lemma_pow_of_multiple(a: int, p: nat, e: nat)
    requires
        p > 0,
        e >= 1,
        divides(p as int, a),
    ensures
        pow(a, e) % (p as int) == 0,
{
    reveal(pow);
    lemma_mul_mod_noop_left(a, pow(a, (e - 1) as nat), p as int);
    assert(0 * pow(a, (e - 1) as nat) == 0);
    lemma_small_mod(0, p);
}

/// Modulo a prime that does not divide the base, whole multiples of
/// `p - 1` in the exponent make no difference.
pub proof fn lemma_pow_exponent_reduce(a: int, p: nat, t: nat, r: nat)
    requires
        is_prime(p),
        !divides(p as int, a),
    ensures
        pow(a, ((p - 1) * t + r) as nat) % (p as int) == pow(a, r) % (p as int),
{
    let pi = p as int;
    let n = (p - 1) as nat;
    let unit = pow(a, n);
    lemma_fermat(a, p);
    lemma_pow_adds(a, n * t, r);
    lemma_pow_multiplies(a, n, t);
    lemma_pow_mod_noop(unit, t, pi);
    lemma1_pow(t);
    lemma_small_mod(1, p);
    assert(pow(unit, t) % pi == 1);
    lemma_mul_mod_noop_left(pow(unit, t), pow(a, r), pi);
    assert(1 * pow(a, r) == pow(a, r));
}

/// Modulo a prime `p`, two positive exponents that leave the same
/// remainder by `p - 1` give the same power.
pub proof fn lemma_pow_same_exponent_class(a: int, p: nat, x: nat, y: nat)
    requires
        is_prime(p),
        x >= 1,
        y >= 1,
        x % ((p - 1) as nat) == y % ((p - 1) as nat),
    ensures
        pow(a, x) % (p as int) == pow(a, y) % (p as int),
{
    let n = (p - 1) as nat;
    if divides(p as int, a) {
        lemma_pow_of_multiple(a, p, x);
        lemma_pow_of_multiple(a, p, y);
    } else {
        lemma_fundamental_div_mod(x as int, n as int);
        lemma_fundamental_div_mod(y as int, n as int);
        lemma_pow_exponent_reduce(a, p, x / n, x % n);
        lemma_pow_exponent_reduce(a, p, y / n, y % n);
    }
}

/// A prime does not divide another prime.
pub proof fn lemma_primes_coprime(p: nat, q: nat)
    requires
        is_prime(p),
        is_prime(q),
        p != q,
    ensures
        !divides(q as int, p as int),
{
    if q < p {
        assert(p % q != 0);
    } else {
        lemma_small_mod(p, q);
    }
}

/// The Chinese Remainder Theorem, as far as it says that there is one
/// number at most: two numbers below `p q` that leave the same remainders
/// by the primes `p` and `q` are the same number.
pub proof fn lemma_same_remainders(p: nat, q: nat, x: int, y: int)
    requires
        is_prime(p),
        is_prime(q),
        p != q,
        0 <= y <= x < p * q,
        x % (p as int) == y % (p as int),
        x % (q as int) == y % (q as int),
    ensures
        x == y,
{
    let (pi, qi) = (p as int, q as int);
    let d = x - y;
    lemma_mod_equivalence(x, y, pi);
    lemma_mod_equivalence(x, y, qi);
    lemma_fundamental_div_mod(d, pi);
    let k = d / pi;
    assert(pi * k == k * pi) by (nonlinear_arith);
    lemma_primes_coprime(p, q);
    lemma_prime_divides_product(q, k, pi);
    lemma_fundamental_div_mod(k, qi);
    let j = k / qi;
    assert(j == 0) by (nonlinear_arith)
        requires
            d == pi * k,
            k == qi * j,
            0 <= d < pi * qi,
            pi > 0,
            qi > 0,
    ;
    assert(qi * 0 == 0 && pi * 0 == 0);
}

} // verus!
