//! Key generation: a key pair from two primes and a public exponent.
//!
//! The primes come from outside. The rest is computed here: the modulus,
//! the private exponent as the inverse of the public exponent modulo
//! `(p - 1)(q - 1)`, its remainders by `p - 1` and `q - 1`, and the inverse
//! of the smaller prime modulo the larger. Where one of the inverses does
//! not exist, or the modulus has not the bit length asked for, no key is
//! made.

use vstd::prelude::*;
use vstd::arithmetic::div_mod::{
    lemma_fundamental_div_mod, lemma_fundamental_div_mod_converse, lemma_mod_bound,
    lemma_mod_multiples_basic, lemma_small_mod,
};
use rand::thread_rng;
use rsa::traits::PrivateKeyParts;
use rsa::RsaPrivateKey;
use crate::RSAError;
use crate::big::{big_add, big_div_rem, big_mul, big_order, big_sub};
use crate::radix::{
    be_value, lemma_be_value_concat, lemma_be_value_push, lemma_be_value_zeros, lemma_npow_adds,
    lemma_scales, npow, zero_bytes,
};
use crate::theory::{divides, lemma_divides_dividend};
use crate::rsa::{
    copy_bytes, public_part, PrivateKeyValue, RSAPrivateKey, RSAProtoKey, RSAPublicKey,
    MAX_RSA_MODULUS_BITS, MIN_RSA_MODULUS_BITS,
};

verus! {

/// Whether `x` is the inverse of `b` modulo `c`: the one number below `c`
/// whose product with `b` leaves the remainder 1.
pub open spec fn is_inverse_mod(x: nat, b: nat, c: nat) -> bool {
    x < c && (x * b) % c == 1
}

/// Whether `b` has an inverse modulo `c`.
pub open spec fn has_inverse_mod(b: nat, c: nat) -> bool {
    exists|x: nat| is_inverse_mod(x, b, c)
}

/// Whether `n` has exactly `bits` bits.
pub open spec fn has_bit_length(n: nat, bits: nat) -> bool {
    bits >= 1 && npow(2, (bits - 1) as nat) <= n < npow(2, bits)
}

/// Whether key generation supports the bit length.
pub open spec fn bits_supported(bits: nat) -> bool {
    MIN_RSA_MODULUS_BITS <= bits <= MAX_RSA_MODULUS_BITS
}

/// The public exponent that is asked for: 65537 or 3.
pub open spec fn public_exponent_of(proto_key: RSAProtoKey) -> nat {
    if proto_key.use_fermat4 {
        65537
    } else {
        3
    }
}

/// The larger of two numbers.
pub open spec fn larger(a: nat, b: nat) -> nat {
    if a > b {
        a
    } else {
        b
    }
}

/// The smaller of two numbers.
pub open spec fn smaller(a: nat, b: nat) -> nat {
    if a > b {
        b
    } else {
        a
    }
}

/// Whether `k` is the private key of `bits` bits with the public exponent
/// `e` and the primes `p > q`. Nothing is said here of `p` and `q` being
/// prime.
pub open spec fn key_of_primes(k: PrivateKeyValue, bits: nat, e: nat, p: nat, q: nat) -> bool {
    &&& k.bits == bits
    &&& k.public_exponent == e
    &&& k.prime0 == p
    &&& k.prime1 == q
    &&& p > q
    &&& q >= 2
    &&& k.modulus == p * q
    &&& has_bit_length(k.modulus, bits)
    &&& is_inverse_mod(k.coefficient, q, p)
    &&& is_inverse_mod(k.exponent, e, ((p - 1) * (q - 1)) as nat)
    &&& k.prime_exponent0 == k.exponent % ((p - 1) as nat)
    &&& k.prime_exponent1 == k.exponent % ((q - 1) as nat)
}

/// Why no key of `bits` bits can be made of the exponent `e` and the
/// numbers `p >= q`, if none can.
pub open spec fn key_failure(bits: nat, e: nat, p: nat, q: nat) -> Option<RSAError> {
    if !bits_supported(bits) {
        Some(RSAError::ModulusLen)
    } else if q < 2 {
        Some(RSAError::Key)
    } else if !has_bit_length(p * q, bits) {
        Some(RSAError::ModulusLen)
    } else if !has_inverse_mod(q, p) || !has_inverse_mod(e, ((p - 1) * (q - 1)) as nat) {
        Some(RSAError::Key)
    } else {
        None
    }
}

/// `x` with the sign that is kept apart: `-x` where the sign is negative.
pub open spec fn signed(positive: bool, x: int) -> int {
    if positive {
        x
    } else {
        -x
    }
}

/// One step of the extended Euclidean algorithm keeps what ties the
/// coefficients to the remainders.
proof fn lemma_euclid_step(
    b: int,
    c: int,
    positive: bool,
    u1: int,
    v1: int,
    u3: int,
    v3: int,
    ka: int,
    kb: int,
    q: int,
    t3: int,
    t1: int,
)
    requires
        c > 0,
        signed(positive, u1 * b) - u3 == ka * c,
        signed(!positive, v1 * b) - v3 == kb * c,
        u1 * v3 + v1 * u3 == c,
        0 <= u1,
        0 <= v1,
        0 <= u3,
        0 < v3,
        q == u3 / v3,
        t3 == u3 % v3,
        t1 == u1 + q * v1,
    ensures
        signed(positive, t1 * b) - t3 == (ka - q * kb) * c,
        v1 * t3 + t1 * v3 == c,
        0 <= t1 <= c,
        0 <= t3 < v3,
        0 <= q,
{
    lemma_fundamental_div_mod(u3, v3);
    lemma_mod_bound(u3, v3);
    vstd::arithmetic::div_mod::lemma_div_pos_is_pos(u3, v3);
    assert(u3 == q * v3 + t3) by (nonlinear_arith)
        requires
            u3 == v3 * q + t3,
    ;
    assert(0 <= q * v1) by (nonlinear_arith)
        requires
            0 <= q,
            0 <= v1,
    ;
    assert(v1 * t3 + t1 * v3 == c) by (nonlinear_arith)
        requires
            u1 * v3 + v1 * u3 == c,
            u3 == q * v3 + t3,
            t1 == u1 + q * v1,
    ;
    assert(0 <= v1 * t3) by (nonlinear_arith)
        requires
            0 <= v1,
            0 <= t3,
    ;
    assert(t1 <= t1 * v3) by (nonlinear_arith)
        requires
            0 <= t1,
            1 <= v3,
    ;
    if positive {
        assert((t1 * b) - t3 == (ka - q * kb) * c) by (nonlinear_arith)
            requires
                (u1 * b) - u3 == ka * c,
                -(v1 * b) - v3 == kb * c,
                u3 == q * v3 + t3,
                t1 == u1 + q * v1,
        ;
    } else {
        assert(-(t1 * b) - t3 == (ka - q * kb) * c) by (nonlinear_arith)
            requires
                -(u1 * b) - u3 == ka * c,
                (v1 * b) - v3 == kb * c,
                u3 == q * v3 + t3,
                t1 == u1 + q * v1,
        ;
    }
}

/// With the greatest common divisor 1, the coefficient that the algorithm
/// ends on is the inverse, or the modulus less the inverse.
proof fn lemma_inverse_found(b: int, c: int, positive: bool, u1: int, ka: int)
    requires
        c >= 2,
        b >= 0,
        0 <= u1 <= c,
        signed(positive, u1 * b) - 1 == ka * c,
    ensures
        positive ==> is_inverse_mod(u1 as nat, b as nat, c as nat),
        !positive ==> u1 > 0 && is_inverse_mod((c - u1) as nat, b as nat, c as nat),
{
    if positive {
        lemma_fundamental_div_mod_converse(u1 * b, c, ka, 1);
        if u1 == c {
            lemma_mod_multiples_basic(b, c);
            assert(c * b == b * c) by (nonlinear_arith);
        }
    } else {
        if u1 == 0 {
            assert(0 * b == 0);
            assert(ka * c != -1) by (nonlinear_arith)
                requires
                    c >= 2,
            ;
        }
        let x = c - u1;
        assert(x * b == (b + ka) * c + 1) by (nonlinear_arith)
            requires
                x == c - u1,
                -(u1 * b) - 1 == ka * c,
        ;
        lemma_fundamental_div_mod_converse(x * b, c, b + ka, 1);
    }
}

/// A number that has a divisor above 1 in common with the modulus has no
/// inverse.
proof fn lemma_no_inverse(b: nat, c: nat, g: int)
    requires
        g >= 2,
        c > 0,
        divides(g, b as int),
        divides(g, c as int),
    ensures
        !has_inverse_mod(b, c),
{
    assert forall|x: nat| !is_inverse_mod(x, b, c) by {
        if is_inverse_mod(x, b, c) {
            let k = ((x * b) / c) as int;
            lemma_fundamental_div_mod((x * b) as int, c as int);
            lemma_fundamental_div_mod(b as int, g);
            lemma_fundamental_div_mod(c as int, g);
            let (bg, cg) = (b as int / g, c as int / g);
            let m = x * bg - k * cg;
            assert(g * m == 1) by (nonlinear_arith)
                requires
                    x * b == c * k + 1,
                    b == g * bg,
                    c == g * cg,
                    m == x * bg - k * cg,
            ;
            assert(false) by (nonlinear_arith)
                requires
                    g * m == 1,
                    g >= 2,
            ;
        }
    }
}

/// A number has at most one inverse.
pub proof fn lemma_inverse_unique(x: nat, y: nat, b: nat, c: nat)
    requires
        is_inverse_mod(x, b, c),
        is_inverse_mod(y, b, c),
    ensures
        x == y,
{
    let ci = c as int;
    lemma_fundamental_div_mod((x * b) as int, ci);
    lemma_fundamental_div_mod((y * b) as int, ci);
    let (j, k) = ((x * b) as int / ci, (y * b) as int / ci);
    // x = x (y b - k c) = y (x b) - x k c = y (j c + 1) - x k c
    assert(x as int == (y * j - x * k) * ci + y) by (nonlinear_arith)
        requires
            x * b == ci * j + 1,
            y * b == ci * k + 1,
    ;
    lemma_fundamental_div_mod_converse(x as int, ci, y * j - x * k, y as int);
    lemma_small_mod(x, c);
}

/// The inverse of `b` modulo `c`, by the extended Euclidean algorithm. The
/// algorithm works on natural numbers only and keeps the sign of the
/// coefficient apart; where the sign is negative at the end, the result is
/// the modulus less the coefficient. There is no inverse where `b` and `c`
/// have a divisor in common, or where `c` is below 2.
pub fn mod_inv(b: &[u8], c: &[u8]) -> (r: Option<Vec<u8>>)
    ensures
        match r {
            Some(x) => is_inverse_mod(be_value(x@), be_value(b@), be_value(c@)),
            None => !has_inverse_mod(be_value(b@), be_value(c@)),
        },
{
    let zero: Vec<u8> = Vec::new();
    let mut one: Vec<u8> = Vec::new();
    one.push(1);
    proof {
        lemma_be_value_push(Seq::<u8>::empty(), 1);
    }
    let ghost bv = be_value(b@) as int;
    let ghost cv = be_value(c@) as int;
    if big_order(c, one.as_slice()) <= 0 {
        return None;
    }
    let mut u1: Vec<u8> = copy_bytes(one.as_slice());
    let mut v1: Vec<u8> = Vec::new();
    let mut u3: Vec<u8> = copy_bytes(b);
    let mut v3: Vec<u8> = copy_bytes(c);
    let mut positive = true;
    let ghost mut ka: int = 0;
    let ghost mut kb: int = -1;
    proof {
        assert(be_value(u1@) == 1 && be_value(v1@) == 0);
        assert(be_value(u1@) * bv == bv && be_value(v1@) * bv == 0) by (nonlinear_arith)
            requires
                be_value(u1@) == 1,
                be_value(v1@) == 0,
        ;
        assert(be_value(u1@) * cv + be_value(v1@) * bv == cv) by (nonlinear_arith)
            requires
                be_value(u1@) == 1,
                be_value(v1@) == 0,
        ;
    }
    while big_order(v3.as_slice(), zero.as_slice()) != 0
        invariant
            cv >= 2,
            bv >= 0,
            bv == be_value(b@),
            cv == be_value(c@),
            be_value(zero@) == 0,
            signed(positive, be_value(u1@) * bv) - be_value(u3@) == ka * cv,
            signed(!positive, be_value(v1@) * bv) - be_value(v3@) == kb * cv,
            be_value(u1@) * be_value(v3@) + be_value(v1@) * be_value(u3@) == cv,
            be_value(u1@) <= cv,
            be_value(v1@) <= cv,
            forall|d: int|
                d > 0 && divides(d, be_value(u3@) as int) && divides(d, be_value(v3@) as int)
                    ==> divides(d, bv) && divides(d, cv),
        decreases be_value(v3@),
    {
        let ghost old_u3 = be_value(u3@) as int;
        let ghost old_v3 = be_value(v3@) as int;
        let (q, t3) = big_div_rem(u3.as_slice(), v3.as_slice());
        let w = big_mul(q.as_slice(), v1.as_slice());
        let t1 = big_add(u1.as_slice(), w.as_slice());
        proof {
            lemma_euclid_step(
                bv,
                cv,
                positive,
                be_value(u1@) as int,
                be_value(v1@) as int,
                old_u3,
                old_v3,
                ka,
                kb,
                be_value(q@) as int,
                be_value(t3@) as int,
                be_value(t1@) as int,
            );
            assert forall|d: int|
                d > 0 && divides(d, old_v3) && divides(d, be_value(t3@) as int) implies divides(
                d,
                bv,
            ) && divides(d, cv) by {
                lemma_divides_dividend(d, old_u3, old_v3);
            }
            let next = ka - be_value(q@) * kb;
            ka = kb;
            kb = next;
        }
        u1 = v1;
        v1 = t1;
        u3 = v3;
        v3 = t3;
        positive = !positive;
    }
    let ghost g = be_value(u3@) as int;
    proof {
        assert(be_value(u1@) * be_value(v3@) == 0) by (nonlinear_arith)
            requires
                be_value(v3@) == 0,
        ;
        assert(g != 0) by (nonlinear_arith)
            requires
                be_value(v1@) * g == cv,
                cv >= 2,
        ;
        assert(divides(g, g)) by {
            vstd::arithmetic::div_mod::lemma_mod_self_0(g);
        }
        assert(divides(g, 0)) by {
            lemma_small_mod(0, g as nat);
        }
    }
    if big_order(u3.as_slice(), one.as_slice()) != 0 {
        proof {
            lemma_no_inverse(bv as nat, cv as nat, g);
        }
        return None;
    }
    proof {
        lemma_inverse_found(bv, cv, positive, be_value(u1@) as int, ka);
    }
    if positive {
        Some(u1)
    } else {
        Some(big_sub(c, u1.as_slice()))
    }
}

/// The byte string of `2^exp`.
fn power_of_two(exp: u32) -> (r: Vec<u8>)
    ensures
        be_value(r@) == npow(2, exp as nat),
{
    let shift = (exp % 8) as u8;
    let top: u8 = 1u8 << shift;
    let count = (exp / 8) as usize;
    let mut out: Vec<u8> = Vec::with_capacity(count + 1);
    out.push(top);
    let mut i: usize = 0;
    while i < count
        invariant
            i <= count,
            out@ == seq![top] + zero_bytes(i as nat),
        decreases count - i,
    {
        out.push(0);
        assert(out@ =~= seq![top] + zero_bytes((i + 1) as nat));
        i += 1;
    }
    proof {
        assert(seq![top] + zero_bytes(0) =~= seq![top]);
        lemma_be_value_concat(seq![top], zero_bytes(count as nat));
        lemma_be_value_zeros(count as nat);
        assert(seq![top] =~= Seq::<u8>::empty().push(top));
        lemma_be_value_push(Seq::<u8>::empty(), top);
        vstd::bits::lemma_u8_pow2_no_overflow(shift as nat);
        vstd::bits::lemma_u8_shl_is_mul(1u8, shift);
        assert(top == npow(2, shift as nat));
        lemma_scales(count as nat);
        lemma_npow_adds(2, shift as nat, 8 * (count as nat));
        assert(shift + 8 * count == exp);
    }
    out
}

/// Two primes for a modulus of the bit length asked for, from
/// `RsaPrivateKey::new` of the `rsa` crate with the thread's random number
/// generator: the primes of the key that it makes. What the primes are
/// depends on chance, so the contract says nothing of them: only that a
/// failure is reported as `Key`.
#[verifier::external_body]
fn generate_primes(proto_key: &RSAProtoKey) -> (r: Result<(Vec<u8>, Vec<u8>), RSAError>)
    requires
        bits_supported(proto_key.bits as nat),
    ensures
        r matches Err(e) ==> e == RSAError::Key,
{
    match RsaPrivateKey::new(&mut thread_rng(), proto_key.bits as usize) {
        Err(_) => Err(RSAError::Key),
        Ok(key) => Ok((key.primes()[0].to_bytes_be(), key.primes()[1].to_bytes_be())),
    }
}

/// The key pair of the bit length and the public exponent asked for, made
/// of two numbers that are taken as its primes. The larger becomes the
/// first prime. No key is made, and the reason is given, where the bit
/// length is not supported, where one of the numbers is below 2, where
/// their product has not the bit length asked for, or where one of the
/// inverses does not exist.
pub fn key_from_primes(proto_key: &RSAProtoKey, first: &[u8], second: &[u8]) -> (r: Result<
    (RSAPublicKey, RSAPrivateKey),
    RSAError,
>)
    ensures
        match r {
            Ok((public_key, private_key)) => {
                &&& key_failure(
                    proto_key.bits as nat,
                    public_exponent_of(*proto_key),
                    larger(be_value(first@), be_value(second@)),
                    smaller(be_value(first@), be_value(second@)),
                ) is None
                &&& key_of_primes(
                    private_key@,
                    proto_key.bits as nat,
                    public_exponent_of(*proto_key),
                    larger(be_value(first@), be_value(second@)),
                    smaller(be_value(first@), be_value(second@)),
                )
                &&& public_key@ == public_part(private_key@)
            },
            Err(e) => key_failure(
                proto_key.bits as nat,
                public_exponent_of(*proto_key),
                larger(be_value(first@), be_value(second@)),
                smaller(be_value(first@), be_value(second@)),
            ) == Some(e),
        },
{
    let bits = proto_key.bits;
    if (bits as usize) < MIN_RSA_MODULUS_BITS || (bits as usize) > MAX_RSA_MODULUS_BITS {
        return Err(RSAError::ModulusLen);
    }
    let mut e: Vec<u8> = Vec::new();
    if proto_key.use_fermat4 {
        e.push(1);
        e.push(0);
        e.push(1);
    } else {
        e.push(3);
    }
    let mut one: Vec<u8> = Vec::new();
    one.push(1);
    let mut two: Vec<u8> = Vec::new();
    two.push(2);
    proof {
        let none = Seq::<u8>::empty();
        lemma_be_value_push(none, 1);
        lemma_be_value_push(none, 2);
        lemma_be_value_push(none, 3);
        lemma_be_value_push(none.push(1), 0);
        lemma_be_value_push(none.push(1).push(0), 1);
    }
    /* The larger of the two is p. */
    let first_is_larger = big_order(first, second) > 0;
    let p = if first_is_larger {
        first
    } else {
        second
    };
    let q = if first_is_larger {
        second
    } else {
        first
    };
    let ghost pv = be_value(p@);
    let ghost qv = be_value(q@);
    if big_order(q, two.as_slice()) < 0 {
        return Err(RSAError::Key);
    }
    /* n = pq, which must have the bit length asked for. */
    let n = big_mul(p, q);
    let low = power_of_two(bits - 1);
    let high = power_of_two(bits);
    if big_order(n.as_slice(), low.as_slice()) < 0 || big_order(n.as_slice(), high.as_slice())
        >= 0 {
        return Err(RSAError::ModulusLen);
    }
    /* qInv = q^{-1} mod p, d = e^{-1} mod (p-1)(q-1), dP = d mod p-1, dQ = d mod q-1. */
    let q_inv = match mod_inv(q, p) {
        None => {
            return Err(RSAError::Key);
        },
        Some(x) => x,
    };
    let p_minus_1 = big_sub(p, one.as_slice());
    let q_minus_1 = big_sub(q, one.as_slice());
    let phi_n = big_mul(p_minus_1.as_slice(), q_minus_1.as_slice());
    let d = match mod_inv(e.as_slice(), phi_n.as_slice()) {
        None => {
            return Err(RSAError::Key);
        },
        Some(x) => x,
    };
    let (_, dp) = big_div_rem(d.as_slice(), p_minus_1.as_slice());
    let (_, dq) = big_div_rem(d.as_slice(), q_minus_1.as_slice());
    proof {
        if pv == qv {
            lemma_mod_multiples_basic(be_value(q_inv@) as int, pv as int);
        }
    }
    let private_key = RSAPrivateKey::from_components(
        bits,
        n,
        e,
        d,
        copy_bytes(p),
        copy_bytes(q),
        dp,
        dq,
        q_inv,
    );
    Ok((private_key.public_key(), private_key))
}

/// A new key pair of the bit length and the public exponent asked for.
/// A bit length that is not supported fails with `ModulusLen`, before any
/// prime is asked for. Where no primes can be had, or no key can be made of
/// them, the failure is `Key` or `ModulusLen`. A key pair that is made is a
/// key of its two primes.
pub fn generate_pem_keys(proto_key: &RSAProtoKey) -> (r: Result<
    (RSAPublicKey, RSAPrivateKey),
    RSAError,
>)
    ensures
        !bits_supported(proto_key.bits as nat) ==> r is Err && r->Err_0 == RSAError::ModulusLen,
        match r {
            Ok((public_key, private_key)) => {
                &&& bits_supported(proto_key.bits as nat)
                &&& key_of_primes(
                    private_key@,
                    proto_key.bits as nat,
                    public_exponent_of(*proto_key),
                    private_key@.prime0,
                    private_key@.prime1,
                )
                &&& public_key@ == public_part(private_key@)
            },
            Err(e) => e == RSAError::ModulusLen || e == RSAError::Key,
        },
{
    let bits = proto_key.bits;
    if (bits as usize) < MIN_RSA_MODULUS_BITS || (bits as usize) > MAX_RSA_MODULUS_BITS {
        return Err(RSAError::ModulusLen);
    }
    match generate_primes(proto_key) {
        Err(e) => Err(e),
        Ok((first, second)) => key_from_primes(proto_key, first.as_slice(), second.as_slice()),
    }
}

} // verus!
