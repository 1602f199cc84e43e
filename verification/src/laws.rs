//! What holds of a key that is made of two odd primes: the transform by
//! the Chinese Remainder Theorem is the exponentiation with the private
//! exponent, the two block transforms undo each other, and what one key
//! of a pair encrypts the other decrypts.

use vstd::prelude::*;
use vstd::arithmetic::div_mod::{
    lemma_fundamental_div_mod, lemma_fundamental_div_mod_converse, lemma_mod_bound,
    lemma_mod_mod, lemma_mod_twice, lemma_small_mod,
};
use vstd::arithmetic::power::{lemma_pow1, lemma_pow_mod_noop, lemma_pow_multiplies, pow};
use crate::RSAError;
use crate::pkcs1::{
    draw_filler, lemma_drawn_filler, lemma_unpad_type1, lemma_unpad_type2, type1_block,
    type2_block, PADDING_OVERHEAD,
};
use crate::r_keygen::{bits_supported, has_bit_length, key_of_primes};
use crate::r_random::{GeneratorState, RandomStruct};
use crate::radix::{
    be_bytes, be_value, byte_pow, lemma_be_bytes_of_value, lemma_be_bytes_value,
    lemma_be_value_bound, lemma_be_value_concat, lemma_be_value_push, lemma_npow_increases,
    lemma_scales,
};
use crate::rsa::{
    crt_value, first_chunk, modulus_len, plain_chunk_len, private_decrypt,
    private_decrypt_block, private_encrypt, private_encrypt_block, public_decrypt,
    public_decrypt_block, public_encrypt, public_encrypt_block, public_part, PrivateKeyValue,
    RSAPrivateKey,
};
use crate::theory::{is_prime, lemma_pow_same_exponent_class, lemma_same_remainders};

verus! {

/// A private key of a supported bit length that is the key of its two
/// primes, which are prime, and odd.
pub open spec fn sound_key(k: PrivateKeyValue) -> bool {
    &&& bits_supported(k.bits)
    &&& key_of_primes(k, k.bits, k.public_exponent, k.prime0, k.prime1)
    &&& is_prime(k.prime0)
    &&& is_prime(k.prime1)
    &&& k.prime1 > 2
}

/// The exponents of a sound key: none is zero, and the product of the
/// public and the private exponent leaves the remainder 1 by `p - 1` and
/// by `q - 1`.
proof fn lemma_exponents(k: PrivateKeyValue)
    requires
        sound_key(k),
    ensures
        k.exponent >= 1,
        k.public_exponent >= 1,
        k.prime_exponent0 >= 1,
        k.prime_exponent1 >= 1,
        (k.exponent * k.public_exponent) % ((k.prime0 - 1) as nat) == 1,
        (k.exponent * k.public_exponent) % ((k.prime1 - 1) as nat) == 1,
        k.prime_exponent0 % ((k.prime0 - 1) as nat) == k.exponent % ((k.prime0 - 1) as nat),
        k.prime_exponent1 % ((k.prime1 - 1) as nat) == k.exponent % ((k.prime1 - 1) as nat),
{
    let (d, e) = (k.exponent as int, k.public_exponent as int);
    let (p_less, q_less) = (k.prime0 - 1, k.prime1 - 1);
    let phi = p_less * q_less;
    assert(phi >= 2) by (nonlinear_arith)
        requires
            p_less >= 2,
            q_less >= 2,
            phi == p_less * q_less,
    ;
    lemma_fundamental_div_mod(d * e, phi);
    let t = (d * e) / phi;
    assert(d * e == (q_less * t) * p_less + 1 && d * e == (p_less * t) * q_less + 1) by (nonlinear_arith)
        requires
            d * e == phi * t + 1,
            phi == p_less * q_less,
    ;
    lemma_fundamental_div_mod_converse(d * e, p_less, q_less * t, 1);
    lemma_fundamental_div_mod_converse(d * e, q_less, p_less * t, 1);
    lemma_mod_twice(d, p_less);
    lemma_mod_twice(d, q_less);
    if d == 0 || e == 0 {
        assert(d * e == 0) by (nonlinear_arith)
            requires
                d == 0 || e == 0,
        ;
        lemma_small_mod(0, phi as nat);
    }
    if d % p_less == 0 {
        lemma_fundamental_div_mod(d, p_less);
        let j = d / p_less;
        assert(d * e == (j * e) * p_less + 0) by (nonlinear_arith)
            requires
                d == p_less * j,
        ;
        lemma_fundamental_div_mod_converse(d * e, p_less, j * e, 0);
    }
    if d % q_less == 0 {
        lemma_fundamental_div_mod(d, q_less);
        let j = d / q_less;
        assert(d * e == (j * e) * q_less + 0) by (nonlinear_arith)
            requires
                d == q_less * j,
        ;
        lemma_fundamental_div_mod_converse(d * e, q_less, j * e, 0);
    }
}

/// What the Chinese Remainder Theorem puts together of a remainder by `p`
/// and a remainder by `q` is below `p q` and leaves these remainders.
proof fn lemma_crt_remainders(p: int, q: int, m_p: int, m_q: int, coefficient: int)
    requires
        p >= 2,
        q >= 2,
        0 <= m_p < p,
        0 <= m_q < q,
        0 <= coefficient,
        (coefficient * q) % p == 1,
    ensures
        ({
            let h = (((m_p - m_q) % p) * coefficient) % p;
            let m = h * q + m_q;
            &&& 0 <= m < p * q
            &&& m % p == m_p
            &&& m % q == m_q
        }),
{
    let difference = (m_p - m_q) % p;
    let h = (difference * coefficient) % p;
    let m = h * q + m_q;
    lemma_fundamental_div_mod(m_p - m_q, p);
    lemma_fundamental_div_mod(difference * coefficient, p);
    lemma_fundamental_div_mod(coefficient * q, p);
    lemma_mod_bound(difference * coefficient, p);
    let k0 = (m_p - m_q) / p;
    let k1 = (difference * coefficient) / p;
    let k2 = (coefficient * q) / p;
    let factor = difference * k2 - k1 * q - k0;
    assert(m == factor * p + m_p) by (nonlinear_arith)
        requires
            m == h * q + m_q,
            m_p - m_q == p * k0 + difference,
            difference * coefficient == p * k1 + h,
            coefficient * q == p * k2 + 1,
            factor == difference * k2 - k1 * q - k0,
    ;
    lemma_fundamental_div_mod_converse(m, p, factor, m_p);
    lemma_fundamental_div_mod_converse(m, q, h, m_q);
    assert(0 <= h * q && h * q + q <= p * q) by (nonlinear_arith)
        requires
            0 <= h < p,
            q >= 2,
    ;
}

/// With a sound key, the transform by the Chinese Remainder Theorem is the
/// exponentiation with the private exponent modulo the modulus.
pub proof fn lemma_crt_is_exponentiation(k: PrivateKeyValue, c: nat)
    requires
        sound_key(k),
        c < k.modulus,
    ensures
        crt_value(k, c) == pow(c as int, k.exponent) % (k.modulus as int),
        0 <= crt_value(k, c) < k.modulus,
{
    let (p, q, n) = (k.prime0 as int, k.prime1 as int, k.modulus as int);
    let ci = c as int;
    let m_p = pow(ci % p, k.prime_exponent0) % p;
    let m_q = pow(ci % q, k.prime_exponent1) % q;
    let direct = pow(ci, k.exponent) % n;
    lemma_exponents(k);
    // each half is the exponentiation with the private exponent modulo its prime
    lemma_pow_mod_noop(ci, k.prime_exponent0, p);
    lemma_pow_mod_noop(ci, k.prime_exponent1, q);
    lemma_pow_same_exponent_class(ci, k.prime0, k.prime_exponent0, k.exponent);
    lemma_pow_same_exponent_class(ci, k.prime1, k.prime_exponent1, k.exponent);
    lemma_mod_bound(pow(ci % p, k.prime_exponent0), p);
    lemma_mod_bound(pow(ci % q, k.prime_exponent1), q);
    assert(((k.coefficient * k.prime1) % k.prime0) as int == ((k.coefficient as int) * q) % p);
    lemma_crt_remainders(p, q, m_p, m_q, k.coefficient as int);
    // so is the exponentiation modulo the modulus
    assert(n == p * q && n == q * p) by (nonlinear_arith)
        requires
            n == p * q,
    ;
    lemma_mod_mod(pow(ci, k.exponent), p, q);
    lemma_mod_mod(pow(ci, k.exponent), q, p);
    lemma_mod_bound(pow(ci, k.exponent), n);
    let joined = crt_value(k, c);
    if joined >= direct {
        lemma_same_remainders(k.prime0, k.prime1, joined, direct);
    } else {
        lemma_same_remainders(k.prime0, k.prime1, direct, joined);
    }
}

/// With a sound key, a number below the modulus raised to the product of
/// the two exponents is that number again, modulo the modulus.
proof fn lemma_exponent_product(k: PrivateKeyValue, x: nat)
    requires
        sound_key(k),
        x < k.modulus,
    ensures
        pow(x as int, k.exponent * k.public_exponent) % (k.modulus as int) == x,
{
    let (p, q, n) = (k.prime0 as int, k.prime1 as int, k.modulus as int);
    let xi = x as int;
    let both = k.exponent * k.public_exponent;
    lemma_exponents(k);
    assert(both >= 1) by (nonlinear_arith)
        requires
            k.exponent >= 1,
            k.public_exponent >= 1,
            both == k.exponent * k.public_exponent,
    ;
    lemma_small_mod(1, (k.prime0 - 1) as nat);
    lemma_small_mod(1, (k.prime1 - 1) as nat);
    lemma_pow_same_exponent_class(xi, k.prime0, both, 1);
    lemma_pow_same_exponent_class(xi, k.prime1, both, 1);
    lemma_pow1(xi);
    let power = pow(xi, both) % n;
    assert(n == p * q && n == q * p) by (nonlinear_arith)
        requires
            n == p * q,
    ;
    lemma_mod_mod(pow(xi, both), p, q);
    lemma_mod_mod(pow(xi, both), q, p);
    lemma_mod_bound(pow(xi, both), n);
    if power >= xi {
        lemma_same_remainders(k.prime0, k.prime1, power, xi);
    } else {
        lemma_same_remainders(k.prime0, k.prime1, xi, power);
    }
}

/// With a sound key, the public transform undoes the private one, and the
/// private transform the public one.
pub proof fn lemma_transforms_invert(k: PrivateKeyValue, x: nat)
    requires
        sound_key(k),
        x < k.modulus,
    ensures
        pow(pow(x as int, k.exponent) % (k.modulus as int), k.public_exponent) % (
        k.modulus as int) == x,
        pow(pow(x as int, k.public_exponent) % (k.modulus as int), k.exponent) % (
        k.modulus as int) == x,
{
    let n = k.modulus as int;
    let xi = x as int;
    lemma_exponent_product(k, x);
    lemma_pow_mod_noop(pow(xi, k.exponent), k.public_exponent, n);
    lemma_pow_mod_noop(pow(xi, k.public_exponent), k.exponent, n);
    lemma_pow_multiplies(xi, k.exponent, k.public_exponent);
    lemma_pow_multiplies(xi, k.public_exponent, k.exponent);
    assert(k.exponent * k.public_exponent == k.public_exponent * k.exponent)
        by (nonlinear_arith);
}

/// With a modulus of `bits` bits, a block of the modulus length that
/// starts with a zero byte stands for a number below the modulus, and a
/// number below the modulus is written in that length without loss.
proof fn lemma_block_fits(n: nat, bits: nat, block: Seq<u8>)
    requires
        has_bit_length(n, bits),
        block.len() == modulus_len(bits),
        block[0] == 0,
    ensures
        be_value(block) < n,
        forall|y: nat| y < n ==> be_value(#[trigger] be_bytes(y, modulus_len(bits))) == y,
{
    let len = modulus_len(bits);
    let rest = block.skip(1);
    assert(block =~= seq![0u8] + rest);
    lemma_be_value_concat(seq![0u8], rest);
    assert(seq![0u8] =~= Seq::<u8>::empty().push(0u8));
    lemma_be_value_push(Seq::<u8>::empty(), 0);
    assert(0 * byte_pow(rest.len()) == 0);
    lemma_be_value_bound(rest);
    lemma_scales((len - 1) as nat);
    lemma_scales(len);
    lemma_npow_increases(2, (8 * (len - 1)) as nat, (bits - 1) as nat);
    lemma_npow_increases(2, bits, 8 * len);
    assert forall|y: nat| y < n implies be_value(#[trigger] be_bytes(y, len)) == y by {
        lemma_be_bytes_value(y, len);
        lemma_small_mod(y, byte_pow(len));
    }
}

/// With a sound key, what the private key encrypts in one block, the
/// public key decrypts to the same payload.
pub proof fn lemma_private_block_round_trip(k: PrivateKeyValue, payload: Seq<u8>)
    requires
        sound_key(k),
        payload.len() + PADDING_OVERHEAD <= modulus_len(k.bits),
    ensures
        private_encrypt_block(k, payload) is Ok,
        private_encrypt_block(k, payload)->Ok_0.len() == modulus_len(k.bits),
        public_decrypt_block(public_part(k), private_encrypt_block(k, payload)->Ok_0) == Ok::<
            Seq<u8>,
            RSAError,
        >(payload),
{
    let len = modulus_len(k.bits);
    let block = type1_block(payload, len);
    let c = be_value(block);
    lemma_unpad_type1(payload, len);
    lemma_block_fits(k.modulus, k.bits, block);
    lemma_crt_is_exponentiation(k, c);
    lemma_transforms_invert(k, c);
    let y = crt_value(k, c) as nat;
    let cipher = be_bytes(y, len);
    assert(be_value(cipher) == y);
    lemma_be_bytes_of_value(block);
}

/// With a sound key, what the public key encrypts in one block, the
/// private key decrypts to the same payload.
pub proof fn lemma_public_block_round_trip(
    k: PrivateKeyValue,
    g: GeneratorState,
    payload: Seq<u8>,
)
    requires
        sound_key(k),
        public_encrypt_block(public_part(k), g, payload).0 is Ok,
    ensures
        public_encrypt_block(public_part(k), g, payload).0->Ok_0.len() == modulus_len(k.bits),
        private_decrypt_block(k, public_encrypt_block(public_part(k), g, payload).0->Ok_0)
            == Ok::<Seq<u8>, RSAError>(payload),
{
    let len = modulus_len(k.bits);
    let count = (len - payload.len() - 3) as nat;
    lemma_drawn_filler(g, count);
    let filler = draw_filler(g, count).0->Ok_0;
    let block = type2_block(filler, payload);
    let c = be_value(block);
    lemma_unpad_type2(filler, payload);
    lemma_block_fits(k.modulus, k.bits, block);
    lemma_transforms_invert(k, c);
    let y = (pow(c as int, k.public_exponent) % (k.modulus as int)) as nat;
    lemma_mod_bound(pow(c as int, k.public_exponent), k.modulus as int);
    let cipher = be_bytes(y, len);
    assert(be_value(cipher) == y);
    lemma_crt_is_exponentiation(k, y);
    lemma_be_bytes_of_value(block);
}

/// With a sound key, a message of any length that the private key
/// encrypts, the public key decrypts to the same message.
pub proof fn lemma_private_encrypt_round_trip(k: PrivateKeyValue, message: Seq<u8>)
    requires
        sound_key(k),
    ensures
        private_encrypt(k, message) is Ok,
        public_decrypt(public_part(k), private_encrypt(k, message)->Ok_0) == Ok::<
            Seq<u8>,
            RSAError,
        >(message),
    decreases message.len(),
{
    let len = modulus_len(k.bits);
    let chunk = plain_chunk_len(k.bits);
    if message.len() == 0 {
        assert(message =~= Seq::<u8>::empty());
    } else {
        let n = first_chunk(message.len(), chunk);
        let (piece, rest) = (message.take(n), message.skip(n));
        lemma_private_block_round_trip(k, piece);
        lemma_private_encrypt_round_trip(k, rest);
        let first = private_encrypt_block(k, piece)->Ok_0;
        let others = private_encrypt(k, rest)->Ok_0;
        let cipher = first + others;
        assert(private_encrypt(k, message) == Ok::<Seq<u8>, RSAError>(cipher));
        assert(cipher.take(len as int) =~= first);
        assert(cipher.skip(len as int) =~= others);
        assert(piece + rest =~= message);
    }
}

/// With a sound key, a message of any length that the public key
/// encrypts, the private key decrypts to the same message.
pub proof fn lemma_public_encrypt_round_trip(
    k: PrivateKeyValue,
    g: GeneratorState,
    message: Seq<u8>,
)
    requires
        sound_key(k),
        public_encrypt(public_part(k), g, message).0 is Ok,
    ensures
        private_decrypt(k, public_encrypt(public_part(k), g, message).0->Ok_0) == Ok::<
            Seq<u8>,
            RSAError,
        >(message),
    decreases message.len(),
{
    let len = modulus_len(k.bits);
    let chunk = plain_chunk_len(k.bits);
    let public_key = public_part(k);
    if message.len() == 0 {
        assert(message =~= Seq::<u8>::empty());
    } else {
        let n = first_chunk(message.len(), chunk);
        let (piece, rest) = (message.take(n), message.skip(n));
        let next = public_encrypt_block(public_key, g, piece).1;
        lemma_public_block_round_trip(k, g, piece);
        lemma_public_encrypt_round_trip(k, next, rest);
        let first = public_encrypt_block(public_key, g, piece).0->Ok_0;
        let others = public_encrypt(public_key, next, rest).0->Ok_0;
        let cipher = first + others;
        assert(public_encrypt(public_key, g, message).0 == Ok::<Seq<u8>, RSAError>(cipher));
        assert(cipher.take(len as int) =~= first);
        assert(cipher.skip(len as int) =~= others);
        assert(piece + rest =~= message);
    }
}

/// Encrypts `message` with the public part of `private_key` and decrypts
/// what came of it. With a sound key the message comes back. Where the
/// encryption fails, its failure is handed on and nothing is decrypted.
pub fn encrypt_then_decrypt(
    private_key: &RSAPrivateKey,
    message: &[u8],
    random_struct: &mut RandomStruct,
) -> (r: Result<Vec<u8>, RSAError>)
    requires
        sound_key(private_key@),
    ensures
        final(random_struct)@ == public_encrypt(
            public_part(private_key@),
            old(random_struct)@,
            message@,
        ).1,
        match r {
            Ok(plain) => public_encrypt(
                public_part(private_key@),
                old(random_struct)@,
                message@,
            ).0 is Ok && plain@ == message@,
            Err(e) => public_encrypt(public_part(private_key@), old(random_struct)@, message@).0
                == Err::<Seq<u8>, RSAError>(e),
        },
{
    let public_key = private_key.public_key();
    match public_key.encrypt(message, random_struct) {
        Err(e) => Err(e),
        Ok(cipher) => {
            proof {
                lemma_public_encrypt_round_trip(private_key@, old(random_struct)@, message@);
            }
            private_key.decrypt(cipher.as_slice())
        },
    }
}

} // verus!
