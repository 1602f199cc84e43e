//! RSA keys and the operations on them: the block transforms, the padded
//! single-block operations, the operations on messages of any length, and
//! the fixed-width binary layout of keys.
//!
//! A message of any length is cut into chunks, and each chunk is padded and
//! transformed by itself; the output is the concatenation in input order.

use vstd::prelude::*;
use vstd::arithmetic::power::pow;
use vstd::arithmetic::div_mod::{
    lemma_fundamental_div_mod, lemma_mod_bound, lemma_mod_multiples_vanish, lemma_small_mod,
};
use vstd::slice::slice_subrange;
use crate::RSAError;
use crate::big::{big_add, big_mod_floor, big_modpow, big_mul, big_order, big_sub};
use crate::pkcs1::{
    append_bytes, pad_type1, pad_type2, type1_block, type2_padding, unpad, unpadded,
    PADDING_OVERHEAD,
};
use crate::r_random::{GeneratorState, RandomStruct};
use crate::radix::{
    be_bytes, be_value, byte_pow, le_byte_value, le_bytes, lemma_be_bytes_low, lemma_be_bytes_pad,
    lemma_be_bytes_value, lemma_le_byte_value_push, lemma_le_bytes_of_value, lemma_npow,
    zero_bytes,
};

verus! {

/// The least modulus bit length that key generation accepts.
pub const MIN_RSA_MODULUS_BITS: usize = 508;

/// The greatest modulus bit length that key generation accepts.
pub const MAX_RSA_MODULUS_BITS: usize = 1024;

/// The width of a modulus or an exponent in an encoded key.
pub const MAX_RSA_MODULUS_LEN: usize = 128;

/// The width of a prime, a prime exponent or the coefficient in an encoded key.
pub const MAX_RSA_PRIME_LEN: usize = 64;

/// The length of an encoded public key.
pub const PUBLIC_KEY_LEN: usize = 260;

/// The length of an encoded private key.
pub const PRIVATE_KEY_LEN: usize = 708;

/// A public key: the bit length of the modulus, the modulus, and the
/// public exponent.
#[derive(Debug)]
pub struct RSAPublicKey {
    bits: u32,
    modulus: Vec<u8>,
    exponent: Vec<u8>,
}

/// A private key: what the public key holds, the private exponent, the
/// two primes, the private exponent reduced for each prime, and the
/// inverse of the second prime modulo the first.
#[derive(Debug)]
pub struct RSAPrivateKey {
    bits: u32,
    modulus: Vec<u8>,
    public_exponent: Vec<u8>,
    exponent: Vec<u8>,
    prime0: Vec<u8>,
    prime1: Vec<u8>,
    prime_exponent0: Vec<u8>,
    prime_exponent1: Vec<u8>,
    coefficient: Vec<u8>,
}

/// What key generation is asked for.
pub struct RSAProtoKey {
    /// The bit length of the modulus.
    pub bits: u32,
    /// Whether the public exponent is 65537; it is 3 otherwise.
    pub use_fermat4: bool,
}

/// The numbers of a public key.
pub struct PublicKeyValue {
    pub bits: nat,
    pub modulus: nat,
    pub exponent: nat,
}

/// The numbers of a private key.
pub struct PrivateKeyValue {
    pub bits: nat,
    pub modulus: nat,
    pub public_exponent: nat,
    pub exponent: nat,
    pub prime0: nat,
    pub prime1: nat,
    pub prime_exponent0: nat,
    pub prime_exponent1: nat,
    pub coefficient: nat,
}

impl View for RSAPublicKey {
    type V = PublicKeyValue;

    closed spec fn view(&self) -> PublicKeyValue {
        PublicKeyValue {
            bits: self.bits as nat,
            modulus: be_value(self.modulus@),
            exponent: be_value(self.exponent@),
        }
    }
}

impl View for RSAPrivateKey {
    type V = PrivateKeyValue;

    closed spec fn view(&self) -> PrivateKeyValue {
        PrivateKeyValue {
            bits: self.bits as nat,
            modulus: be_value(self.modulus@),
            public_exponent: be_value(self.public_exponent@),
            exponent: be_value(self.exponent@),
            prime0: be_value(self.prime0@),
            prime1: be_value(self.prime1@),
            prime_exponent0: be_value(self.prime_exponent0@),
            prime_exponent1: be_value(self.prime_exponent1@),
            coefficient: be_value(self.coefficient@),
        }
    }
}

/// The public key that belongs to a private key.
pub open spec fn public_part(k: PrivateKeyValue) -> PublicKeyValue {
    PublicKeyValue { bits: k.bits, modulus: k.modulus, exponent: k.public_exponent }
}

/// The number of bytes of a modulus of `bits` bits.
pub open spec fn modulus_len(bits: nat) -> nat {
    (bits + 7) / 8
}

/// The number of payload bytes that one block holds: the modulus length
/// less the padding.
pub open spec fn plain_chunk_len(bits: nat) -> nat {
    if modulus_len(bits) >= PADDING_OVERHEAD {
        (modulus_len(bits) - PADDING_OVERHEAD) as nat
    } else {
        0
    }
}

/// What an operation returns, with the bytes as a sequence.
pub open spec fn result_view(r: Result<Vec<u8>, RSAError>) -> Result<Seq<u8>, RSAError> {
    match r {
        Ok(bytes) => Ok(bytes@),
        Err(e) => Err(e),
    }
}

/// The result `r` with `prefix` in front of its bytes.
pub open spec fn prepend(prefix: Seq<u8>, r: Result<Seq<u8>, RSAError>) -> Result<
    Seq<u8>,
    RSAError,
> {
    match r {
        Ok(bytes) => Ok(prefix + bytes),
        Err(e) => Err(e),
    }
}

/// The public block transform: the input, read as a number below the
/// modulus, raised to the public exponent modulo the modulus.
pub open spec fn public_block(k: PublicKeyValue, input: Seq<u8>) -> Result<Seq<u8>, RSAError> {
    let m = be_value(input);
    if m >= k.modulus {
        Err(RSAError::Data)
    } else {
        Ok(be_bytes((pow(m as int, k.exponent) % (k.modulus as int)) as nat, modulus_len(k.bits)))
    }
}

/// The private transform of `c` by the Chinese Remainder Theorem: two
/// exponentiations, one modulo each prime, joined with the coefficient.
pub open spec fn crt_value(k: PrivateKeyValue, c: nat) -> int {
    let p = k.prime0 as int;
    let q = k.prime1 as int;
    let m_p = pow((c as int) % p, k.prime_exponent0) % p;
    let m_q = pow((c as int) % q, k.prime_exponent1) % q;
    let h = (((m_p - m_q) % p) * k.coefficient) % p;
    h * q + m_q
}

/// The private block transform: the input, read as a number below the
/// modulus, transformed by the Chinese Remainder Theorem. A key with a
/// prime that is zero cannot transform anything.
pub open spec fn private_block(k: PrivateKeyValue, input: Seq<u8>) -> Result<Seq<u8>, RSAError> {
    let c = be_value(input);
    if c >= k.modulus {
        Err(RSAError::Data)
    } else if k.prime0 == 0 || k.prime1 == 0 {
        Err(RSAError::Key)
    } else {
        Ok(be_bytes(crt_value(k, c) as nat, modulus_len(k.bits)))
    }
}

/// One chunk encrypted with the public key: padded to a block of type 2
/// with filler bytes from the generator, then transformed.
pub open spec fn public_encrypt_block(k: PublicKeyValue, g: GeneratorState, input: Seq<u8>) -> (
    Result<Seq<u8>, RSAError>,
    GeneratorState,
) {
    match type2_padding(g, input, modulus_len(k.bits)) {
        (Err(e), next) => (Err(e), next),
        (Ok(block), next) => (public_block(k, block), next),
    }
}

/// One block decrypted with the public key: transformed, then taken out
/// of its padding of type 1.
pub open spec fn public_decrypt_block(k: PublicKeyValue, input: Seq<u8>) -> Result<
    Seq<u8>,
    RSAError,
> {
    if input.len() > modulus_len(k.bits) {
        Err(RSAError::Len)
    } else {
        match public_block(k, input) {
            Err(e) => Err(e),
            Ok(block) => match unpadded(block, 1) {
                None => Err(RSAError::Data),
                Some(payload) => Ok(payload),
            },
        }
    }
}

/// One chunk encrypted with the private key: padded to a block of type 1,
/// then transformed.
pub open spec fn private_encrypt_block(k: PrivateKeyValue, input: Seq<u8>) -> Result<
    Seq<u8>,
    RSAError,
> {
    if input.len() + PADDING_OVERHEAD > modulus_len(k.bits) {
        Err(RSAError::Len)
    } else {
        private_block(k, type1_block(input, modulus_len(k.bits)))
    }
}

/// One block decrypted with the private key: transformed, then taken out
/// of its padding of type 2.
pub open spec fn private_decrypt_block(k: PrivateKeyValue, input: Seq<u8>) -> Result<
    Seq<u8>,
    RSAError,
> {
    if input.len() > modulus_len(k.bits) {
        Err(RSAError::Len)
    } else {
        match private_block(k, input) {
            Err(e) => Err(e),
            Ok(block) => match unpadded(block, 2) {
                None => Err(RSAError::Data),
                Some(payload) => Ok(payload),
            },
        }
    }
}

/// The length of the first chunk of `len` bytes cut into chunks of `chunk`.
pub open spec fn first_chunk(len: nat, chunk: nat) -> int {
    if len < chunk {
        len as int
    } else {
        chunk as int
    }
}

/// A message encrypted with the public key, chunk by chunk, and the
/// generator after it. The first chunk that fails ends the operation.
pub open spec fn public_encrypt(k: PublicKeyValue, g: GeneratorState, input: Seq<u8>) -> (
    Result<Seq<u8>, RSAError>,
    GeneratorState,
)
    decreases input.len(),
{
    let chunk = plain_chunk_len(k.bits);
    if input.len() == 0 {
        (Ok(Seq::empty()), g)
    } else if chunk == 0 {
        (Err(RSAError::Len), g)
    } else {
        let n = first_chunk(input.len(), chunk);
        match public_encrypt_block(k, g, input.take(n)) {
            (Err(e), next) => (Err(e), next),
            (Ok(first), next) => (
                prepend(first, public_encrypt(k, next, input.skip(n)).0),
                public_encrypt(k, next, input.skip(n)).1,
            ),
        }
    }
}

/// A message decrypted with the public key, block by block.
pub open spec fn public_decrypt(k: PublicKeyValue, input: Seq<u8>) -> Result<Seq<u8>, RSAError>
    decreases input.len(),
{
    let chunk = modulus_len(k.bits);
    if input.len() == 0 {
        Ok(Seq::empty())
    } else if chunk == 0 {
        Err(RSAError::Len)
    } else {
        let n = first_chunk(input.len(), chunk);
        match public_decrypt_block(k, input.take(n)) {
            Err(e) => Err(e),
            Ok(first) => prepend(first, public_decrypt(k, input.skip(n))),
        }
    }
}

/// A message encrypted with the private key, chunk by chunk.
pub open spec fn private_encrypt(k: PrivateKeyValue, input: Seq<u8>) -> Result<Seq<u8>, RSAError>
    decreases input.len(),
{
    let chunk = plain_chunk_len(k.bits);
    if input.len() == 0 {
        Ok(Seq::empty())
    } else if chunk == 0 {
        Err(RSAError::Len)
    } else {
        let n = first_chunk(input.len(), chunk);
        match private_encrypt_block(k, input.take(n)) {
            Err(e) => Err(e),
            Ok(first) => prepend(first, private_encrypt(k, input.skip(n))),
        }
    }
}

/// A message decrypted with the private key, block by block.
pub open spec fn private_decrypt(k: PrivateKeyValue, input: Seq<u8>) -> Result<Seq<u8>, RSAError>
    decreases input.len(),
{
    let chunk = modulus_len(k.bits);
    if input.len() == 0 {
        Ok(Seq::empty())
    } else if chunk == 0 {
        Err(RSAError::Len)
    } else {
        let n = first_chunk(input.len(), chunk);
        match private_decrypt_block(k, input.take(n)) {
            Err(e) => Err(e),
            Ok(first) => prepend(first, private_decrypt(k, input.skip(n))),
        }
    }
}

/// The encoding of a public key: the bit length in four bytes, least
/// significant first, then the modulus and the exponent, each big-endian
/// at the full modulus width.
pub open spec fn public_key_encoding(k: PublicKeyValue) -> Seq<u8> {
    le_bytes(k.bits, 4) + be_bytes(k.modulus, MAX_RSA_MODULUS_LEN as nat) + be_bytes(
        k.exponent,
        MAX_RSA_MODULUS_LEN as nat,
    )
}

/// The public key that the first 260 bytes of `data` encode.
pub open spec fn public_key_decoding(data: Seq<u8>) -> PublicKeyValue {
    PublicKeyValue {
        bits: le_byte_value(data.subrange(0, 4)),
        modulus: be_value(data.subrange(4, 132)),
        exponent: be_value(data.subrange(132, 260)),
    }
}

/// The encoding of a private key: the bit length in four bytes, least
/// significant first; the modulus and the two exponents at the full
/// modulus width; the primes, the prime exponents and the coefficient at
/// half that width. All numbers are big-endian.
pub open spec fn private_key_encoding(k: PrivateKeyValue) -> Seq<u8> {
    le_bytes(k.bits, 4) + be_bytes(k.modulus, MAX_RSA_MODULUS_LEN as nat) + be_bytes(
        k.public_exponent,
        MAX_RSA_MODULUS_LEN as nat,
    ) + be_bytes(k.exponent, MAX_RSA_MODULUS_LEN as nat) + be_bytes(
        k.prime0,
        MAX_RSA_PRIME_LEN as nat,
    ) + be_bytes(k.prime1, MAX_RSA_PRIME_LEN as nat) + be_bytes(
        k.prime_exponent0,
        MAX_RSA_PRIME_LEN as nat,
    ) + be_bytes(k.prime_exponent1, MAX_RSA_PRIME_LEN as nat) + be_bytes(
        k.coefficient,
        MAX_RSA_PRIME_LEN as nat,
    )
}

/// The private key that the first 708 bytes of `data` encode.
pub open spec fn private_key_decoding(data: Seq<u8>) -> PrivateKeyValue {
    PrivateKeyValue {
        bits: le_byte_value(data.subrange(0, 4)),
        modulus: be_value(data.subrange(4, 132)),
        public_exponent: be_value(data.subrange(132, 260)),
        exponent: be_value(data.subrange(260, 388)),
        prime0: be_value(data.subrange(388, 452)),
        prime1: be_value(data.subrange(452, 516)),
        prime_exponent0: be_value(data.subrange(516, 580)),
        prime_exponent1: be_value(data.subrange(580, 644)),
        coefficient: be_value(data.subrange(644, 708)),
    }
}

/// The number `value` stands for, as `width` big-endian bytes: padded with
/// zero bytes in front, or cut down to its low bytes.
pub fn to_be(value: &[u8], width: usize) -> (r: Vec<u8>)
    ensures
        r@ == be_bytes(be_value(value@), width as nat),
        r@.len() == width,
{
    let len = value.len();
    let mut out: Vec<u8> = Vec::with_capacity(width);
    if len >= width {
        append_bytes(&mut out, slice_subrange(value, len - width, len));
        proof {
            lemma_be_bytes_low(value@, width as nat);
            assert(value@.subrange(len - width, len as int) =~= value@.skip(len - width));
        }
    } else {
        let fill = width - len;
        let mut i: usize = 0;
        while i < fill
            invariant
                i <= fill,
                out@ == zero_bytes(i as nat),
            decreases fill - i,
        {
            out.push(0);
            assert(out@ =~= zero_bytes((i + 1) as nat));
            i += 1;
        }
        append_bytes(&mut out, value);
        proof {
            lemma_be_bytes_pad(value@, width as nat);
        }
    }
    out
}

/// A copy of `src`.
pub(crate) fn copy_bytes(src: &[u8]) -> (r: Vec<u8>)
    ensures
        r@ == src@,
{
    let mut out: Vec<u8> = Vec::with_capacity(src.len());
    append_bytes(&mut out, src);
    assert(Seq::<u8>::empty() + src@ =~= src@);
    out
}

/// The four bytes of `bits`, least significant first.
fn bits_bytes(bits: u32) -> (r: Vec<u8>)
    ensures
        r@ == le_bytes(bits as nat, 4),
{
    assert((bits & 0xFF) + ((bits >> 8) & 0xFF) * 0x100 + ((bits >> 16) & 0xFF) * 0x1_0000 + (bits
        >> 24) * 0x100_0000 == bits) by (bit_vector);
    assert((bits & 0xFF) <= 0xFF && ((bits >> 8) & 0xFF) <= 0xFF && ((bits >> 16) & 0xFF) <= 0xFF
        && (bits >> 24) <= 0xFF) by (bit_vector);
    let b0 = (bits & 0xFF) as u8;
    let b1 = ((bits >> 8) & 0xFF) as u8;
    let b2 = ((bits >> 16) & 0xFF) as u8;
    let b3 = (bits >> 24) as u8;
    let mut out: Vec<u8> = Vec::with_capacity(4);
    out.push(b0);
    out.push(b1);
    out.push(b2);
    out.push(b3);
    proof {
        lemma_four_bytes(b0, b1, b2, b3);
        assert(out@ =~= seq![b0, b1, b2, b3]);
        lemma_le_bytes_of_value(out@);
    }
    out
}

/// The number that four bytes stand for, least significant first.
fn bits_value(b0: u8, b1: u8, b2: u8, b3: u8) -> (r: u32)
    ensures
        r == le_byte_value(seq![b0, b1, b2, b3]),
{
    proof {
        lemma_four_bytes(b0, b1, b2, b3);
    }
    b0 as u32 + (b1 as u32) * 0x100 + (b2 as u32) * 0x1_0000 + (b3 as u32) * 0x100_0000
}

/// The value of four bytes, least significant first.
proof fn lemma_four_bytes(b0: u8, b1: u8, b2: u8, b3: u8)
    ensures
        le_byte_value(seq![b0, b1, b2, b3]) == b0 + b1 * 0x100 + b2 * 0x1_0000 + b3 * 0x100_0000,
{
    let none = Seq::<u8>::empty();
    assert(none.reverse() =~= none);
    lemma_npow(256, 0);
    lemma_npow(256, 1);
    lemma_npow(256, 2);
    lemma_le_byte_value_push(none, b0);
    lemma_le_byte_value_push(none.push(b0), b1);
    lemma_le_byte_value_push(none.push(b0).push(b1), b2);
    lemma_le_byte_value_push(none.push(b0).push(b1).push(b2), b3);
    assert(none.push(b0).push(b1).push(b2).push(b3) =~= seq![b0, b1, b2, b3]);
    let (w0, w1, w2, w3) = (byte_pow(0), byte_pow(1), byte_pow(2), byte_pow(3));
    assert(b0 * w0 == b0 && b1 * w1 == b1 * 0x100 && b2 * w2 == b2 * 0x1_0000 && b3 * w3 == b3
        * 0x100_0000) by (nonlinear_arith)
        requires
            w0 == 1,
            w1 == 0x100,
            w2 == 0x1_0000,
            w3 == 0x100_0000,
    ;
    assert(le_byte_value(none) == 0);
}

/// What is left of a negative difference modulo `p`.
proof fn lemma_negative_difference(d: int, p: int)
    requires
        0 <= d,
        0 < p,
    ensures
        (p - d % p) % p == (-d) % p,
{
    lemma_fundamental_div_mod(d, p);
    lemma_mod_bound(d, p);
    let k = d / p;
    assert(-d == (p - d % p) + p * (-k - 1)) by (nonlinear_arith)
        requires
            d == p * k + d % p,
    ;
    lemma_mod_multiples_vanish(-k - 1, p - d % p, p);
}

impl RSAPublicKey {
    /// The number of bytes of the modulus.
    fn modulus_len(&self) -> (r: usize)
        ensures
            r == modulus_len(self@.bits),
    {
        ((self.bits as u64 + 7) / 8) as usize
    }

    /// The key in its binary layout of 260 bytes.
    pub fn encode(&self) -> (r: Vec<u8>)
        ensures
            r@ == public_key_encoding(self@),
            r@.len() == PUBLIC_KEY_LEN,
    {
        let mut result = bits_bytes(self.bits);
        let modulus = to_be(self.modulus.as_slice(), MAX_RSA_MODULUS_LEN);
        let exponent = to_be(self.exponent.as_slice(), MAX_RSA_MODULUS_LEN);
        append_bytes(&mut result, modulus.as_slice());
        append_bytes(&mut result, exponent.as_slice());
        result
    }

    /// The key that `data` holds in the binary layout. Data shorter than
    /// the layout fails with `Len`; bytes beyond the layout are not read.
    pub fn decode(data: &[u8]) -> (r: Result<Self, RSAError>)
        ensures
            data@.len() < PUBLIC_KEY_LEN ==> r is Err && r->Err_0 == RSAError::Len,
            data@.len() >= PUBLIC_KEY_LEN ==> r is Ok && r->Ok_0@ == public_key_decoding(data@),
    {
        if data.len() < PUBLIC_KEY_LEN {
            return Err(RSAError::Len);
        }
        let bits = bits_value(data[0], data[1], data[2], data[3]);
        assert(data@.subrange(0, 4) =~= seq![data@[0], data@[1], data@[2], data@[3]]);
        let modulus = copy_bytes(slice_subrange(data, 4, 132));
        let exponent = copy_bytes(slice_subrange(data, 132, 260));
        Ok(Self { bits, modulus, exponent })
    }

    /// The public block transform of `input`. Input that does not stand
    /// for a number below the modulus fails with `Data`.
    pub fn rsa_public_block(&self, input: &[u8]) -> (r: Result<Vec<u8>, RSAError>)
        ensures
            result_view(r) == public_block(self@, input@),
            r matches Ok(block) ==> block@.len() == modulus_len(self@.bits),
    {
        if big_order(input, self.modulus.as_slice()) >= 0 {
            return Err(RSAError::Data);
        }
        let c = big_modpow(input, self.exponent.as_slice(), self.modulus.as_slice());
        let output = to_be(c.as_slice(), self.modulus_len());
        Ok(output)
    }

    /// One chunk encrypted: padded to a block of type 2 with filler bytes
    /// from the generator, then transformed. A chunk longer than the
    /// modulus length less the padding fails with `Len`; a generator that
    /// gives no bytes fails with `NeedRandom`.
    pub fn rsa_public_encrypt(&self, input: &[u8], random_struct: &mut RandomStruct) -> (r: Result<
        Vec<u8>,
        RSAError,
    >)
        ensures
            result_view(r) == public_encrypt_block(self@, old(random_struct)@, input@).0,
            final(random_struct)@ == public_encrypt_block(self@, old(random_struct)@, input@).1,
    {
        match pad_type2(input, self.modulus_len(), random_struct) {
            Err(e) => Err(e),
            Ok(block) => self.rsa_public_block(block.as_slice()),
        }
    }

    /// A message encrypted, chunk by chunk.
    pub fn encrypt(&self, input: &[u8], random_struct: &mut RandomStruct) -> (r: Result<
        Vec<u8>,
        RSAError,
    >)
        ensures
            result_view(r) == public_encrypt(self@, old(random_struct)@, input@).0,
            final(random_struct)@ == public_encrypt(self@, old(random_struct)@, input@).1,
    {
        let len = input.len();
        let modulus_len = self.modulus_len();
        let chunk = if modulus_len >= PADDING_OVERHEAD {
            modulus_len - PADDING_OVERHEAD
        } else {
            0
        };
        let mut result: Vec<u8> = Vec::new();
        let mut offset: usize = 0;
        proof {
            assert(input@.skip(0) =~= input@);
            lemma_prepend_nothing(public_encrypt(self@, random_struct@, input@).0);
        }
        while offset < len
            invariant
                offset <= len,
                len == input@.len(),
                chunk == plain_chunk_len(self@.bits),
                public_encrypt(self@, old(random_struct)@, input@).0 == prepend(
                    result@,
                    public_encrypt(self@, random_struct@, input@.skip(offset as int)).0,
                ),
                public_encrypt(self@, old(random_struct)@, input@).1 == public_encrypt(
                    self@,
                    random_struct@,
                    input@.skip(offset as int),
                ).1,
            decreases len - offset,
        {
            if chunk == 0 {
                return Err(RSAError::Len);
            }
            let end = if len - offset < chunk {
                len
            } else {
                offset + chunk
            };
            let ghost rest = input@.skip(offset as int);
            let ghost before = result@;
            proof {
                assert(rest.take(end - offset) =~= input@.subrange(offset as int, end as int));
                assert(rest.skip(end - offset) =~= input@.skip(end as int));
            }
            match self.rsa_public_encrypt(slice_subrange(input, offset, end), random_struct) {
                Err(e) => {
                    return Err(e);
                },
                Ok(block) => {
                    append_bytes(&mut result, block.as_slice());
                    proof {
                        lemma_prepend_twice(
                            before,
                            block@,
                            public_encrypt(self@, random_struct@, input@.skip(end as int)).0,
                        );
                    }
                },
            }
            offset = end;
        }
        Ok(result)
    }

    /// One block decrypted: transformed, then taken out of its padding of
    /// type 1. A block longer than the modulus fails with `Len`; a block
    /// that does not stand for a number below the modulus, or whose
    /// padding is not well formed, fails with `Data`.
    pub fn rsa_public_decrypt(&self, input: &[u8]) -> (r: Result<Vec<u8>, RSAError>)
        ensures
            result_view(r) == public_decrypt_block(self@, input@),
    {
        if input.len() > self.modulus_len() {
            return Err(RSAError::Len);
        }
        match self.rsa_public_block(input) {
            Err(e) => Err(e),
            Ok(block) => unpad(block.as_slice(), 1),
        }
    }

    /// A message decrypted, block by block.
    pub fn decrypt(&self, input: &[u8]) -> (r: Result<Vec<u8>, RSAError>)
        ensures
            result_view(r) == public_decrypt(self@, input@),
    {
        let len = input.len();
        let chunk = self.modulus_len();
        let mut result: Vec<u8> = Vec::new();
        let mut offset: usize = 0;
        proof {
            assert(input@.skip(0) =~= input@);
            lemma_prepend_nothing(public_decrypt(self@, input@));
        }
        while offset < len
            invariant
                offset <= len,
                len == input@.len(),
                chunk == modulus_len(self@.bits),
                public_decrypt(self@, input@) == prepend(
                    result@,
                    public_decrypt(self@, input@.skip(offset as int)),
                ),
            decreases len - offset,
        {
            if chunk == 0 {
                return Err(RSAError::Len);
            }
            let end = if len - offset < chunk {
                len
            } else {
                offset + chunk
            };
            let ghost rest = input@.skip(offset as int);
            let ghost before = result@;
            proof {
                assert(rest.take(end - offset) =~= input@.subrange(offset as int, end as int));
                assert(rest.skip(end - offset) =~= input@.skip(end as int));
            }
            match self.rsa_public_decrypt(slice_subrange(input, offset, end)) {
                Err(e) => {
                    return Err(e);
                },
                Ok(block) => {
                    append_bytes(&mut result, block.as_slice());
                    proof {
                        lemma_prepend_twice(
                            before,
                            block@,
                            public_decrypt(self@, input@.skip(end as int)),
                        );
                    }
                },
            }
            offset = end;
        }
        Ok(result)
    }
}

impl RSAPrivateKey {
    /// A private key of the given parts. The numbers are big-endian byte
    /// strings; `prime1_inverse` is the inverse of the second prime modulo
    /// the first.
    pub fn from_components(
        bits: u32,
        modulus: Vec<u8>,
        public_exponent: Vec<u8>,
        exponent: Vec<u8>,
        prime0: Vec<u8>,
        prime1: Vec<u8>,
        prime_exponent0: Vec<u8>,
        prime_exponent1: Vec<u8>,
        coefficient: Vec<u8>,
    ) -> (r: Self)
        ensures
            r@ == (PrivateKeyValue {
                bits: bits as nat,
                modulus: be_value(modulus@),
                public_exponent: be_value(public_exponent@),
                exponent: be_value(exponent@),
                prime0: be_value(prime0@),
                prime1: be_value(prime1@),
                prime_exponent0: be_value(prime_exponent0@),
                prime_exponent1: be_value(prime_exponent1@),
                coefficient: be_value(coefficient@),
            }),
    {
        Self {
            bits,
            modulus,
            public_exponent,
            exponent,
            prime0,
            prime1,
            prime_exponent0,
            prime_exponent1,
            coefficient,
        }
    }

    /// The number of bytes of the modulus.
    fn modulus_len(&self) -> (r: usize)
        ensures
            r == modulus_len(self@.bits),
    {
        ((self.bits as u64 + 7) / 8) as usize
    }

    /// The key in its binary layout of 708 bytes.
    pub fn encode(&self) -> (r: Vec<u8>)
        ensures
            r@ == private_key_encoding(self@),
            r@.len() == PRIVATE_KEY_LEN,
    {
        let mut result = bits_bytes(self.bits);
        let modulus = to_be(self.modulus.as_slice(), MAX_RSA_MODULUS_LEN);
        let public_exponent = to_be(self.public_exponent.as_slice(), MAX_RSA_MODULUS_LEN);
        let exponent = to_be(self.exponent.as_slice(), MAX_RSA_MODULUS_LEN);
        let prime0 = to_be(self.prime0.as_slice(), MAX_RSA_PRIME_LEN);
        let prime1 = to_be(self.prime1.as_slice(), MAX_RSA_PRIME_LEN);
        let prime_exponent0 = to_be(self.prime_exponent0.as_slice(), MAX_RSA_PRIME_LEN);
        let prime_exponent1 = to_be(self.prime_exponent1.as_slice(), MAX_RSA_PRIME_LEN);
        let coefficient = to_be(self.coefficient.as_slice(), MAX_RSA_PRIME_LEN);
        append_bytes(&mut result, modulus.as_slice());
        append_bytes(&mut result, public_exponent.as_slice());
        append_bytes(&mut result, exponent.as_slice());
        append_bytes(&mut result, prime0.as_slice());
        append_bytes(&mut result, prime1.as_slice());
        append_bytes(&mut result, prime_exponent0.as_slice());
        append_bytes(&mut result, prime_exponent1.as_slice());
        append_bytes(&mut result, coefficient.as_slice());
        result
    }

    /// The key that `data` holds in the binary layout. Data shorter than
    /// the layout fails with `Len`; bytes beyond the layout are not read.
    pub fn decode(data: &[u8]) -> (r: Result<Self, RSAError>)
        ensures
            data@.len() < PRIVATE_KEY_LEN ==> r is Err && r->Err_0 == RSAError::Len,
            data@.len() >= PRIVATE_KEY_LEN ==> r is Ok && r->Ok_0@ == private_key_decoding(data@),
    {
        if data.len() < PRIVATE_KEY_LEN {
            return Err(RSAError::Len);
        }
        let bits = bits_value(data[0], data[1], data[2], data[3]);
        assert(data@.subrange(0, 4) =~= seq![data@[0], data@[1], data@[2], data@[3]]);
        Ok(
            Self {
                bits,
                modulus: copy_bytes(slice_subrange(data, 4, 132)),
                public_exponent: copy_bytes(slice_subrange(data, 132, 260)),
                exponent: copy_bytes(slice_subrange(data, 260, 388)),
                prime0: copy_bytes(slice_subrange(data, 388, 452)),
                prime1: copy_bytes(slice_subrange(data, 452, 516)),
                prime_exponent0: copy_bytes(slice_subrange(data, 516, 580)),
                prime_exponent1: copy_bytes(slice_subrange(data, 580, 644)),
                coefficient: copy_bytes(slice_subrange(data, 644, 708)),
            },
        )
    }

    /// The public key that belongs to this key.
    pub fn public_key(&self) -> (r: RSAPublicKey)
        ensures
            r@ == public_part(self@),
    {
        RSAPublicKey {
            bits: self.bits,
            modulus: copy_bytes(self.modulus.as_slice()),
            exponent: copy_bytes(self.public_exponent.as_slice()),
        }
    }

    /// One chunk encrypted: padded to a block of type 1, then transformed.
    /// A chunk longer than the modulus length less the padding fails with
    /// `Len`.
    pub fn rsa_private_encrypt(&self, input: &[u8]) -> (r: Result<Vec<u8>, RSAError>)
        ensures
            result_view(r) == private_encrypt_block(self@, input@),
    {
        match pad_type1(input, self.modulus_len()) {
            Err(e) => Err(e),
            Ok(block) => self.rsa_private_block(block.as_slice()),
        }
    }

    /// A message encrypted, chunk by chunk.
    pub fn encrypt(&self, input: &[u8]) -> (r: Result<Vec<u8>, RSAError>)
        ensures
            result_view(r) == private_encrypt(self@, input@),
    {
        let len = input.len();
        let modulus_len = self.modulus_len();
        let chunk = if modulus_len >= PADDING_OVERHEAD {
            modulus_len - PADDING_OVERHEAD
        } else {
            0
        };
        let mut result: Vec<u8> = Vec::new();
        let mut offset: usize = 0;
        proof {
            assert(input@.skip(0) =~= input@);
            lemma_prepend_nothing(private_encrypt(self@, input@));
        }
        while offset < len
            invariant
                offset <= len,
                len == input@.len(),
                chunk == plain_chunk_len(self@.bits),
                private_encrypt(self@, input@) == prepend(
                    result@,
                    private_encrypt(self@, input@.skip(offset as int)),
                ),
            decreases len - offset,
        {
            if chunk == 0 {
                return Err(RSAError::Len);
            }
            let end = if len - offset < chunk {
                len
            } else {
                offset + chunk
            };
            let ghost rest = input@.skip(offset as int);
            let ghost before = result@;
            proof {
                assert(rest.take(end - offset) =~= input@.subrange(offset as int, end as int));
                assert(rest.skip(end - offset) =~= input@.skip(end as int));
            }
            match self.rsa_private_encrypt(slice_subrange(input, offset, end)) {
                Err(e) => {
                    return Err(e);
                },
                Ok(block) => {
                    append_bytes(&mut result, block.as_slice());
                    proof {
                        lemma_prepend_twice(
                            before,
                            block@,
                            private_encrypt(self@, input@.skip(end as int)),
                        );
                    }
                },
            }
            offset = end;
        }
        Ok(result)
    }

    /// One block decrypted: transformed, then taken out of its padding of
    /// type 2. A block longer than the modulus fails with `Len`; a block
    /// that does not stand for a number below the modulus, or whose
    /// padding is not well formed, fails with `Data`.
    pub fn rsa_private_decrypt(&self, input: &[u8]) -> (r: Result<Vec<u8>, RSAError>)
        ensures
            result_view(r) == private_decrypt_block(self@, input@),
    {
        if input.len() > self.modulus_len() {
            return Err(RSAError::Len);
        }
        match self.rsa_private_block(input) {
            Err(e) => Err(e),
            Ok(block) => unpad(block.as_slice(), 2),
        }
    }

    /// A message decrypted, block by block.
    pub fn decrypt(&self, input: &[u8]) -> (r: Result<Vec<u8>, RSAError>)
        ensures
            result_view(r) == private_decrypt(self@, input@),
    {
        let len = input.len();
        let chunk = self.modulus_len();
        let mut result: Vec<u8> = Vec::new();
        let mut offset: usize = 0;
        proof {
            assert(input@.skip(0) =~= input@);
            lemma_prepend_nothing(private_decrypt(self@, input@));
        }
        while offset < len
            invariant
                offset <= len,
                len == input@.len(),
                chunk == modulus_len(self@.bits),
                private_decrypt(self@, input@) == prepend(
                    result@,
                    private_decrypt(self@, input@.skip(offset as int)),
                ),
            decreases len - offset,
        {
            if chunk == 0 {
                return Err(RSAError::Len);
            }
            let end = if len - offset < chunk {
                len
            } else {
                offset + chunk
            };
            let ghost rest = input@.skip(offset as int);
            let ghost before = result@;
            proof {
                assert(rest.take(end - offset) =~= input@.subrange(offset as int, end as int));
                assert(rest.skip(end - offset) =~= input@.skip(end as int));
            }
            match self.rsa_private_decrypt(slice_subrange(input, offset, end)) {
                Err(e) => {
                    return Err(e);
                },
                Ok(block) => {
                    append_bytes(&mut result, block.as_slice());
                    proof {
                        lemma_prepend_twice(
                            before,
                            block@,
                            private_decrypt(self@, input@.skip(end as int)),
                        );
                    }
                },
            }
            offset = end;
        }
        Ok(result)
    }

    /// The private block transform of `input`, by the Chinese Remainder
    /// Theorem. Input that does not stand for a number below the modulus
    /// fails with `Data`; a key with a prime that is zero fails with `Key`.
    pub fn rsa_private_block(&self, input: &[u8]) -> (r: Result<Vec<u8>, RSAError>)
        ensures
            result_view(r) == private_block(self@, input@),
            r matches Ok(block) ==> block@.len() == modulus_len(self@.bits),
    {
        let p = self.prime0.as_slice();
        let q = self.prime1.as_slice();
        if big_order(input, self.modulus.as_slice()) >= 0 {
            return Err(RSAError::Data);
        }
        let zero: Vec<u8> = Vec::new();
        if big_order(p, zero.as_slice()) == 0 || big_order(q, zero.as_slice()) == 0 {
            return Err(RSAError::Key);
        }
        let ghost pv = be_value(p@) as int;
        let ghost qv = be_value(q@) as int;
        let c_p = big_mod_floor(input, p);
        let c_q = big_mod_floor(input, q);
        let m_p = big_modpow(c_p.as_slice(), self.prime_exponent0.as_slice(), p);
        let m_q = big_modpow(c_q.as_slice(), self.prime_exponent1.as_slice(), q);
        proof {
            lemma_mod_bound(
                pow(be_value(c_p@) as int, be_value(self.prime_exponent0@)),
                pv,
            );
            lemma_mod_bound(
                pow(be_value(c_q@) as int, be_value(self.prime_exponent1@)),
                qv,
            );
        }
        let difference = if big_order(m_p.as_slice(), m_q.as_slice()) >= 0 {
            let t = big_sub(m_p.as_slice(), m_q.as_slice());
            proof {
                lemma_small_mod(be_value(t@), pv as nat);
            }
            t
        } else {
            let t = big_sub(m_q.as_slice(), m_p.as_slice());
            let reduced = big_mod_floor(t.as_slice(), p);
            proof {
                lemma_mod_bound(be_value(t@) as int, pv);
                lemma_negative_difference(be_value(t@) as int, pv);
            }
            let lifted = big_sub(p, reduced.as_slice());
            big_mod_floor(lifted.as_slice(), p)
        };
        assert(be_value(difference@) == (be_value(m_p@) - be_value(m_q@)) % pv);
        let scaled = big_mul(difference.as_slice(), self.coefficient.as_slice());
        let h = big_mod_floor(scaled.as_slice(), p);
        let lifted = big_mul(h.as_slice(), q);
        let m = big_add(lifted.as_slice(), m_q.as_slice());
        assert(be_value(m@) == crt_value(self@, be_value(input@)));
        let output = to_be(m.as_slice(), self.modulus_len());
        Ok(output)
    }
}

/// A number that fits its field is read back from the field as it was
/// written.
proof fn lemma_field_round_trip(v: nat, w: nat)
    requires
        v < byte_pow(w),
    ensures
        be_bytes(v, w).len() == w,
        be_value(be_bytes(v, w)) == v,
        le_bytes(v, w).len() == w,
        le_byte_value(le_bytes(v, w)) == v,
{
    lemma_be_bytes_value(v, w);
    lemma_small_mod(v, byte_pow(w));
    assert(be_bytes(v, w).reverse().reverse() =~= be_bytes(v, w));
}

/// Decoding an encoded public key gives the key back, where its numbers
/// fit the layout.
pub proof fn lemma_public_key_round_trip(k: PublicKeyValue)
    requires
        k.bits < byte_pow(4),
        k.modulus < byte_pow(MAX_RSA_MODULUS_LEN as nat),
        k.exponent < byte_pow(MAX_RSA_MODULUS_LEN as nat),
    ensures
        public_key_encoding(k).len() == PUBLIC_KEY_LEN,
        public_key_decoding(public_key_encoding(k)) == k,
{
    let data = public_key_encoding(k);
    lemma_field_round_trip(k.bits, 4);
    lemma_field_round_trip(k.modulus, 128);
    lemma_field_round_trip(k.exponent, 128);
    assert(data.subrange(0, 4) =~= le_bytes(k.bits, 4));
    assert(data.subrange(4, 132) =~= be_bytes(k.modulus, 128));
    assert(data.subrange(132, 260) =~= be_bytes(k.exponent, 128));
}

/// Decoding an encoded private key gives the key back, where its numbers
/// fit the layout.
pub proof fn lemma_private_key_round_trip(k: PrivateKeyValue)
    requires
        k.bits < byte_pow(4),
        k.modulus < byte_pow(MAX_RSA_MODULUS_LEN as nat),
        k.public_exponent < byte_pow(MAX_RSA_MODULUS_LEN as nat),
        k.exponent < byte_pow(MAX_RSA_MODULUS_LEN as nat),
        k.prime0 < byte_pow(MAX_RSA_PRIME_LEN as nat),
        k.prime1 < byte_pow(MAX_RSA_PRIME_LEN as nat),
        k.prime_exponent0 < byte_pow(MAX_RSA_PRIME_LEN as nat),
        k.prime_exponent1 < byte_pow(MAX_RSA_PRIME_LEN as nat),
        k.coefficient < byte_pow(MAX_RSA_PRIME_LEN as nat),
    ensures
        private_key_encoding(k).len() == PRIVATE_KEY_LEN,
        private_key_decoding(private_key_encoding(k)) == k,
{
    let data = private_key_encoding(k);
    lemma_field_round_trip(k.bits, 4);
    lemma_field_round_trip(k.modulus, 128);
    lemma_field_round_trip(k.public_exponent, 128);
    lemma_field_round_trip(k.exponent, 128);
    lemma_field_round_trip(k.prime0, 64);
    lemma_field_round_trip(k.prime1, 64);
    lemma_field_round_trip(k.prime_exponent0, 64);
    lemma_field_round_trip(k.prime_exponent1, 64);
    lemma_field_round_trip(k.coefficient, 64);
    assert(data.subrange(0, 4) =~= le_bytes(k.bits, 4));
    assert(data.subrange(4, 132) =~= be_bytes(k.modulus, 128));
    assert(data.subrange(132, 260) =~= be_bytes(k.public_exponent, 128));
    assert(data.subrange(260, 388) =~= be_bytes(k.exponent, 128));
    assert(data.subrange(388, 452) =~= be_bytes(k.prime0, 64));
    assert(data.subrange(452, 516) =~= be_bytes(k.prime1, 64));
    assert(data.subrange(516, 580) =~= be_bytes(k.prime_exponent0, 64));
    assert(data.subrange(580, 644) =~= be_bytes(k.prime_exponent1, 64));
    assert(data.subrange(644, 708) =~= be_bytes(k.coefficient, 64));
}

/// Nothing in front changes nothing.
proof fn lemma_prepend_nothing(r: Result<Seq<u8>, RSAError>)
    ensures
        prepend(Seq::empty(), r) == r,
{
    if let Ok(bytes) = r {
        assert(Seq::<u8>::empty() + bytes =~= bytes);
    }
}

/// Two prefixes, one after the other, are one prefix.
proof fn lemma_prepend_twice(a: Seq<u8>, b: Seq<u8>, r: Result<Seq<u8>, RSAError>)
    ensures
        prepend(a, prepend(b, r)) == prepend(a + b, r),
{
    if let Ok(bytes) = r {
        assert(a + (b + bytes) =~= (a + b) + bytes);
    }
}

} // verus!
