//! An RSA toolkit in the RSAREF tradition: a fixed-width multi-precision
//! integer engine, PKCS#1 v1.5 block padding, public- and private-key block
//! operations with CRT acceleration, key generation from two primes, and a
//! seeded, hash-mixed pseudo-random byte generator.
//!
//! Every executable function carries a contract over mathematical models
//! (natural numbers and byte sequences) that Verus proves.

use vstd::prelude::*;

pub mod radix;
pub mod nn;
pub mod r_random;
pub mod pkcs1;
pub mod rsa;
pub mod r_keygen;
pub mod theory;
pub mod laws;
mod big;

pub use crate::nn::{NNDigit, NNDigits, NNHalfDigit};
pub use crate::r_keygen::generate_pem_keys;
pub use crate::r_random::RandomStruct;
pub use crate::rsa::{RSAPrivateKey, RSAProtoKey, RSAPublicKey};

verus! {

/// The kinds of failure that the toolkit reports.
#[derive(Debug, Clone, Copy, PartialEq, Eq, Structural)]
pub enum RSAError {
    ContentEncoding,
    /// Input fails a structural check: too large for the modulus, a bad
    /// padding marker, a missing separator.
    Data,
    DigestAlgorithm,
    Encoding,
    /// Prime sourcing or key construction failed.
    Key,
    KeyEncoding,
    /// A buffer length precondition is violated.
    Len,
    /// The requested modulus bit length is outside the supported range.
    ModulusLen,
    /// The generator was consulted before enough seed bytes were mixed in.
    NeedRandom,
    PrivateKey,
    PublicKey,
    Signature,
    SignatureEncoding,
    EncryptionAlgorithm,
}

} // verus!
