//! Arithmetic on natural numbers of any size, done by the `BigUint` of the
//! `rsa` crate (which hands on that of `num-bigint-dig`).
//!
//! Numbers cross this boundary as big-endian byte strings; `be_value` says
//! which number a string stands for. Each function here is trusted: Verus
//! takes its contract for granted and does not look at its body. A contract
//! speaks of the value of the result only: how many leading zero bytes the
//! result has is left open.

use vstd::prelude::*;
use vstd::arithmetic::power::pow;
use num_integer::Integer;
use rsa::BigUint;
use std::cmp::Ordering;
use crate::radix::be_value;

verus! {

/// `BigUint::modpow`: `base` to the power `exponent`, modulo `modulus`.
/// It panics on a zero modulus, which the precondition leaves out.
#[verifier::external_body]
pub(crate) fn big_modpow(base: &[u8], exponent: &[u8], modulus: &[u8]) -> (r: Vec<u8>)
    requires
        be_value(modulus@) != 0,
    ensures
        be_value(r@) == pow(be_value(base@) as int, be_value(exponent@)) % (be_value(
            modulus@,
        ) as int),
{
    let m = BigUint::from_bytes_be(modulus);
    BigUint::from_bytes_be(base).modpow(&BigUint::from_bytes_be(exponent), &m).to_bytes_be()
}

/// `Integer::mod_floor` on `BigUint`: the remainder of `a` by `m`.
/// It panics on a zero divisor, which the precondition leaves out.
#[verifier::external_body]
pub(crate) fn big_mod_floor(a: &[u8], m: &[u8]) -> (r: Vec<u8>)
    requires
        be_value(m@) != 0,
    ensures
        be_value(r@) == be_value(a@) % be_value(m@),
{
    BigUint::from_bytes_be(a).mod_floor(&BigUint::from_bytes_be(m)).to_bytes_be()
}

/// `Integer::div_rem` on `BigUint`: the quotient and the remainder of `a`
/// by `b`. It panics on a zero divisor, which the precondition leaves out.
#[verifier::external_body]
pub(crate) fn big_div_rem(a: &[u8], b: &[u8]) -> (r: (Vec<u8>, Vec<u8>))
    requires
        be_value(b@) != 0,
    ensures
        be_value(r.0@) == be_value(a@) / be_value(b@),
        be_value(r.1@) == be_value(a@) % be_value(b@),
{
    let (q, r) = BigUint::from_bytes_be(a).div_rem(&BigUint::from_bytes_be(b));
    (q.to_bytes_be(), r.to_bytes_be())
}

/// `Mul` on `BigUint`: the product.
#[verifier::external_body]
pub(crate) fn big_mul(a: &[u8], b: &[u8]) -> (r: Vec<u8>)
    ensures
        be_value(r@) == be_value(a@) * be_value(b@),
{
    (BigUint::from_bytes_be(a) * BigUint::from_bytes_be(b)).to_bytes_be()
}

/// `Add` on `BigUint`: the sum.
#[verifier::external_body]
pub(crate) fn big_add(a: &[u8], b: &[u8]) -> (r: Vec<u8>)
    ensures
        be_value(r@) == be_value(a@) + be_value(b@),
{
    (BigUint::from_bytes_be(a) + BigUint::from_bytes_be(b)).to_bytes_be()
}

/// `Sub` on `BigUint`: the difference. It panics where the result would
/// be negative, which the precondition leaves out.
#[verifier::external_body]
pub(crate) fn big_sub(a: &[u8], b: &[u8]) -> (r: Vec<u8>)
    requires
        be_value(a@) >= be_value(b@),
    ensures
        be_value(r@) == be_value(a@) - be_value(b@),
{
    (BigUint::from_bytes_be(a) - BigUint::from_bytes_be(b)).to_bytes_be()
}

/// `Ord::cmp` on `BigUint`: `-1`, `0` or `1` as `a` is below, equal to or
/// above `b`.
#[verifier::external_body]
pub(crate) fn big_order(a: &[u8], b: &[u8]) -> (r: i8)
    ensures
        r == -1 <==> be_value(a@) < be_value(b@),
        r == 0 <==> be_value(a@) == be_value(b@),
        r == 1 <==> be_value(a@) > be_value(b@),
{
    match BigUint::from_bytes_be(a).cmp(&BigUint::from_bytes_be(b)) {
        Ordering::Less => -1,
        Ordering::Equal => 0,
        Ordering::Greater => 1,
    }
}

} // verus!
