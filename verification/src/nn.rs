//! The digit engine: fixed-width multi-precision natural numbers.
//!
//! A number is a sequence of 32-bit digits, least significant first. Every
//! binary operation works on operands of one digit count. Sums, differences
//! and shifts are taken within that digit count, modulo `2^(32 n)` for `n`
//! digits; a product is whole, in twice the digit count.

use vstd::prelude::*;
use vstd::arithmetic::div_mod::*;
use std::cmp::Ordering;
use crate::radix::{
    be_bytes, be_value, byte_pow, le_digits, le_value, lemma_be_bytes_of_value,
    lemma_be_bytes_pad, lemma_be_bytes_value, lemma_be_value_bound, lemma_be_value_concat,
    lemma_be_value_push, lemma_candidate_bound, lemma_le_digits_of_value,
    lemma_le_digits_value, lemma_le_value_bound, lemma_le_value_extend, lemma_le_value_front,
    lemma_le_value_order, lemma_le_value_push, lemma_le_value_split, lemma_le_value_take,
    lemma_le_value_update, lemma_le_value_zeros, lemma_npow, lemma_npow_adds,
    lemma_npow_increases, lemma_pow2_value, lemma_quotient_bit, lemma_scales, npow, radix_pow,
    zero_bytes, zero_digits,
};

verus! {

/// One 32-bit digit.
#[derive(Clone, Copy, Debug, PartialEq, Eq, PartialOrd, Ord)]
pub struct NNDigit {
    n: u32,
}

/// A multi-precision natural number: digits, least significant first.
#[derive(Clone, Debug, PartialEq, Eq, PartialOrd, Ord)]
pub struct NNDigits {
    digits: Vec<NNDigit>,
}

/// One 16-bit half digit.
#[derive(Clone, Copy, Debug, PartialEq, Eq, PartialOrd, Ord)]
pub struct NNHalfDigit {
    n: u16,
}

impl View for NNDigit {
    type V = u32;

    closed spec fn view(&self) -> u32 {
        self.n
    }
}

impl NNDigit {
    /// The digit that holds `n`.
    pub fn new(n: u32) -> (r: Self)
        ensures
            r@ == n,
    {
        Self { n }
    }
}

impl Default for NNDigit {
    fn default() -> (r: Self)
        ensures
            r@ == 0,
    {
        Self::new(0)
    }
}

/// The numbers that a vector of digits holds.
pub closed spec fn digit_values(v: Seq<NNDigit>) -> Seq<u32> {
    Seq::new(v.len(), |i: int| v[i].n)
}

/// Appending a digit appends the number that it holds.
proof fn lemma_digit_values_push(v: Seq<NNDigit>, d: NNDigit)
    ensures
        digit_values(v.push(d)) == digit_values(v).push(d.n),
{
    assert(digit_values(v.push(d)) =~= digit_values(v).push(d.n));
}

/// Replacing a digit replaces the number that it holds.
proof fn lemma_digit_values_update(v: Seq<NNDigit>, k: int, d: NNDigit)
    requires
        0 <= k < v.len(),
    ensures
        digit_values(v.update(k, d)) == digit_values(v).update(k, d.n),
{
    assert(digit_values(v.update(k, d)) =~= digit_values(v).update(k, d.n));
}

/// Adding one partial product keeps the running sum of a schoolbook
/// multiplication.
proof fn lemma_accumulate_step(acc: int, ai: int, b: int, bj: int, x: int, y: int, wi: int, wj: int)
    requires
        acc == ai * b + x * wi * bj,
    ensures
        acc + (x * y) * (wi * wj) == ai * b + x * wi * (bj + y * wj),
{
    assert((x * y) * (wi * wj) == x * wi * (y * wj)) by (nonlinear_arith);
    assert(x * wi * (bj + y * wj) == x * wi * bj + x * wi * (y * wj)) by (nonlinear_arith);
}

/// The running sum of a schoolbook multiplication fits the double width.
proof fn lemma_accumulate_bound(ai: int, b: int, bj: int, x: int, wi: int, wn: int)
    requires
        0 <= ai < wi,
        0 <= x < 0x1_0000_0000,
        0 <= bj <= b < wn,
        wi * 0x1_0000_0000 <= wn,
    ensures
        0 <= ai * b + x * wi * bj < wn * wn,
{
    let top = ai + x * wi;
    assert(0 <= x * wi && x * wi + wi <= wi * 0x1_0000_0000) by (nonlinear_arith)
        requires
            0 <= x < 0x1_0000_0000,
            wi > 0,
    ;
    assert(0 <= top < wn);
    assert(0 <= x * wi * bj <= x * wi * b) by (nonlinear_arith)
        requires
            0 <= x * wi,
            0 <= bj <= b,
    ;
    assert(ai * b + x * wi * b == top * b) by (nonlinear_arith)
        requires
            top == ai + x * wi,
    ;
    assert(0 <= ai * b) by (nonlinear_arith)
        requires
            0 <= ai,
            0 <= b,
    ;
    assert(top * b < wn * wn) by (nonlinear_arith)
        requires
            0 <= top < wn,
            0 <= b < wn,
    ;
}

impl View for NNDigits {
    type V = Seq<u32>;

    closed spec fn view(&self) -> Seq<u32> {
        digit_values(self.digits@)
    }
}

/// The sum of two `n`-digit values within `n` digits.
pub open spec fn wrapping_sum(a: Seq<u32>, b: Seq<u32>) -> nat {
    (le_value(a) + le_value(b)) % radix_pow(a.len())
}

/// The difference of two `n`-digit values within `n` digits; it wraps where
/// the second is the larger.
pub open spec fn wrapping_difference(a: Seq<u32>, b: Seq<u32>) -> nat {
    ((le_value(a) - le_value(b)) % (radix_pow(a.len()) as int)) as nat
}

/// The digits of the whole product of two `n`-digit values: `2 n` digits.
pub open spec fn product_digits(a: Seq<u32>, b: Seq<u32>) -> Seq<u32> {
    le_digits(le_value(a) * le_value(b), 2 * a.len())
}

/// The number of digits that `len` bytes fill, the last one perhaps in
/// part: at least one.
pub open spec fn digits_for_bytes(len: nat) -> nat {
    if len == 0 {
        1
    } else {
        (len + 3) / 4
    }
}

/// The digits that a big-endian byte string decodes to.
pub open spec fn decoded(b: Seq<u8>) -> Seq<u32> {
    le_digits(be_value(b), digits_for_bytes(b.len()))
}

/// The big-endian bytes that digits encode to: four for each digit.
pub open spec fn encoded(d: Seq<u32>) -> Seq<u8> {
    be_bytes(le_value(d), 4 * d.len())
}

/// Packing one byte into a digit above the bytes that it holds.
proof fn lemma_pack_byte(current: u32, byte: u8, off: u32, scale: u64)
    by (bit_vector)
    requires
        off == 0 || off == 8 || off == 16 || off == 24,
        scale == 1u64 << (off as u64),
        (current as u64) < scale,
    ensures
        ((current | ((byte as u32) << off)) as u64) == (current as u64) + (byte as u64) * scale,
        ((current | ((byte as u32) << off)) as u64) < scale * 256,
{
}

/// The four bytes of a digit, most significant first.
proof fn lemma_digit_bytes(d: u32)
    by (bit_vector)
    ensures
        (d >> 24) <= 0xFF,
        ((d >> 16) & 0xFF) <= 0xFF,
        ((d >> 8) & 0xFF) <= 0xFF,
        (d & 0xFF) <= 0xFF,
        (d >> 24) * 0x100_0000 + ((d >> 16) & 0xFF) * 0x1_0000 + ((d >> 8) & 0xFF) * 0x100 + (d
            & 0xFF) == d,
{
}

impl NNDigits {
    /// The number that the digits stand for.
    pub open spec fn value(&self) -> nat {
        le_value(self@)
    }

    /// A number with the given digits.
    pub fn new(digits: &[NNDigit]) -> (r: Self)
        ensures
            r@.len() == digits@.len(),
            forall|i: int| 0 <= i < digits@.len() ==> r@[i] == digits@[i]@,
    {
        let mut v: Vec<NNDigit> = Vec::with_capacity(digits.len());
        let mut i: usize = 0;
        while i < digits.len()
            invariant
                i <= digits@.len(),
                v@ == digits@.take(i as int),
            decreases digits@.len() - i,
        {
            v.push(digits[i]);
            assert(digits@.take(i + 1) =~= digits@.take(i as int).push(digits@[i as int]));
            i += 1;
        }
        assert(digits@.take(digits@.len() as int) =~= digits@);
        Self { digits: v }
    }

    /// Zero, in one digit.
    pub fn zero() -> (r: Self)
        ensures
            r@ == seq![0u32],
            r.value() == 0,
    {
        let mut v: Vec<NNDigit> = Vec::new();
        v.push(NNDigit::new(0));
        let r = Self { digits: v };
        proof {
            assert(r@ =~= seq![0u32]);
            assert(r@ =~= zero_digits(1));
            lemma_le_value_zeros(1);
        }
        r
    }

    /// Cuts the number down to its low `digit_count` digits, or widens it
    /// with zero digits at the top.
    pub fn set_digit_count(&mut self, digit_count: usize)
        ensures
            final(self)@.len() == digit_count,
            digit_count <= old(self)@.len() ==> final(self)@ == old(self)@.take(digit_count as int),
            digit_count >= old(self)@.len() ==> final(self)@ == old(self)@ + zero_digits(
                (digit_count - old(self)@.len()) as nat,
            ),
            final(self).value() == old(self).value() % radix_pow(digit_count as nat),
    {
        let ghost before = self@;
        if digit_count < self.digits.len() {
            self.digits.truncate(digit_count);
            proof {
                assert(self@ =~= before.take(digit_count as int));
                lemma_le_value_take(before, digit_count as int);
            }
        } else {
            let len = self.digits.len();
            let mut i: usize = len;
            while i < digit_count
                invariant
                    len <= i <= digit_count,
                    len == before.len(),
                    self.digits@.len() == i,
                    self@ == before + zero_digits((i - len) as nat),
                decreases digit_count - i,
            {
                let ghost prev = self.digits@;
                self.digits.push(NNDigit::new(0));
                proof {
                    lemma_digit_values_push(prev, NNDigit { n: 0 });
                    assert(self@ =~= before + zero_digits((i + 1 - len) as nat));
                }
                i += 1;
            }
            proof {
                assert(before + zero_digits(0) =~= before);
                lemma_le_value_extend(before, (digit_count - len) as nat);
                lemma_le_value_bound(before);
                lemma_npow_increases(0x1_0000_0000, len as nat, digit_count as nat);
                lemma_small_mod(le_value(before), radix_pow(digit_count as nat));
            }
        }
    }

    /// The number that a byte string stands for, most significant byte
    /// first. The bytes are packed into digits from the last byte up, four
    /// to a digit; the top digit may be filled in part.
    pub fn decode(b: &[u8]) -> (r: Self)
        ensures
            r@ == decoded(b@),
            r@.len() == digits_for_bytes(b@.len()),
            r.value() == be_value(b@),
    {
        let len = b.len();
        let mut digits: Vec<NNDigit> = Vec::new();
        let mut current: u32 = 0;
        let mut bit_offset: u32 = 0;
        let mut taken: usize = 0;
        proof {
            lemma_pow2_value(0);
            assert(b@.skip(len as int) =~= Seq::<u8>::empty());
            assert(digit_values(digits@) =~= Seq::<u32>::empty());
            assert(0 * radix_pow(0) == 0);
        }
        while taken < len
            invariant
                taken <= len,
                len == b@.len(),
                digits@.len() == (if taken == 0 {
                    0
                } else {
                    (taken - 1) / 4
                }),
                bit_offset == 8 * (taken - 4 * digits@.len()),
                bit_offset <= 32,
                current < npow(2, bit_offset as nat),
                le_value(digit_values(digits@)) + current * radix_pow(digits@.len() as nat)
                    == be_value(b@.skip(len - taken)),
            decreases len - taken,
        {
            let byte = b[len - 1 - taken];
            let ghost suffix = b@.skip(len - taken);
            if bit_offset >= 32 {
                let ghost prev = digits@;
                digits.push(NNDigit::new(current));
                proof {
                    lemma_digit_values_push(prev, NNDigit { n: current });
                    lemma_le_value_push(digit_values(prev), current);
                    assert(0 * radix_pow(digits@.len() as nat) == 0);
                    lemma_pow2_value(0);
                }
                bit_offset = 0;
                current = 0;
            }
            let ghost low = current;
            let ghost scale: u64 = 1u64 << (bit_offset as u64);
            proof {
                vstd::bits::lemma_u64_pow2_no_overflow(bit_offset as nat);
                vstd::bits::lemma_u64_shl_is_mul(1u64, bit_offset as u64);
                assert(scale == npow(2, bit_offset as nat));
                lemma_pack_byte(current, byte, bit_offset, scale);
            }
            current = current | ((byte as u32) << bit_offset);
            proof {
                let m = digits@.len() as nat;
                let j = (bit_offset / 8) as nat;
                let w = radix_pow(m) as int;
                // the byte lands at the weight of its place in the string
                lemma_scales(m);
                lemma_scales(j);
                lemma_npow_adds(256, j, 4 * m);
                assert(scale * w == byte_pow(taken as nat));
                assert(b@.skip(len - taken - 1) =~= seq![byte] + suffix);
                lemma_be_value_concat(seq![byte], suffix);
                assert(seq![byte] =~= Seq::<u8>::empty().push(byte));
                lemma_be_value_push(Seq::<u8>::empty(), byte);
                assert(be_value(seq![byte]) == byte);
                assert((low + byte * scale) * w == low * w + byte * (scale * w))
                    by (nonlinear_arith);
                lemma_npow_adds(2, bit_offset as nat, 8);
                lemma_pow2_value(8);
            }
            bit_offset += 8;
            taken += 1;
        }
        let ghost prev = digits@;
        digits.push(NNDigit::new(current));
        let r = Self { digits };
        proof {
            lemma_digit_values_push(prev, NNDigit { n: current });
            lemma_le_value_push(digit_values(prev), current);
            assert(b@.skip(0) =~= b@);
            lemma_le_digits_of_value(r@);
        }
        r
    }

    /// The number as a byte string, most significant byte first: four bytes
    /// for each digit, leading zero bytes kept.
    pub fn encode(&self) -> (r: Vec<u8>)
        ensures
            r@ == encoded(self@),
            r@.len() == 4 * self@.len(),
            be_value(r@) == self.value(),
    {
        let n = self.digits.len();
        let mut result: Vec<u8> = Vec::new();
        let mut i: usize = n;
        proof {
            assert(self@.skip(n as int) =~= Seq::<u32>::empty());
        }
        while i > 0
            invariant
                i <= n,
                n == self.digits@.len(),
                result@.len() == 4 * (n - i),
                be_value(result@) == le_value(self@.skip(i as int)),
            decreases i,
        {
            let d = self.digits[i - 1].n;
            proof {
                lemma_digit_bytes(d);
            }
            let b3 = (d >> 24) as u8;
            let b2 = ((d >> 16) & 0xFF) as u8;
            let b1 = ((d >> 8) & 0xFF) as u8;
            let b0 = (d & 0xFF) as u8;
            let ghost before = result@;
            result.push(b3);
            result.push(b2);
            result.push(b1);
            result.push(b0);
            proof {
                lemma_be_value_push(before, b3);
                lemma_be_value_push(before.push(b3), b2);
                lemma_be_value_push(before.push(b3).push(b2), b1);
                lemma_be_value_push(before.push(b3).push(b2).push(b1), b0);
                assert(self@.skip(i - 1).drop_first() =~= self@.skip(i as int));
                lemma_le_value_front(self@.skip(i - 1));
            }
            i -= 1;
        }
        proof {
            assert(self@.skip(0) =~= self@);
            lemma_be_bytes_of_value(result@);
        }
        result
    }

    /// Makes this number a copy of `other`.
    pub fn assign(&mut self, other: &Self)
        ensures
            final(self)@ == other@,
    {
        let mut v: Vec<NNDigit> = Vec::with_capacity(other.digits.len());
        let mut i: usize = 0;
        while i < other.digits.len()
            invariant
                i <= other.digits@.len(),
                v@ == other.digits@.take(i as int),
            decreases other.digits@.len() - i,
        {
            v.push(other.digits[i]);
            assert(other.digits@.take(i + 1) =~= other.digits@.take(i as int).push(
                other.digits@[i as int],
            ));
            i += 1;
        }
        assert(other.digits@.take(other.digits@.len() as int) =~= other.digits@);
        self.digits = v;
    }

    /// Makes this number zero, at the digit count it has.
    pub fn assign_zero(&mut self)
        ensures
            final(self)@ == zero_digits(old(self)@.len()),
            final(self).value() == 0,
    {
        let n = self.digits.len();
        let mut v: Vec<NNDigit> = Vec::with_capacity(n);
        let mut i: usize = 0;
        while i < n
            invariant
                i <= n,
                v@.len() == i,
                digit_values(v@) == zero_digits(i as nat),
            decreases n - i,
        {
            let ghost prev = v@;
            v.push(NNDigit::new(0));
            proof {
                lemma_digit_values_push(prev, NNDigit { n: 0 });
                assert(digit_values(v@) =~= zero_digits((i + 1) as nat));
            }
            i += 1;
        }
        proof {
            assert(digit_values(Seq::<NNDigit>::empty()) =~= zero_digits(0));
            lemma_le_value_zeros(n as nat);
        }
        self.digits = v;
    }

    /// The sum within the operands' digit count: a carry out of the top
    /// digit is dropped.
    pub fn add(&self, other: &Self) -> (r: Self)
        requires
            self@.len() == other@.len(),
        ensures
            r@.len() == self@.len(),
            r.value() == wrapping_sum(self@, other@),
    {
        let n = self.digits.len();
        let mut carry: u32 = 0;
        let mut out: Vec<NNDigit> = Vec::with_capacity(n);
        let mut i: usize = 0;
        while i < n
            invariant
                i <= n,
                n == self.digits@.len(),
                n == other.digits@.len(),
                out@.len() == i,
                carry <= 1,
                le_value(digit_values(out@)) + carry * radix_pow(i as nat) == le_value(
                    self@.take(i as int),
                ) + le_value(other@.take(i as int)),
            decreases n - i,
        {
            let x = self.digits[i].n;
            let y = other.digits[i].n;
            let ghost carry_in = carry;
            let digit = match x.checked_add(carry) {
                None => y,
                Some(x_carry) => match x_carry.checked_add(y) {
                    None => {
                        carry = 1;
                        x_carry.wrapping_add(y)
                    },
                    Some(sum) => {
                        carry = 0;
                        sum
                    },
                },
            };
            assert(digit + carry * 0x1_0000_0000 == x + y + carry_in);
            let ghost prev = out@;
            out.push(NNDigit::new(digit));
            proof {
                let w = radix_pow(i as nat) as int;
                lemma_npow(0x1_0000_0000, i as nat);
                lemma_digit_values_push(prev, NNDigit { n: digit });
                lemma_le_value_push(digit_values(prev), digit);
                assert(self@.take(i + 1) =~= self@.take(i as int).push(x));
                assert(other@.take(i + 1) =~= other@.take(i as int).push(y));
                lemma_le_value_push(self@.take(i as int), x);
                lemma_le_value_push(other@.take(i as int), y);
                assert(digit * w + carry * (0x1_0000_0000 * w) == x * w + y * w + carry_in * w)
                    by (nonlinear_arith)
                    requires
                        digit + carry * 0x1_0000_0000 == x + y + carry_in,
                ;
            }
            i += 1;
        }
        let r = Self { digits: out };
        proof {
            assert(self@.take(n as int) =~= self@);
            assert(other@.take(n as int) =~= other@);
            lemma_le_value_bound(r@);
            lemma_npow(0x1_0000_0000, n as nat);
            let w = radix_pow(n as nat) as int;
            assert(w * carry == carry * w) by (nonlinear_arith);
            lemma_fundamental_div_mod_converse(
                (le_value(self@) + le_value(other@)) as int,
                w,
                carry as int,
                le_value(r@) as int,
            );
        }
        r
    }

    /// The difference within the operands' digit count. It is the true
    /// difference where `self` is at least `other`, and wraps otherwise.
    pub fn sub(&self, other: &Self) -> (r: Self)
        requires
            self@.len() == other@.len(),
        ensures
            r@.len() == self@.len(),
            r.value() == wrapping_difference(self@, other@),
            self.value() >= other.value() ==> r.value() == self.value() - other.value(),
    {
        let n = self.digits.len();
        let mut borrow: u32 = 0;
        let mut out: Vec<NNDigit> = Vec::with_capacity(n);
        let mut i: usize = 0;
        while i < n
            invariant
                i <= n,
                n == self.digits@.len(),
                n == other.digits@.len(),
                out@.len() == i,
                borrow <= 1,
                le_value(digit_values(out@)) - borrow * radix_pow(i as nat) == le_value(
                    self@.take(i as int),
                ) - le_value(other@.take(i as int)),
            decreases n - i,
        {
            let x = self.digits[i].n;
            let y = other.digits[i].n;
            let ghost borrow_in = borrow;
            let digit = match x.checked_sub(borrow) {
                None => u32::MAX - y,
                Some(x_borrow) => match x_borrow.checked_sub(y) {
                    None => {
                        borrow = 1;
                        x_borrow.wrapping_sub(y)
                    },
                    Some(difference) => {
                        borrow = 0;
                        difference
                    },
                },
            };
            assert(digit - borrow * 0x1_0000_0000 == x - y - borrow_in);
            let ghost prev = out@;
            out.push(NNDigit::new(digit));
            proof {
                let w = radix_pow(i as nat) as int;
                lemma_npow(0x1_0000_0000, i as nat);
                lemma_digit_values_push(prev, NNDigit { n: digit });
                lemma_le_value_push(digit_values(prev), digit);
                assert(self@.take(i + 1) =~= self@.take(i as int).push(x));
                assert(other@.take(i + 1) =~= other@.take(i as int).push(y));
                lemma_le_value_push(self@.take(i as int), x);
                lemma_le_value_push(other@.take(i as int), y);
                assert(digit * w - borrow * (0x1_0000_0000 * w) == x * w - y * w - borrow_in * w)
                    by (nonlinear_arith)
                    requires
                        digit - borrow * 0x1_0000_0000 == x - y - borrow_in,
                ;
            }
            i += 1;
        }
        let r = Self { digits: out };
        proof {
            assert(self@.take(n as int) =~= self@);
            assert(other@.take(n as int) =~= other@);
            lemma_le_value_bound(r@);
            lemma_le_value_bound(self@);
            lemma_npow(0x1_0000_0000, n as nat);
            let w = radix_pow(n as nat) as int;
            let q = -(borrow as int);
            assert(q * w == -(borrow * w)) by (nonlinear_arith)
                requires
                    q == -(borrow as int),
            ;
            lemma_fundamental_div_mod_converse(
                le_value(self@) - le_value(other@),
                w,
                q,
                le_value(r@) as int,
            );
            if self.value() >= other.value() {
                lemma_small_mod((le_value(self@) - le_value(other@)) as nat, w as nat);
            }
        }
        r
    }

    /// Makes this number `2^exp`, in the fewest digits that hold it.
    pub fn assign_2_exp(&mut self, exp: u32)
        ensures
            final(self)@.len() == exp / 32 + 1,
            final(self).value() == npow(2, exp as nat),
    {
        let offset = (exp / 32) as usize;
        let mut v: Vec<NNDigit> = Vec::with_capacity(offset + 1);
        let mut i: usize = 0;
        while i < offset
            invariant
                i <= offset,
                v@.len() == i,
                digit_values(v@) == zero_digits(i as nat),
            decreases offset - i,
        {
            let ghost prev = v@;
            v.push(NNDigit::new(0));
            proof {
                lemma_digit_values_push(prev, NNDigit { n: 0 });
                assert(digit_values(v@) =~= zero_digits((i + 1) as nat));
            }
            i += 1;
        }
        proof {
            assert(digit_values(Seq::<NNDigit>::empty()) =~= zero_digits(0));
        }
        let shift = exp % 32;
        let bit: u32 = 1u32 << shift;
        let ghost low = v@;
        v.push(NNDigit::new(bit));
        self.digits = v;
        proof {
            lemma_digit_values_push(low, NNDigit { n: bit });
            lemma_le_value_push(digit_values(low), bit);
            lemma_le_value_zeros(offset as nat);
            lemma_pow2_value(shift as nat);
            vstd::bits::lemma_u32_pow2_no_overflow(shift as nat);
            vstd::bits::lemma_u32_shl_is_mul(1u32, shift);
            assert(bit == npow(2, shift as nat));
            lemma_scales(offset as nat);
            lemma_npow_adds(2, shift as nat, 32 * (offset as nat));
            assert(shift + 32 * offset == exp);
        }
    }

    /// `-1`, `0` or `1` as this number is below, equal to or above `other`.
    /// The digits are compared from the most significant down.
    fn order_sign(&self, other: &Self) -> (r: i8)
        requires
            self@.len() == other@.len(),
        ensures
            r == -1 <==> self.value() < other.value(),
            r == 0 <==> self.value() == other.value(),
            r == 1 <==> self.value() > other.value(),
            r == 0 <==> self@ == other@,
            r == -1 || r == 0 || r == 1,
    {
        let n = self.digits.len();
        let mut i: usize = n;
        while i > 0
            invariant
                i <= n,
                n == self.digits@.len(),
                n == other.digits@.len(),
                self@.skip(i as int) == other@.skip(i as int),
            decreases i,
        {
            let x = self.digits[i - 1].n;
            let y = other.digits[i - 1].n;
            if x > y {
                proof {
                    lemma_le_value_order(other@, self@, i - 1);
                }
                return 1;
            }
            if x < y {
                proof {
                    lemma_le_value_order(self@, other@, i - 1);
                }
                return -1;
            }
            assert(self@.skip(i - 1) =~= seq![x] + self@.skip(i as int));
            assert(other@.skip(i - 1) =~= seq![y] + other@.skip(i as int));
            i -= 1;
        }
        assert(self@ =~= self@.skip(0));
        assert(other@ =~= other@.skip(0));
        0
    }

    /// Which of the two numbers is the larger, decided from the most
    /// significant digit down.
    pub fn compare(&self, other: &Self) -> (r: Ordering)
        requires
            self@.len() == other@.len(),
        ensures
            r == Ordering::Less <==> self.value() < other.value(),
            r == Ordering::Equal <==> self.value() == other.value(),
            r == Ordering::Greater <==> self.value() > other.value(),
    {
        let sign = self.order_sign(other);
        if sign < 0 {
            Ordering::Less
        } else if sign == 0 {
            Ordering::Equal
        } else {
            Ordering::Greater
        }
    }

    /// This number at twice its digit count: with as many zero digits at
    /// the top as it has digits.
    fn widened(&self) -> (r: Self)
        ensures
            r@ == self@ + zero_digits(self@.len()),
            r@.len() == 2 * self@.len(),
            r.value() == self.value(),
    {
        let n = self.digits.len();
        let mut wide = NNDigits::zero();
        wide.assign(self);
        let mut i: usize = 0;
        proof {
            assert(self@ + zero_digits(0) =~= self@);
        }
        while i < n
            invariant
                i <= n,
                n == self@.len(),
                wide@ == self@ + zero_digits(i as nat),
            decreases n - i,
        {
            let ghost prev = wide.digits@;
            wide.digits.push(NNDigit::new(0));
            proof {
                lemma_digit_values_push(prev, NNDigit { n: 0 });
                assert(wide@ =~= self@ + zero_digits((i + 1) as nat));
            }
            i += 1;
        }
        proof {
            lemma_le_value_extend(self@, n as nat);
        }
        wide
    }

    /// The whole product, in twice the operands' digit count: each product
    /// of two digits is split into its low and its high digit, which are
    /// added to an accumulator of twice the width at their weight.
    /// Nothing is cut off: a caller that needs fewer digits cuts the
    /// product down.
    pub fn mult(&self, other: &Self) -> (r: Self)
        requires
            self@.len() == other@.len(),
        ensures
            r@.len() == 2 * self@.len(),
            r.value() == self.value() * other.value(),
            r@ == product_digits(self@, other@),
    {
        let n = self.digits.len();
        let mut accumulator = self.widened();
        accumulator.assign_zero();
        proof {
            // the accumulator exists, so twice the digit count fits a `usize`
            assert(accumulator.digits.len() == 2 * n);
            assert(self@.take(0) =~= Seq::<u32>::empty());
            let none = le_value(self@.take(0));
            assert(none * le_value(other@) == 0) by (nonlinear_arith)
                requires
                    none == 0,
            ;
        }
        let mut i1: usize = 0;
        while i1 < n
            invariant
                i1 <= n,
                n == self.digits@.len(),
                n == other.digits@.len(),
                2 * n <= usize::MAX,
                accumulator@.len() == 2 * n,
                accumulator.value() == le_value(self@.take(i1 as int)) * le_value(other@),
            decreases n - i1,
        {
            let d1 = self.digits[i1].n;
            let ghost done = le_value(self@.take(i1 as int)) as int;
            let ghost w1 = radix_pow(i1 as nat) as int;
            proof {
                assert(other@.take(0) =~= Seq::<u32>::empty());
                assert(d1 * w1 * 0 == 0) by (nonlinear_arith);
            }
            let mut i2: usize = 0;
            while i2 < n
                invariant
                    i2 <= n,
                    i1 < n,
                    n == self.digits@.len(),
                    n == other.digits@.len(),
                    2 * n <= usize::MAX,
                    d1 == self@[i1 as int],
                    done == le_value(self@.take(i1 as int)),
                    w1 == radix_pow(i1 as nat),
                    accumulator@.len() == 2 * n,
                    accumulator.value() == done * le_value(other@) + d1 * w1 * le_value(
                        other@.take(i2 as int),
                    ),
                decreases n - i2,
            {
                let d2 = other.digits[i2].n;
                assert(d1 * d2 <= 0xFFFF_FFFF * 0xFFFF_FFFF) by (nonlinear_arith)
                    requires
                        d1 <= 0xFFFF_FFFF,
                        d2 <= 0xFFFF_FFFF,
                ;
                let product: u64 = d1 as u64 * d2 as u64;
                assert(product & 0xFFFF_FFFF <= 0xFFFF_FFFF) by (bit_vector);
                assert(product >> 32 <= 0xFFFF_FFFF) by (bit_vector);
                assert((product & 0xFFFF_FFFF) + (product >> 32) * 0x1_0000_0000 == product)
                    by (bit_vector);
                let lower = (product & 0xFFFF_FFFF) as u32;
                let higher = (product >> 32) as u32;
                let digit_shift = i1 + i2;
                let mut add_digits = NNDigits::zero();
                add_digits.set_digit_count(accumulator.digits.len());
                let ghost zeros = add_digits@;
                proof {
                    assert(zeros =~= zero_digits(2 * n as nat));
                    lemma_digit_values_update(
                        add_digits.digits@,
                        digit_shift as int,
                        NNDigit { n: lower },
                    );
                }
                add_digits.digits.set(digit_shift, NNDigit::new(lower));
                proof {
                    lemma_digit_values_update(
                        add_digits.digits@,
                        digit_shift + 1,
                        NNDigit { n: higher },
                    );
                }
                add_digits.digits.set(digit_shift + 1, NNDigit::new(higher));
                let ghost before = accumulator.value() as int;
                accumulator = accumulator.add(&add_digits);
                proof {
                    let k = digit_shift as int;
                    let w2 = radix_pow(i2 as nat) as int;
                    let wk = radix_pow(k as nat) as int;
                    let wn = radix_pow(n as nat) as int;
                    let wide = radix_pow(2 * n as nat) as int;
                    let b = le_value(other@) as int;
                    let bj = le_value(other@.take(i2 as int)) as int;
                    lemma_npow(0x1_0000_0000, k as nat);
                    lemma_npow(0x1_0000_0000, i1 as nat);
                    lemma_npow_adds(0x1_0000_0000, i1 as nat, i2 as nat);
                    lemma_npow_adds(0x1_0000_0000, n as nat, n as nat);
                    lemma_npow_increases(0x1_0000_0000, (i1 + 1) as nat, n as nat);
                    // the two-digit addend stands for the partial product at its weight
                    lemma_le_value_zeros(2 * n as nat);
                    lemma_le_value_update(zeros, k, lower);
                    lemma_le_value_update(zeros.update(k, lower), k + 1, higher);
                    assert(add_digits@ == zeros.update(k, lower).update(k + 1, higher));
                    let (z0, z1) = (zeros[k] as int, zeros.update(k, lower)[k + 1] as int);
                    let wk1 = radix_pow((k + 1) as nat) as int;
                    assert(z0 * wk == 0 && z1 * wk1 == 0) by (nonlinear_arith)
                        requires
                            z0 == 0,
                            z1 == 0,
                    ;
                    assert(higher * wk1 == higher * (0x1_0000_0000 * wk)) by (nonlinear_arith)
                        requires
                            wk1 == 0x1_0000_0000 * wk,
                    ;
                    assert(lower * wk + higher * (0x1_0000_0000 * wk) == product * wk)
                        by (nonlinear_arith)
                        requires
                            lower + higher * 0x1_0000_0000 == product,
                    ;
                    assert(le_value(add_digits@) == product * wk);
                    // the sum so far, with this partial product, fits the accumulator
                    assert(other@.take(i2 + 1) =~= other@.take(i2 as int).push(d2));
                    lemma_le_value_push(other@.take(i2 as int), d2);
                    let bj1 = bj + d2 * w2;
                    lemma_le_value_split(other@, i2 + 1);
                    assert(0 <= radix_pow((i2 + 1) as nat) * le_value(other@.skip(i2 + 1)))
                        by (nonlinear_arith);
                    assert(bj1 <= b);
                    lemma_le_value_bound(other@);
                    lemma_le_value_bound(self@.take(i1 as int));
                    lemma_accumulate_step(before, done, b, bj, d1 as int, d2 as int, w1, w2);
                    lemma_accumulate_bound(done, b, bj1, d1 as int, w1, wn);
                    assert(product == d1 * d2);
                    lemma_small_mod((before + product * wk) as nat, wide as nat);
                }
                i2 += 1;
            }
            proof {
                assert(other@.take(n as int) =~= other@);
                assert(self@.take(i1 + 1) =~= self@.take(i1 as int).push(d1));
                lemma_le_value_push(self@.take(i1 as int), d1);
                let b = le_value(other@) as int;
                assert(done * b + d1 * w1 * b == (done + d1 * w1) * b) by (nonlinear_arith);
            }
            i1 += 1;
        }
        proof {
            assert(self@.take(n as int) =~= self@);
            lemma_le_digits_of_value(accumulator@);
        }
        accumulator
    }

    /// The number shifted up by `bits` bit positions, within its digit
    /// count: what leaves the top digit is dropped.
    pub fn lshift(&self, bits: usize) -> (r: Self)
        requires
            bits < 32,
        ensures
            r@.len() == self@.len(),
            r.value() == (self.value() * npow(2, bits as nat)) % radix_pow(self@.len()),
    {
        let n = self.digits.len();
        if bits == 0 {
            let mut same = NNDigits::zero();
            same.assign(self);
            proof {
                lemma_pow2_value(0);
                lemma_le_value_bound(self@);
                lemma_small_mod(le_value(self@), radix_pow(n as nat));
                assert(le_value(self@) * 1 == le_value(self@));
            }
            return same;
        }
        let s = bits as u32;
        let back: u32 = 32 - s;
        let ghost scale: u64 = 1u64 << (s as u64);
        proof {
            vstd::bits::lemma_u64_pow2_no_overflow(s as nat);
            vstd::bits::lemma_u64_shl_is_mul(1u64, s as u64);
            assert(scale == npow(2, s as nat));
            assert(self@.take(0) =~= Seq::<u32>::empty());
            assert(0 * scale == 0);
        }
        let mut shifted: u32 = 0;
        let mut out: Vec<NNDigit> = Vec::with_capacity(n);
        let mut i: usize = 0;
        while i < n
            invariant
                i <= n,
                n == self.digits@.len(),
                0 < s < 32,
                back == 32 - s,
                scale == 1u64 << (s as u64),
                scale == npow(2, s as nat),
                out@.len() == i,
                shifted < scale,
                le_value(digit_values(out@)) + shifted * radix_pow(i as nat) == le_value(
                    self@.take(i as int),
                ) * scale,
            decreases n - i,
        {
            let x = self.digits[i].n;
            let digit = (x << s) | shifted;
            let ghost carry_in = shifted;
            shifted = x >> back;
            let ghost prev = out@;
            out.push(NNDigit::new(digit));
            proof {
                lemma_lshift_digit(x, carry_in, s, back, scale);
                let w = radix_pow(i as nat) as int;
                let low = le_value(self@.take(i as int)) as int;
                lemma_npow(0x1_0000_0000, i as nat);
                lemma_digit_values_push(prev, NNDigit { n: digit });
                lemma_le_value_push(digit_values(prev), digit);
                assert(self@.take(i + 1) =~= self@.take(i as int).push(x));
                lemma_le_value_push(self@.take(i as int), x);
                assert(digit * w + shifted * (0x1_0000_0000 * w) == (x * scale) * w + carry_in * w)
                    by (nonlinear_arith)
                    requires
                        digit + shifted * 0x1_0000_0000 == x * scale + carry_in,
                ;
                assert((low + x * w) * scale == low * scale + (x * scale) * w)
                    by (nonlinear_arith);
            }
            i += 1;
        }
        let r = Self { digits: out };
        proof {
            assert(self@.take(n as int) =~= self@);
            lemma_le_value_bound(r@);
            lemma_npow(0x1_0000_0000, n as nat);
            let w = radix_pow(n as nat) as int;
            assert(w * shifted == shifted * w) by (nonlinear_arith);
            lemma_fundamental_div_mod_converse(
                le_value(self@) * scale,
                w,
                shifted as int,
                le_value(r@) as int,
            );
        }
        r
    }

    /// The number shifted down by `bits` bit positions.
    pub fn rshift(&self, bits: usize) -> (r: Self)
        requires
            bits < 32,
        ensures
            r@.len() == self@.len(),
            r.value() == self.value() / npow(2, bits as nat),
    {
        let n = self.digits.len();
        let mut result = NNDigits::zero();
        result.assign(self);
        if bits == 0 {
            proof {
                lemma_pow2_value(0);
            }
            return result;
        }
        let s = bits as u32;
        let back: u32 = 32 - s;
        let ghost scale: u64 = 1u64 << (s as u64);
        let ghost mut above: u32 = 0;
        proof {
            vstd::bits::lemma_u64_pow2_no_overflow(s as nat);
            vstd::bits::lemma_u64_shl_is_mul(1u64, s as u64);
            assert(scale == npow(2, s as nat));
            lemma_rshift_start(s, back, scale);
            assert(self@.skip(n as int) =~= Seq::<u32>::empty());
            assert(result@.skip(n as int) =~= Seq::<u32>::empty());
            assert(0 * scale == 0);
        }
        let mut shifted: u32 = 0;
        let mut i: usize = n;
        while i > 0
            invariant
                i <= n,
                n == self.digits@.len(),
                n == result.digits@.len(),
                0 < s < 32,
                back == 32 - s,
                scale == 1u64 << (s as u64),
                scale == npow(2, s as nat),
                shifted == above << back,
                le_value(result@.skip(i as int)) * scale + ((above as u64) & ((scale - 1) as u64))
                    == le_value(self@.skip(i as int)),
            decreases i,
        {
            let x = self.digits[i - 1].n;
            let digit = (x >> s) | shifted;
            let ghost before = result@;
            proof {
                lemma_rshift_digit(x, above, s, back, scale);
                lemma_digit_values_update(result.digits@, i - 1, NNDigit { n: digit });
            }
            result.digits.set(i - 1, NNDigit::new(digit));
            shifted = x << back;
            proof {
                let after = result@;
                let high_in = le_value(self@.skip(i as int)) as int;
                let high_out = le_value(before.skip(i as int)) as int;
                let rest_in = ((above as u64) & ((scale - 1) as u64)) as int;
                let rest_out = ((x as u64) & ((scale - 1) as u64)) as int;
                assert(after.skip(i as int) =~= before.skip(i as int));
                assert(after.skip(i - 1).drop_first() =~= after.skip(i as int));
                assert(self@.skip(i - 1).drop_first() =~= self@.skip(i as int));
                lemma_le_value_front(after.skip(i - 1));
                lemma_le_value_front(self@.skip(i - 1));
                assert((digit + 0x1_0000_0000 * high_out) * scale + rest_out == x + 0x1_0000_0000
                    * high_in) by (nonlinear_arith)
                    requires
                        digit * scale + rest_out == x + rest_in * 0x1_0000_0000,
                        high_out * scale + rest_in == high_in,
                ;
                above = x;
            }
            i -= 1;
        }
        proof {
            assert(self@.skip(0) =~= self@);
            assert(result@.skip(0) =~= result@);
            lemma_rshift_rest(above, scale);
            let rest = ((above as u64) & ((scale - 1) as u64)) as int;
            lemma_fundamental_div_mod_converse(
                le_value(self@) as int,
                scale as int,
                le_value(result@) as int,
                rest,
            );
        }
        result
    }

    /// The number of this number's digit count that has one bit set: the
    /// bit `bit` of the digit `digit`.
    fn single_bit(&self, digit: usize, bit: u32) -> (r: Self)
        requires
            digit < self@.len(),
            bit < 32,
        ensures
            r@.len() == self@.len(),
            r.value() == npow(2, (32 * digit + bit) as nat),
    {
        let mut number = NNDigits::zero();
        number.assign(self);
        number.assign_zero();
        let ghost zeros = number@;
        let one_bit: u32 = 1u32 << bit;
        proof {
            lemma_digit_values_update(number.digits@, digit as int, NNDigit { n: one_bit });
        }
        number.digits.set(digit, NNDigit::new(one_bit));
        proof {
            let w = radix_pow(digit as nat) as int;
            lemma_le_value_zeros(zeros.len());
            lemma_le_value_update(zeros, digit as int, one_bit);
            let z = zeros[digit as int] as int;
            assert(z * w == 0) by (nonlinear_arith)
                requires
                    z == 0,
            ;
            vstd::bits::lemma_u32_pow2_no_overflow(bit as nat);
            vstd::bits::lemma_u32_shl_is_mul(1u32, bit);
            assert(one_bit == npow(2, bit as nat));
            lemma_scales(digit as nat);
            lemma_npow_adds(2, bit as nat, 32 * (digit as nat));
        }
        number
    }

    /// The quotient and the remainder of this number by `other`, which must
    /// not be zero, by binary long division: from the highest bit down, a
    /// quotient bit is kept where the candidate times the divisor does not
    /// exceed the dividend. Both results have the operands' digit count.
    pub fn divmod(&self, other: &Self) -> (r: (Self, Self))
        requires
            self@.len() == other@.len(),
            other.value() != 0,
        ensures
            r.0@.len() == self@.len(),
            r.1@.len() == self@.len(),
            r.0.value() == self.value() / other.value(),
            r.1.value() == self.value() % other.value(),
            r.0.value() * other.value() + r.1.value() == self.value(),
            r.1.value() < other.value(),
    {
        let n = self.digits.len();
        let dividend = self.widened();
        let mut quotient = NNDigits::zero();
        quotient.assign(self);
        quotient.assign_zero();
        let ghost total = (32 * n) as nat;
        let ghost narrow = radix_pow(n as nat) as int;
        let ghost top = self.value() as int;
        let ghost bottom = other.value() as int;
        let ghost exact = top / bottom;
        proof {
            lemma_scales(n as nat);
            lemma_npow(0x1_0000_0000, n as nat);
            lemma_le_value_bound(self@);
            lemma_le_value_bound(other@);
            lemma_div_pos_is_pos(top, bottom);
            lemma_div_is_ordered_by_denominator(top, 1, bottom);
            lemma_basic_div(exact, narrow);
            assert(0 * narrow == 0);
        }
        let mut digit: usize = n;
        while digit > 0
            invariant
                digit <= n,
                n == self@.len(),
                n == other@.len(),
                total == 32 * n,
                narrow == radix_pow(n as nat),
                narrow == npow(2, total),
                top == self.value(),
                bottom == other.value(),
                0 < bottom < narrow,
                exact == top / bottom,
                0 <= exact < narrow,
                dividend@.len() == 2 * n,
                dividend.value() == top,
                quotient@.len() == n,
                quotient.value() == (exact / (npow(2, (32 * digit) as nat) as int)) * npow(
                    2,
                    (32 * digit) as nat,
                ),
            decreases digit,
        {
            let mut bit: u32 = 32;
            while bit > 0
                invariant
                    bit <= 32,
                    0 < digit <= n,
                    n == self@.len(),
                    n == other@.len(),
                    total == 32 * n,
                    narrow == radix_pow(n as nat),
                    narrow == npow(2, total),
                    top == self.value(),
                    bottom == other.value(),
                    0 < bottom < narrow,
                    exact == top / bottom,
                    0 <= exact < narrow,
                    dividend@.len() == 2 * n,
                    dividend.value() == top,
                    quotient@.len() == n,
                    quotient.value() == (exact / (npow(2, (32 * (digit - 1) + bit) as nat) as int))
                        * npow(2, (32 * (digit - 1) + bit) as nat),
                decreases bit,
            {
                let ghost remaining = (32 * (digit - 1) + bit) as nat;
                let nn_bit = self.single_bit(digit - 1, bit - 1);
                let quotient_high = quotient.add(&nn_bit);
                let try_mult_high = quotient_high.mult(other);
                proof {
                    let half = npow(2, (remaining - 1) as nat) as int;
                    let candidate = quotient.value() + half;
                    lemma_candidate_bound(exact, remaining, total);
                    lemma_quotient_bit(top, bottom, half);
                    lemma_small_mod(candidate as nat, narrow as nat);
                    assert(quotient_high.value() == candidate);
                }
                if try_mult_high.order_sign(&dividend) <= 0 {
                    quotient = quotient_high;
                }
                bit -= 1;
            }
            digit -= 1;
        }
        let product = quotient.mult(other);
        proof {
            lemma_npow(2, 0);
            let one = npow(2, 0) as int;
            assert((exact / one) * one == exact) by (nonlinear_arith)
                requires
                    one == 1,
            ;
            assert(quotient.value() == exact);
            lemma_fundamental_div_mod(top, bottom);
            lemma_mod_bound(top, bottom);
            assert(exact * bottom == bottom * exact) by (nonlinear_arith);
        }
        let mut modulus = dividend.sub(&product);
        proof {
            lemma_small_mod((top % bottom) as nat, narrow as nat);
        }
        modulus.set_digit_count(n);
        (quotient, modulus)
    }
}

/// Decoding a byte string and encoding the digits gives the byte string
/// back, behind the zero bytes that fill the top digit.
pub proof fn lemma_decode_then_encode(b: Seq<u8>)
    ensures
        encoded(decoded(b)) == zero_bytes((4 * digits_for_bytes(b.len()) - b.len()) as nat) + b,
{
    let count = digits_for_bytes(b.len());
    lemma_le_digits_value(be_value(b), count);
    lemma_be_value_bound(b);
    lemma_scales(count);
    lemma_npow_increases(256, b.len(), 4 * count);
    lemma_small_mod(be_value(b), radix_pow(count));
    lemma_be_bytes_pad(b, 4 * count);
}

/// Encoding digits and decoding the bytes gives the digits back.
pub proof fn lemma_encode_then_decode(d: Seq<u32>)
    requires
        d.len() >= 1,
    ensures
        decoded(encoded(d)) == d,
{
    lemma_be_bytes_value(le_value(d), 4 * d.len());
    lemma_le_value_bound(d);
    lemma_scales(d.len());
    lemma_small_mod(le_value(d), byte_pow(4 * d.len()));
    lemma_le_digits_of_value(d);
}

/// Adding a number and then subtracting it again, both within the digit
/// count, gives the first operand back, whether or not the sum wrapped.
pub proof fn lemma_add_then_sub(a: Seq<u32>, b: Seq<u32>, sum: Seq<u32>)
    requires
        a.len() == b.len(),
        sum.len() == a.len(),
        le_value(sum) == wrapping_sum(a, b),
    ensures
        wrapping_difference(sum, b) == le_value(a),
{
    let m = radix_pow(a.len()) as int;
    let (x, y) = (le_value(a) as int, le_value(b) as int);
    lemma_npow(0x1_0000_0000, a.len());
    lemma_le_value_bound(a);
    lemma_fundamental_div_mod(x + y, m);
    let carry = (x + y) / m;
    assert(m * carry == carry * m) by (nonlinear_arith);
    assert((-carry) * m == -(carry * m)) by (nonlinear_arith);
    lemma_fundamental_div_mod_converse(le_value(sum) - y, m, -carry, x);
}

/// The product does not depend on the order of the operands: the same
/// digits, in the same digit count.
pub proof fn lemma_mult_commutative(a: Seq<u32>, b: Seq<u32>)
    requires
        a.len() == b.len(),
    ensures
        product_digits(a, b) == product_digits(b, a),
        le_value(a) * le_value(b) == le_value(b) * le_value(a),
{
    assert(le_value(a) * le_value(b) == le_value(b) * le_value(a)) by (nonlinear_arith);
}

/// One digit of a shift towards the top: the digit keeps the low part of
/// `x` shifted up, with the carry below it, and hands the high part on.
proof fn lemma_lshift_digit(x: u32, c: u32, s: u32, back: u32, scale: u64)
    by (bit_vector)
    requires
        0 < s < 32,
        back == 32 - s,
        scale == 1u64 << (s as u64),
        (c as u64) < scale,
    ensures
        (((x << s) | c) as u64) + ((x >> back) as u64) * 0x1_0000_0000 == (x as u64) * scale + (
        c as u64),
        ((x >> back) as u64) < scale,
{
}

/// One digit of a shift towards the bottom: the digit keeps the high part
/// of `x` shifted down, under what the digit above handed on.
proof fn lemma_rshift_digit(x: u32, above: u32, s: u32, back: u32, scale: u64)
    by (bit_vector)
    requires
        0 < s < 32,
        back == 32 - s,
        scale == 1u64 << (s as u64),
    ensures
        ((((x >> s) | (above << back)) as u64) * scale) + ((x as u64) & ((scale - 1) as u64)) == (
        x as u64) + (((above as u64) & ((scale - 1) as u64)) * 0x1_0000_0000),
{
}

/// Above the top digit there is nothing to hand on.
proof fn lemma_rshift_start(s: u32, back: u32, scale: u64)
    by (bit_vector)
    requires
        0 < s < 32,
        back == 32 - s,
        scale == 1u64 << (s as u64),
    ensures
        0u32 == 0u32 << back,
        ((0u32 as u64) & ((scale - 1) as u64)) == 0,
{
}

/// What a shift towards the bottom drops of a digit is below the scale.
proof fn lemma_rshift_rest(x: u32, scale: u64)
    by (bit_vector)
    requires
        scale >= 1,
    ensures
        ((x as u64) & ((scale - 1) as u64)) < scale,
{
}


impl Default for NNDigits {
    fn default() -> (r: Self)
        ensures
            r@ == seq![0u32],
    {
        Self::zero()
    }
}

} // verus!
