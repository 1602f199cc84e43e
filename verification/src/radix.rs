//! Positional notation: the natural number that a sequence of 32-bit digits
//! (least significant first) or of bytes (most significant first) stands for,
//! and the facts about these values that the arithmetic proofs rest on.

use vstd::prelude::*;
use vstd::arithmetic::power::*;
use vstd::arithmetic::div_mod::*;
use vstd::arithmetic::mul::*;

verus! {

/// `b` raised to the power `e`, as a natural number.
pub open spec fn npow(b: nat, e: nat) -> nat {
    pow(b as int, e) as nat
}

/// The weight of digit position `n`: `2^(32 n)`.
pub open spec fn radix_pow(n: nat) -> nat {
    npow(0x1_0000_0000, n)
}

/// The weight of byte position `n`, counted from the least significant: `256^n`.
pub open spec fn byte_pow(n: nat) -> nat {
    npow(256, n)
}

/// The value of a digit sequence, least significant digit first.
pub open spec fn le_value(s: Seq<u32>) -> nat
    decreases s.len(),
{
    if s.len() == 0 {
        0
    } else {
        le_value(s.drop_last()) + s.last() as nat * radix_pow((s.len() - 1) as nat)
    }
}

/// The value of a byte string, most significant byte first.
pub open spec fn be_value(s: Seq<u8>) -> nat
    decreases s.len(),
{
    if s.len() == 0 {
        0
    } else {
        be_value(s.drop_last()) * 256 + s.last() as nat
    }
}

/// A sequence of `n` zero digits.
pub open spec fn zero_digits(n: nat) -> Seq<u32> {
    Seq::new(n, |i: int| 0u32)
}

/// A sequence of `n` zero bytes.
pub open spec fn zero_bytes(n: nat) -> Seq<u8> {
    Seq::new(n, |i: int| 0u8)
}

/// The `n`-digit representation of `v mod 2^(32 n)`.
pub open spec fn le_digits(v: nat, n: nat) -> Seq<u32> {
    Seq::new(n, |i: int| ((v / radix_pow(i as nat)) % 0x1_0000_0000) as u32)
}

/// The `w`-byte big-endian representation of `v mod 256^w`.
pub open spec fn be_bytes(v: nat, w: nat) -> Seq<u8> {
    Seq::new(w, |i: int| ((v / byte_pow((w - 1 - i) as nat)) % 256) as u8)
}

/// How powers unfold: the power zero is 1, and one more in the exponent is
/// one more factor. A power of a positive number is positive.
pub proof fn lemma_npow(b: nat, e: nat)
    ensures
        npow(b, 0) == 1,
        npow(b, e + 1) == b * npow(b, e),
        npow(b, e) == pow(b as int, e),
        b > 0 ==> npow(b, e) > 0,
    decreases e,
{
    reveal(pow);
    if e > 0 {
        lemma_npow(b, (e - 1) as nat);
        assert(pow(b as int, e) == b * pow(b as int, (e - 1) as nat));
        assert(b * npow(b, (e - 1) as nat) >= 0) by (nonlinear_arith)
            requires
                b >= 0,
                npow(b, (e - 1) as nat) >= 0,
        ;
        assert(b > 0 ==> b * npow(b, (e - 1) as nat) > 0) by (nonlinear_arith)
            requires
                b > 0 ==> npow(b, (e - 1) as nat) > 0,
        ;
    }
    assert(pow(b as int, e + 1) == b * pow(b as int, e));
}

/// Exponents add where powers of one base are multiplied.
pub proof fn lemma_npow_adds(b: nat, e1: nat, e2: nat)
    ensures
        npow(b, e1 + e2) == npow(b, e1) * npow(b, e2),
{
    lemma_npow(b, e1);
    lemma_npow(b, e2);
    lemma_npow(b, e1 + e2);
    lemma_pow_adds(b as int, e1, e2);
}

/// Exponents multiply where a power is raised to a power.
pub proof fn lemma_npow_multiplies(b: nat, e1: nat, e2: nat)
    ensures
        npow(npow(b, e1), e2) == npow(b, e1 * e2),
{
    lemma_npow(b, e1);
    lemma_npow(npow(b, e1), e2);
    lemma_npow(b, e1 * e2);
    lemma_pow_multiplies(b as int, e1, e2);
}

/// A power of a positive base does not fall as the exponent grows.
pub proof fn lemma_npow_increases(b: nat, e1: nat, e2: nat)
    requires
        b > 0,
        e1 <= e2,
    ensures
        npow(b, e1) <= npow(b, e2),
{
    lemma_npow(b, e1);
    lemma_npow(b, e2);
    lemma_pow_increases(b, e1, e2);
}

/// `2^32 = 256^4` and `2^8 = 256`, so the three scales agree.
pub proof fn lemma_scales(n: nat)
    ensures
        radix_pow(n) == byte_pow(4 * n),
        radix_pow(n) == npow(2, 32 * n),
        byte_pow(n) == npow(2, 8 * n),
{
    assert(npow(256, 4) == 0x1_0000_0000) by {
        lemma_npow(256, 0);
        lemma_npow(256, 1);
        lemma_npow(256, 2);
        lemma_npow(256, 3);
    }
    lemma_npow_multiplies(256, 4, n);
    lemma_pow2_value(8);
    lemma_pow2_value(32);
    lemma_npow_multiplies(2, 32, n);
    lemma_npow_multiplies(2, 8, n);
}

/// The powers of two that the digit and byte proofs meet.
pub proof fn lemma_pow2_value(e: nat)
    requires
        e <= 32,
    ensures
        e == 0 ==> npow(2, e) == 1,
        e == 8 ==> npow(2, e) == 0x100,
        e == 16 ==> npow(2, e) == 0x1_0000,
        e == 24 ==> npow(2, e) == 0x100_0000,
        e == 32 ==> npow(2, e) == 0x1_0000_0000,
        npow(2, e) <= 0x1_0000_0000,
        npow(2, e) >= 1,
{
    lemma_npow(2, e);
    lemma_npow_increases(2, e, 32);
    lemma_pow2_32();
}

/// The powers of two at the byte boundaries of a digit.
proof fn lemma_pow2_32()
    ensures
        npow(2, 8) == 0x100,
        npow(2, 16) == 0x1_0000,
        npow(2, 24) == 0x100_0000,
        npow(2, 32) == 0x1_0000_0000,
{
    vstd::arithmetic::power2::lemma2_to64();
    vstd::arithmetic::power2::lemma_pow2(8);
    vstd::arithmetic::power2::lemma_pow2(16);
    vstd::arithmetic::power2::lemma_pow2(24);
    vstd::arithmetic::power2::lemma_pow2(32);
}

/// Appending a digit adds it at the weight of its position.
pub proof fn lemma_le_value_push(s: Seq<u32>, d: u32)
    ensures
        le_value(s.push(d)) == le_value(s) + d as nat * radix_pow(s.len()),
{
    assert(s.push(d).drop_last() =~= s);
}

/// An `n`-digit value is below `2^(32 n)`.
pub proof fn lemma_le_value_bound(s: Seq<u32>)
    ensures
        le_value(s) < radix_pow(s.len()),
    decreases s.len(),
{
    lemma_npow(0x1_0000_0000, 0);
    if s.len() > 0 {
        let n = (s.len() - 1) as nat;
        lemma_le_value_bound(s.drop_last());
        lemma_npow(0x1_0000_0000, n);
        let w = radix_pow(n);
        let d = s.last() as nat;
        assert(d * w <= 0xFFFF_FFFF * w) by (nonlinear_arith)
            requires
                d <= 0xFFFF_FFFF,
                w >= 0,
        ;
    }
}

/// A digit sequence splits at any position into a low and a high part.
pub proof fn lemma_le_value_split(s: Seq<u32>, k: int)
    requires
        0 <= k <= s.len(),
    ensures
        le_value(s) == le_value(s.take(k)) + radix_pow(k as nat) * le_value(s.skip(k)),
    decreases s.len(),
{
    if k == s.len() {
        assert(s.take(k) =~= s);
        assert(s.skip(k).len() == 0);
        let none = le_value(s.skip(k));
        assert(radix_pow(k as nat) * none == 0) by (nonlinear_arith)
            requires
                none == 0,
        ;
    } else {
        let t = s.drop_last();
        let n = (s.len() - 1) as nat;
        lemma_le_value_split(t, k);
        assert(t.take(k) =~= s.take(k));
        assert(t.skip(k) =~= s.skip(k).drop_last());
        assert(s.skip(k).last() == s.last());
        let hi = le_value(t.skip(k));
        let d = s.last() as nat;
        let wk = radix_pow(k as nat);
        let wr = radix_pow((n - k) as nat);
        lemma_npow_adds(0x1_0000_0000, k as nat, (n - k) as nat);
        assert(wk * wr == radix_pow(n));
        assert(le_value(s.skip(k)) == hi + d * wr);
        assert(le_value(s) == le_value(t) + d * radix_pow(n));
        assert(wk * (hi + d * wr) == wk * hi + d * (wk * wr)) by (nonlinear_arith);
        assert(le_value(s) == le_value(s.take(k)) + wk * (hi + d * wr));
    }
}

/// The low `k` digits hold the value modulo `2^(32 k)`.
pub proof fn lemma_le_value_take(s: Seq<u32>, k: int)
    requires
        0 <= k <= s.len(),
    ensures
        le_value(s.take(k)) == le_value(s) % radix_pow(k as nat),
        le_value(s.skip(k)) == le_value(s) / radix_pow(k as nat),
{
    lemma_le_value_split(s, k);
    lemma_le_value_bound(s.take(k));
    lemma_npow(0x1_0000_0000, k as nat);
    let w = radix_pow(k as nat) as int;
    let hi = le_value(s.skip(k)) as int;
    let lo = le_value(s.take(k)) as int;
    assert(w * hi == hi * w) by (nonlinear_arith);
    lemma_fundamental_div_mod_converse(le_value(s) as int, w, hi, lo);
}

/// The first digit is the value modulo the radix.
pub proof fn lemma_le_value_front(s: Seq<u32>)
    requires
        s.len() > 0,
    ensures
        le_value(s) == s[0] as nat + 0x1_0000_0000 * le_value(s.drop_first()),
{
    lemma_le_value_split(s, 1);
    assert(s.skip(1) =~= s.drop_first());
    assert(s.take(1).drop_last() =~= Seq::<u32>::empty());
    lemma_npow(0x1_0000_0000, 0);
    lemma_npow(0x1_0000_0000, 1);
    let d = s[0] as nat;
    let w0 = radix_pow(0);
    assert(le_value(s.take(1)) == d) by {
        assert(s.take(1).last() == s[0]);
        assert(le_value(s.take(1).drop_last()) == 0);
        assert(d * w0 == d) by (nonlinear_arith)
            requires
                w0 == 1,
        ;
    }
    assert(radix_pow(1) == 0x1_0000_0000);
}

/// Replacing one digit changes the value by the difference at its weight.
pub proof fn lemma_le_value_update(s: Seq<u32>, k: int, d: u32)
    requires
        0 <= k < s.len(),
    ensures
        le_value(s.update(k, d)) == le_value(s) - s[k] as nat * radix_pow(k as nat) + d as nat
            * radix_pow(k as nat),
{
    let u = s.update(k, d);
    lemma_le_value_split(s, k + 1);
    lemma_le_value_split(u, k + 1);
    assert(u.skip(k + 1) =~= s.skip(k + 1));
    assert(s.take(k + 1).drop_last() =~= s.take(k));
    assert(u.take(k + 1).drop_last() =~= s.take(k));
    assert(s.take(k + 1).last() == s[k]);
    assert(u.take(k + 1).last() == d);
}

/// Zero digits stand for zero.
pub proof fn lemma_le_value_zeros(n: nat)
    ensures
        le_value(zero_digits(n)) == 0,
    decreases n,
{
    if n > 0 {
        lemma_le_value_zeros((n - 1) as nat);
        assert(zero_digits(n).drop_last() =~= zero_digits((n - 1) as nat));
        assert(0 * radix_pow((n - 1) as nat) == 0);
    }
}

/// Zero digits above the value do not change it.
pub proof fn lemma_le_value_extend(s: Seq<u32>, n: nat)
    ensures
        le_value(s + zero_digits(n)) == le_value(s),
{
    let t = s + zero_digits(n);
    lemma_le_value_split(t, s.len() as int);
    assert(t.take(s.len() as int) =~= s);
    assert(t.skip(s.len() as int) =~= zero_digits(n));
    lemma_le_value_zeros(n);
    assert(radix_pow(s.len()) * 0 == 0);
}

/// Two digit sequences of one length with one value are the same sequence.
pub proof fn lemma_le_value_unique(a: Seq<u32>, b: Seq<u32>)
    requires
        a.len() == b.len(),
        le_value(a) == le_value(b),
    ensures
        a == b,
    decreases a.len(),
{
    if a.len() > 0 {
        let n = (a.len() - 1) as nat;
        let w = radix_pow(n) as int;
        lemma_npow(0x1_0000_0000, n);
        lemma_le_value_bound(a.drop_last());
        lemma_le_value_bound(b.drop_last());
        let (la, lb) = (le_value(a.drop_last()) as int, le_value(b.drop_last()) as int);
        let (da, db) = (a.last() as int, b.last() as int);
        assert(da == db) by (nonlinear_arith)
            requires
                la + da * w == lb + db * w,
                0 <= la < w,
                0 <= lb < w,
        ;
        lemma_le_value_unique(a.drop_last(), b.drop_last());
        assert(a =~= a.drop_last().push(a.last()));
        assert(b =~= b.drop_last().push(b.last()));
    } else {
        assert(a =~= b);
    }
}

/// One step of binary long division. With the quotient `q` of `n` by `d`
/// known down to the bit of weight `2 p`, the bit of weight `p` is set
/// exactly if the candidate with that bit set, times `d`, does not exceed `n`.
pub proof fn lemma_quotient_bit(n: int, d: int, p: int)
    requires
        0 <= n,
        0 < d,
        0 < p,
    ensures
        ({
            let q = n / d;
            let base = (q / (2 * p)) * (2 * p);
            let candidate = base + p;
            &&& 0 <= base <= q
            &&& candidate * d <= n <==> candidate <= q
            &&& (q / p) * p == if candidate <= q {
                candidate
            } else {
                base
            }
        }),
{
    let q = n / d;
    let h = q / (2 * p);
    let r = q % (2 * p);
    let base = h * (2 * p);
    let candidate = base + p;
    lemma_fundamental_div_mod(n, d);
    lemma_mod_bound(n, d);
    lemma_div_pos_is_pos(n, d);
    lemma_fundamental_div_mod(q, 2 * p);
    lemma_mod_bound(q, 2 * p);
    lemma_div_pos_is_pos(q, 2 * p);
    assert(q == 2 * p * h + r);
    assert(2 * p * h == h * (2 * p)) by (nonlinear_arith);
    assert(0 <= h * (2 * p)) by (nonlinear_arith)
        requires
            0 <= h,
            0 < p,
    ;
    assert(n == d * q + n % d);
    if candidate <= q {
        assert(candidate * d <= d * q) by (nonlinear_arith)
            requires
                candidate <= q,
                0 < d,
        ;
        assert(q == (2 * h + 1) * p + (r - p)) by (nonlinear_arith)
            requires
                q == h * (2 * p) + r,
        ;
        lemma_fundamental_div_mod_converse(q, p, 2 * h + 1, r - p);
        assert((2 * h + 1) * p == h * (2 * p) + p) by (nonlinear_arith);
    } else {
        assert(candidate * d >= d * q + d) by (nonlinear_arith)
            requires
                candidate >= q + 1,
                0 < d,
        ;
        assert(q == (2 * h) * p + r) by (nonlinear_arith)
            requires
                q == h * (2 * p) + r,
        ;
        lemma_fundamental_div_mod_converse(q, p, 2 * h, r);
        assert((2 * h) * p == h * (2 * p)) by (nonlinear_arith);
    }
}

/// A value below `2^total`, rounded down to a multiple of `2^i` and with
/// the bit below set, is still below `2^total`.
pub proof fn lemma_candidate_bound(q: int, i: nat, total: nat)
    requires
        0 <= q < npow(2, total),
        1 <= i <= total,
    ensures
        (q / (npow(2, i) as int)) * npow(2, i) + npow(2, (i - 1) as nat) < npow(2, total),
        npow(2, i) == 2 * npow(2, (i - 1) as nat),
        npow(2, (i - 1) as nat) > 0,
{
    let m = npow(2, i) as int;
    let half = npow(2, (i - 1) as nat) as int;
    let rest = npow(2, (total - i) as nat) as int;
    lemma_npow(2, (i - 1) as nat);
    lemma_npow(2, i);
    lemma_npow(2, (total - i) as nat);
    lemma_npow_adds(2, i, (total - i) as nat);
    assert(q < m * rest);
    lemma_multiply_divide_lt(q, m, rest);
    let h = q / m;
    assert(h * m + m <= rest * m) by (nonlinear_arith)
        requires
            h + 1 <= rest,
            m > 0,
    ;
    assert(rest * m == m * rest) by (nonlinear_arith);
}

/// The canonical digits of `v` stand for `v mod 2^(32 n)`.
pub proof fn lemma_le_digits_value(v: nat, n: nat)
    ensures
        le_digits(v, n).len() == n,
        le_value(le_digits(v, n)) == v % radix_pow(n),
    decreases n,
{
    lemma_npow(0x1_0000_0000, 0);
    if n > 0 {
        let m = (n - 1) as nat;
        let w = radix_pow(m) as int;
        lemma_le_digits_value(v, m);
        lemma_npow(0x1_0000_0000, m);
        assert(le_digits(v, n).drop_last() =~= le_digits(v, m));
        lemma_mod_breakdown(v as int, w, 0x1_0000_0000);
        lemma_mod_bound(v as int / w, 0x1_0000_0000);
        let top = (v as int / w) % 0x1_0000_0000;
        assert(le_digits(v, n).last() == top);
        assert(w * top == top * w) by (nonlinear_arith);
        assert(w * 0x1_0000_0000 == 0x1_0000_0000 * w);
    }
}

/// The digits of a value are the canonical digits of that value.
pub proof fn lemma_le_digits_of_value(s: Seq<u32>)
    ensures
        le_digits(le_value(s), s.len()) == s,
{
    lemma_le_digits_value(le_value(s), s.len());
    lemma_le_value_bound(s);
    lemma_small_mod(le_value(s), radix_pow(s.len()));
    lemma_le_value_unique(le_digits(le_value(s), s.len()), s);
}

/// Appending a byte multiplies by 256 and adds the byte.
pub proof fn lemma_be_value_push(s: Seq<u8>, b: u8)
    ensures
        be_value(s.push(b)) == be_value(s) * 256 + b as nat,
{
    assert(s.push(b).drop_last() =~= s);
}

/// A `w`-byte value is below `256^w`.
pub proof fn lemma_be_value_bound(s: Seq<u8>)
    ensures
        be_value(s) < byte_pow(s.len()),
    decreases s.len(),
{
    lemma_npow(256, 0);
    if s.len() > 0 {
        lemma_be_value_bound(s.drop_last());
        lemma_npow(256, (s.len() - 1) as nat);
    }
}

/// The value of a concatenation: the front part moves up by the length of
/// the back part.
pub proof fn lemma_be_value_concat(x: Seq<u8>, y: Seq<u8>)
    ensures
        be_value(x + y) == be_value(x) * byte_pow(y.len()) + be_value(y),
    decreases y.len(),
{
    lemma_npow(256, 0);
    if y.len() == 0 {
        assert(x + y =~= x);
        assert(be_value(x) * 1 == be_value(x));
    } else {
        let m = (y.len() - 1) as nat;
        lemma_be_value_concat(x, y.drop_last());
        assert((x + y).drop_last() =~= x + y.drop_last());
        lemma_npow(256, m);
        let (vx, w) = (be_value(x) as int, byte_pow(m) as int);
        assert((vx * w) * 256 == vx * (256 * w)) by (nonlinear_arith);
    }
}

/// Zero bytes stand for zero.
pub proof fn lemma_be_value_zeros(n: nat)
    ensures
        be_value(zero_bytes(n)) == 0,
    decreases n,
{
    if n > 0 {
        lemma_be_value_zeros((n - 1) as nat);
        assert(zero_bytes(n).drop_last() =~= zero_bytes((n - 1) as nat));
    }
}

/// Leading zero bytes do not change the value.
pub proof fn lemma_be_value_leading_zeros(n: nat, s: Seq<u8>)
    ensures
        be_value(zero_bytes(n) + s) == be_value(s),
{
    lemma_be_value_concat(zero_bytes(n), s);
    lemma_be_value_zeros(n);
    assert(0 * byte_pow(s.len()) == 0);
}

/// Two byte strings of one length with one value are the same string.
pub proof fn lemma_be_value_unique(a: Seq<u8>, b: Seq<u8>)
    requires
        a.len() == b.len(),
        be_value(a) == be_value(b),
    ensures
        a == b,
    decreases a.len(),
{
    if a.len() > 0 {
        lemma_be_value_unique(a.drop_last(), b.drop_last());
        assert(a =~= a.drop_last().push(a.last()));
        assert(b =~= b.drop_last().push(b.last()));
    } else {
        assert(a =~= b);
    }
}

/// The canonical bytes of `v` stand for `v mod 256^w`.
pub proof fn lemma_be_bytes_value(v: nat, w: nat)
    ensures
        be_bytes(v, w).len() == w,
        be_value(be_bytes(v, w)) == v % byte_pow(w),
    decreases w,
{
    lemma_npow(256, 0);
    if w > 0 {
        let m = (w - 1) as nat;
        lemma_be_bytes_value(v / 256, m);
        lemma_npow(256, m);
        assert(be_bytes(v, w).drop_last() =~= be_bytes(v / 256, m)) by {
            assert forall|i: int| 0 <= i < m implies be_bytes(v, w)[i] == be_bytes(v / 256, m)[i] by {
                let e = (m - 1 - i) as nat;
                lemma_npow(256, e);
                lemma_div_denominator(v as int, 256, byte_pow(e) as int);
            }
        }
        let one = byte_pow(0) as int;
        assert(v as int / one == v) by (nonlinear_arith)
            requires
                one == 1,
        ;
        assert(be_bytes(v, w).last() == v % 256);
        lemma_mod_breakdown(v as int, 256, byte_pow(m) as int);
    }
}

/// The bytes of a value are the canonical bytes of that value.
pub proof fn lemma_be_bytes_of_value(s: Seq<u8>)
    ensures
        be_bytes(be_value(s), s.len()) == s,
{
    lemma_be_bytes_value(be_value(s), s.len());
    lemma_be_value_bound(s);
    lemma_small_mod(be_value(s), byte_pow(s.len()));
    lemma_be_value_unique(be_bytes(be_value(s), s.len()), s);
}

/// At a width that holds it, a byte string is re-encoded with zero bytes
/// in front and nothing else changed.
pub proof fn lemma_be_bytes_pad(s: Seq<u8>, w: nat)
    requires
        s.len() <= w,
    ensures
        be_bytes(be_value(s), w) == zero_bytes((w - s.len()) as nat) + s,
{
    let padded = zero_bytes((w - s.len()) as nat) + s;
    lemma_be_value_leading_zeros((w - s.len()) as nat, s);
    lemma_be_bytes_value(be_value(s), w);
    lemma_be_value_bound(s);
    lemma_npow_increases(256, s.len(), w);
    lemma_small_mod(be_value(s), byte_pow(w));
    lemma_be_value_unique(be_bytes(be_value(s), w), padded);
}

/// At a width below its length, a byte string is re-encoded as its last
/// bytes: the value is taken modulo `256^w`.
pub proof fn lemma_be_bytes_low(s: Seq<u8>, w: nat)
    requires
        w <= s.len(),
    ensures
        be_bytes(be_value(s), w) == s.skip(s.len() - w),
        be_value(s.skip(s.len() - w)) == be_value(s) % byte_pow(w),
{
    let cut = s.len() - w;
    let (high, low) = (s.take(cut), s.skip(cut));
    assert(s =~= high + low);
    lemma_be_value_concat(high, low);
    lemma_be_value_bound(low);
    lemma_npow(256, w);
    lemma_fundamental_div_mod_converse(
        be_value(s) as int,
        byte_pow(w) as int,
        be_value(high) as int,
        be_value(low) as int,
    );
    lemma_be_bytes_value(be_value(s), w);
    lemma_be_value_unique(be_bytes(be_value(s), w), low);
}

/// The value of a byte string, least significant byte first.
pub open spec fn le_byte_value(s: Seq<u8>) -> nat {
    be_value(s.reverse())
}

/// The `w`-byte little-endian representation of `v mod 256^w`.
pub open spec fn le_bytes(v: nat, w: nat) -> Seq<u8> {
    be_bytes(v, w).reverse()
}

/// Appending a byte at the top adds it at the weight of its position.
pub proof fn lemma_le_byte_value_push(s: Seq<u8>, b: u8)
    ensures
        le_byte_value(s.push(b)) == le_byte_value(s) + b as nat * byte_pow(s.len()),
{
    assert(s.push(b).reverse() =~= seq![b] + s.reverse());
    lemma_be_value_concat(seq![b], s.reverse());
    assert(seq![b] =~= Seq::<u8>::empty().push(b));
    lemma_be_value_push(Seq::<u8>::empty(), b);
}

/// A byte string is the little-endian representation of its own value.
pub proof fn lemma_le_bytes_of_value(s: Seq<u8>)
    ensures
        le_bytes(le_byte_value(s), s.len()) == s,
{
    lemma_be_bytes_of_value(s.reverse());
    assert(s.reverse().reverse() =~= s);
}

/// The byte string that follows `s` when it is read as a big-endian
/// counter: the trailing `0xFF` bytes turn to zero and the byte before
/// them goes up by one.
pub open spec fn counter_successor(s: Seq<u8>) -> Seq<u8>
    decreases s.len(),
{
    if s.len() == 0 {
        s
    } else if s.last() == 0xFF {
        counter_successor(s.drop_last()).push(0)
    } else {
        s.drop_last().push((s.last() + 1) as u8)
    }
}

/// The successor of a counter stands for its value plus one, within its width.
pub proof fn lemma_counter_successor(s: Seq<u8>)
    ensures
        counter_successor(s).len() == s.len(),
        be_value(counter_successor(s)) == (be_value(s) + 1) % byte_pow(s.len()),
        counter_successor(s) == be_bytes((be_value(s) + 1) % byte_pow(s.len()), s.len()),
    decreases s.len(),
{
    let n = s.len();
    lemma_npow(256, 0);
    if n > 0 {
        let m = (n - 1) as nat;
        let front = s.drop_last();
        let w = byte_pow(m) as int;
        lemma_npow(256, m);
        lemma_be_value_bound(s);
        lemma_be_value_bound(front);
        if s.last() == 0xFF {
            lemma_counter_successor(front);
            lemma_be_value_push(counter_successor(front), 0);
            let x = be_value(front) as int + 1;
            lemma_truncate_middle(x, 256, w);
            assert(be_value(s) + 1 == 256 * x);
            assert((x % w) * 256 == 256 * (x % w));
        } else {
            lemma_be_value_push(front, (s.last() + 1) as u8);
            lemma_small_mod((be_value(s) + 1) as nat, byte_pow(n));
        }
    } else {
        assert(1nat % 1nat == 0);
    }
    let successor = counter_successor(s);
    let target = (be_value(s) + 1) % byte_pow(n);
    lemma_be_bytes_value(target, n);
    lemma_mod_bound(be_value(s) as int + 1, byte_pow(n) as int);
    lemma_small_mod(target, byte_pow(n));
    lemma_be_value_unique(successor, be_bytes(target, n));
}

/// Where two digit sequences agree above position `k`, the digits at `k`
/// decide which value is the smaller.
pub proof fn lemma_le_value_order(a: Seq<u32>, b: Seq<u32>, k: int)
    requires
        a.len() == b.len(),
        0 <= k < a.len(),
        a.skip(k + 1) == b.skip(k + 1),
        a[k] < b[k],
    ensures
        le_value(a) < le_value(b),
{
    lemma_le_value_split(a, k + 1);
    lemma_le_value_split(b, k + 1);
    assert(a.take(k + 1).drop_last() =~= a.take(k));
    assert(b.take(k + 1).drop_last() =~= b.take(k));
    assert(a.take(k + 1).last() == a[k]);
    assert(b.take(k + 1).last() == b[k]);
    lemma_le_value_bound(a.take(k));
    let w = radix_pow(k as nat) as int;
    let (x, y) = (a[k] as int, b[k] as int);
    assert(x * w + w <= y * w) by (nonlinear_arith)
        requires
            x + 1 <= y,
            w >= 0,
    ;
}

} // verus!
