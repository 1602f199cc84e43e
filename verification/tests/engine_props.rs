use rsaref::{NNDigit, NNDigits};
use std::cmp::Ordering;

fn number(digits: &[u32]) -> NNDigits {
    let digits: Vec<NNDigit> = digits.iter().map(|d| NNDigit::new(*d)).collect();
    NNDigits::new(&digits)
}

#[test]
fn zero_is_one_zero_digit() {
    assert_eq!(NNDigits::zero(), number(&[0]));
    assert_eq!(NNDigits::default(), number(&[0]));
    assert_eq!(NNDigit::default(), NNDigit::new(0));
}

#[test]
fn decode_of_no_bytes_is_one_zero_digit() {
    assert_eq!(NNDigits::decode(&[]), number(&[0]));
}

#[test]
fn decode_fills_the_top_digit_in_part() {
    assert_eq!(NNDigits::decode(&[0xAB, 1, 2, 3, 4]), number(&[0x01020304, 0xAB]));
    assert_eq!(NNDigits::decode(&[1, 2, 3, 4]), number(&[0x01020304]));
}

#[test]
fn encode_gives_four_bytes_for_each_digit() {
    assert_eq!(number(&[0x01020304, 0xAB]).encode(), vec![0, 0, 0, 0xAB, 1, 2, 3, 4]);
    assert_eq!(number(&[0]).encode(), vec![0, 0, 0, 0]);
    assert_eq!(number(&[]).encode(), Vec::<u8>::new());
}

#[test]
fn decode_then_encode_pads_with_zero_bytes() {
    let bytes: Vec<u8> = vec![1, 2, 3, 4, 5, 6, 7, 8, 9, 10];
    let encoded = NNDigits::decode(&bytes).encode();
    assert_eq!(encoded, vec![0, 0, 1, 2, 3, 4, 5, 6, 7, 8, 9, 10]);
    let whole: Vec<u8> = (1..=16).collect();
    assert_eq!(NNDigits::decode(&whole).encode(), whole);
}

#[test]
fn encode_then_decode_gives_the_digits_back() {
    let digits = number(&[0xFFFFFFFF, 0, 0x80000000, 7, 0]);
    assert_eq!(NNDigits::decode(&digits.encode()), digits);
}

#[test]
fn add_drops_the_carry_out_of_the_top_digit() {
    let a = number(&[0xFFFFFFFF, 0xFFFFFFFF]);
    let b = number(&[2, 0]);
    assert_eq!(a.add(&b), number(&[1, 0]));
}

#[test]
fn add_then_sub_recovers_the_operand() {
    let a = number(&[0xFFFFFFF0, 0xFFFFFFFF, 0x12345678]);
    let b = number(&[0x00000020, 0x00000001, 0xF0000000]);
    let sum = a.add(&b);
    assert_eq!(sum, number(&[0x10, 1, 0x02345679]));
    assert_eq!(sum.sub(&b), a);
    assert_eq!(sum.sub(&a), b);
}

#[test]
fn sub_wraps_where_the_second_is_larger() {
    assert_eq!(number(&[0, 0]).sub(&number(&[1, 0])), number(&[0xFFFFFFFF, 0xFFFFFFFF]));
    assert_eq!(number(&[5, 9]).sub(&number(&[5, 9])), number(&[0, 0]));
}

#[test]
fn mult_is_commutative() {
    let a = number(&[0xDEADBEEF, 0x12345678, 0x9ABCDEF0, 0]);
    let b = number(&[0xCAFEBABE, 0x0BADF00D, 0, 0x11]);
    assert_eq!(a.mult(&b), b.mult(&a));
}

#[test]
fn mult_gives_the_whole_product_at_twice_the_width() {
    assert_eq!(number(&[0xFFFFFFFF]).mult(&number(&[0xFFFFFFFF])), number(&[1, 0xFFFFFFFE]));
    assert_eq!(
        number(&[0xFFFFFFFF, 0xFFFFFFFF]).mult(&number(&[0xFFFFFFFF, 0xFFFFFFFF])),
        number(&[1, 0, 0xFFFFFFFE, 0xFFFFFFFF])
    );
    assert_eq!(number(&[7, 7]).mult(&number(&[0, 0])), number(&[0, 0, 0, 0]));
    assert_eq!(number(&[]).mult(&number(&[])), number(&[]));
}

#[test]
fn product_is_cut_down_by_the_caller() {
    let mut product = number(&[0xFFFFFFFF, 0]).mult(&number(&[0xFFFFFFFF, 0]));
    assert_eq!(product, number(&[1, 0xFFFFFFFE, 0, 0]));
    product.set_digit_count(2);
    assert_eq!(product, number(&[1, 0xFFFFFFFE]));
}

#[test]
fn divmod_reconstructs_the_dividend() {
    let n = number(&[0x89ABCDEF, 0x01234567, 0xFEDCBA98, 0x00000076]);
    let d = number(&[0x0000FFFF, 0x00000003, 0, 0]);
    let (q, r) = n.divmod(&d);
    let mut product = q.mult(&d);
    assert_ne!(product.compare(&{
        let mut wide = n.clone();
        wide.set_digit_count(8);
        wide
    }), Ordering::Greater);
    product.set_digit_count(4);
    assert_eq!(product.add(&r), n);
    assert_eq!(r.compare(&d), Ordering::Less);
}

#[test]
fn divmod_by_a_larger_number_leaves_the_dividend() {
    let n = number(&[5, 0]);
    let d = number(&[0, 1]);
    let (q, r) = n.divmod(&d);
    assert_eq!(q, number(&[0, 0]));
    assert_eq!(r, n);
}

#[test]
fn divmod_by_one_and_by_itself() {
    let n = number(&[0xFFFFFFFF, 0xFFFFFFFF]);
    let (q, r) = n.divmod(&number(&[1, 0]));
    assert_eq!((q, r), (number(&[0xFFFFFFFF, 0xFFFFFFFF]), number(&[0, 0])));
    let (q, r) = n.divmod(&n);
    assert_eq!((q, r), (number(&[1, 0]), number(&[0, 0])));
}

#[test]
fn compare_goes_by_the_most_significant_digit() {
    assert_eq!(number(&[9, 1]).compare(&number(&[0, 2])), Ordering::Less);
    assert_eq!(number(&[0, 2]).compare(&number(&[9, 1])), Ordering::Greater);
    assert_eq!(number(&[3, 2]).compare(&number(&[3, 2])), Ordering::Equal);
    assert_eq!(number(&[3, 2]).compare(&number(&[4, 2])), Ordering::Less);
    assert_eq!(number(&[]).compare(&number(&[])), Ordering::Equal);
}

#[test]
fn lshift_by_no_bits_changes_nothing() {
    let a = number(&[0x80000001, 0xFFFFFFFF]);
    assert_eq!(a.lshift(0), a);
    assert_eq!(a.rshift(0), a);
}

#[test]
fn lshift_drops_what_leaves_the_top_digit() {
    assert_eq!(number(&[0x80000001, 0xC0000000]).lshift(1), number(&[2, 0x80000001]));
    assert_eq!(number(&[1, 0]).lshift(31), number(&[0x80000000, 0]));
}

#[test]
fn rshift_halves() {
    assert_eq!(number(&[1, 1]).rshift(1), number(&[0x80000000, 0]));
    assert_eq!(number(&[0xFFFFFFFF, 0xFFFFFFFF]).rshift(31), number(&[0xFFFFFFFF, 1]));
}

#[test]
fn set_digit_count_to_the_same_count_changes_nothing() {
    let mut a = number(&[1, 2, 3]);
    a.set_digit_count(3);
    assert_eq!(a, number(&[1, 2, 3]));
    a.set_digit_count(0);
    assert_eq!(a, number(&[]));
}

#[test]
fn assign_copies_and_assign_zero_keeps_the_width() {
    let mut a = number(&[1]);
    let b = number(&[4, 5, 6]);
    a.assign(&b);
    assert_eq!(a, b);
    a.assign_zero();
    assert_eq!(a, number(&[0, 0, 0]));
}

#[test]
fn assign_2_exp_of_small_exponents() {
    let mut a = NNDigits::zero();
    a.assign_2_exp(0);
    assert_eq!(a, number(&[1]));
    a.assign_2_exp(31);
    assert_eq!(a, number(&[0x80000000]));
    a.assign_2_exp(32);
    assert_eq!(a, number(&[0, 1]));
}
