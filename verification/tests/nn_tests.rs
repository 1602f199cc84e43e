use rsaref::{NNDigit, NNDigits};
use std::cmp::Ordering;

#[test]
fn test_decode1() {
    let bytes = [1, 2, 3, 4, 5, 6, 7, 8];
    let correct_digits = NNDigits::new(&[NNDigit::new(84281096), NNDigit::new(16909060)]);
    let digits = NNDigits::decode(&bytes);

    assert_eq!(digits.cmp(&correct_digits), Ordering::Equal);
}

#[test]
fn test_decode2() {
    let bytes = [1, 2, 3, 4, 5, 6, 7, 8, 9, 10];
    let correct_digits = NNDigits::new(&[
        NNDigit::new(117967114),
        NNDigit::new(50595078),
        NNDigit::new(258),
    ]);
    let digits = NNDigits::decode(&bytes);

    assert_eq!(digits.cmp(&correct_digits), Ordering::Equal);
}

#[test]
fn test_decode3() {
    let bytes = [1];
    let correct_digits = NNDigits::new(&[NNDigit::new(1)]);
    let digits = NNDigits::decode(&bytes);

    assert_eq!(digits.cmp(&correct_digits), Ordering::Equal);
}

#[test]
fn test_encode1() {
    let original_digits = NNDigits::new(&[
        NNDigit::new(117967114),
        NNDigit::new(50595078),
        NNDigit::new(258),
    ]);

    let encoded_bytes = original_digits.encode();
    let decoded_digits = NNDigits::decode(&encoded_bytes);

    assert_eq!(original_digits.cmp(&decoded_digits), Ordering::Equal);
}

#[test]
fn test_encode2() {
    let original_digits = NNDigits::new(&[NNDigit::new(84281096), NNDigit::new(16909060)]);

    let encoded_bytes = original_digits.encode();
    let decoded_digits = NNDigits::decode(&encoded_bytes);

    assert_eq!(original_digits.cmp(&decoded_digits), Ordering::Equal);
}

#[test]
fn test_assign_2_exp() {
    let mut num = NNDigits::default();
    num.assign_2_exp(123);

    let correct_digits = NNDigits::new(&[
        NNDigit::new(0),
        NNDigit::new(0),
        NNDigit::new(0),
        NNDigit::new(134217728),
    ]);

    assert_eq!(num.cmp(&correct_digits), Ordering::Equal);
}

#[test]
fn test_add1() {
    let operand1 = NNDigits::new(&[NNDigit::new(12345), NNDigit::new(54321)]);
    let operand2 = NNDigits::new(&[NNDigit::new(5555555), NNDigit::new(9999999)]);
    let correct_result = NNDigits::new(&[NNDigit::new(5567900), NNDigit::new(10054320)]);
    let result = operand1.add(&operand2);
    assert_eq!(result.cmp(&correct_result), Ordering::Equal);
}

#[test]
fn test_add2() {
    let operand1 = NNDigits::new(&[
        NNDigit::new(0xFFFFFFFF),
        NNDigit::new(0xFFFFFFFF),
        NNDigit::new(0),
    ]);
    let operand2 = NNDigits::new(&[NNDigit::new(1), NNDigit::new(0), NNDigit::new(0)]);
    let correct_result = NNDigits::new(&[NNDigit::new(0), NNDigit::new(0), NNDigit::new(1)]);
    let result = operand1.add(&operand2);
    assert_eq!(result.cmp(&correct_result), Ordering::Equal);
}

#[test]
fn test_add3() {
    let operand1 = NNDigits::new(&[NNDigit::new(0xFFFFFFFF), NNDigit::new(1)]);
    let operand2 = NNDigits::new(&[NNDigit::new(0xFFFFFFFF), NNDigit::new(0)]);
    let correct_result = NNDigits::new(&[NNDigit::new(4294967294), NNDigit::new(2)]);
    let result = operand1.add(&operand2);
    assert_eq!(result.cmp(&correct_result), Ordering::Equal);
}

#[test]
fn test_add4() {
    let operand1 = NNDigits::new(&[NNDigit::new(1), NNDigit::new(1)]);
    let operand2 = NNDigits::new(&[NNDigit::new(0xFFFFFFFF), NNDigit::new(0xFFFFFFFF)]);
    let correct_result = NNDigits::new(&[NNDigit::new(0), NNDigit::new(1)]);
    let result = operand1.add(&operand2);
    assert_eq!(result.cmp(&correct_result), Ordering::Equal);
}

#[test]
fn test_set_digit_count1() {
    let mut operand = NNDigits::new(&[NNDigit::new(123), NNDigit::new(321)]);
    let correct_result = NNDigits::new(&[
        NNDigit::new(123),
        NNDigit::new(321),
        NNDigit::new(0),
        NNDigit::new(0),
    ]);
    operand.set_digit_count(4);
    assert_eq!(operand.cmp(&correct_result), Ordering::Equal);
}

#[test]
fn test_set_digit_count2() {
    let mut operand = NNDigits::new(&[NNDigit::new(123), NNDigit::new(321)]);
    let correct_result = NNDigits::new(&[NNDigit::new(123)]);
    operand.set_digit_count(1);
    assert_eq!(operand.cmp(&correct_result), Ordering::Equal);
}

#[test]
fn test_sub1() {
    let operand1 = NNDigits::new(&[NNDigit::new(1), NNDigit::new(1)]);
    let operand2 = NNDigits::new(&[NNDigit::new(0xFFFFFFFF), NNDigit::new(0xFFFFFFFF)]);
    let correct_result = NNDigits::new(&[NNDigit::new(2), NNDigit::new(1)]);
    let result = operand1.sub(&operand2);
    assert_eq!(result.cmp(&correct_result), Ordering::Equal);
}

#[test]
fn test_sub2() {
    let operand1 = NNDigits::new(&[NNDigit::new(12345), NNDigit::new(12)]);
    let operand2 = NNDigits::new(&[NNDigit::new(100), NNDigit::new(1)]);
    let correct_result = NNDigits::new(&[NNDigit::new(12245), NNDigit::new(11)]);
    let result = operand1.sub(&operand2);
    assert_eq!(result.cmp(&correct_result), Ordering::Equal);
}

#[test]
fn test_sub3() {
    let operand1 = NNDigits::new(&[NNDigit::new(12345), NNDigit::new(0xFFFFFFFF)]);
    let operand2 = NNDigits::new(&[NNDigit::new(0xFFFFFFFF), NNDigit::new(1)]);
    let correct_result = NNDigits::new(&[NNDigit::new(12346), NNDigit::new(4294967293)]);
    let result = operand1.sub(&operand2);
    assert_eq!(result.cmp(&correct_result), Ordering::Equal);
}

#[test]
fn test_sub4() {
    let operand1 = NNDigits::new(&[NNDigit::new(1), NNDigit::new(0)]);
    let operand2 = NNDigits::new(&[NNDigit::new(0xFFFFFFFF), NNDigit::new(0xFFFFFFFF)]);
    let correct_result = NNDigits::new(&[NNDigit::new(2), NNDigit::new(0)]);
    let result = operand1.sub(&operand2);
    assert_eq!(result.cmp(&correct_result), Ordering::Equal);
}

#[test]
fn test_mult1() {
    let operand1 = NNDigits::new(&[NNDigit::new(123)]);
    let operand2 = NNDigits::new(&[NNDigit::new(456)]);
    let correct_result = NNDigits::new(&[NNDigit::new(56088), NNDigit::new(0)]);
    let result = operand1.mult(&operand2);
    assert_eq!(result.cmp(&correct_result), Ordering::Equal);
}

#[test]
fn test_mult2() {
    let operand1 = NNDigits::new(&[
        NNDigit::new(1),
        NNDigit::new(0xFF),
        NNDigit::new(123),
        NNDigit::new(0),
        NNDigit::new(0),
        NNDigit::new(0),
    ]);
    let operand2 = NNDigits::new(&[
        NNDigit::new(0xFFFFFFFF),
        NNDigit::new(0xFFFFFFFF),
        NNDigit::new(0x666),
        NNDigit::new(0),
        NNDigit::new(0),
        NNDigit::new(0),
    ]);
    let correct_result = NNDigits::new(&[
        NNDigit::new(4294967295),
        NNDigit::new(4294967040),
        NNDigit::new(1515),
        NNDigit::new(417945),
        NNDigit::new(201597),
        NNDigit::new(0),
        NNDigit::new(0),
        NNDigit::new(0),
        NNDigit::new(0),
        NNDigit::new(0),
        NNDigit::new(0),
        NNDigit::new(0),
    ]);
    let result = operand1.mult(&operand2);
    assert_eq!(result.cmp(&correct_result), Ordering::Equal);
}

#[test]
fn test_mult3() {
    let operand1 = NNDigits::new(&[
        NNDigit::new(1),
        NNDigit::new(0),
        NNDigit::new(0xF0F0F0F0),
        NNDigit::new(0),
        NNDigit::new(0),
        NNDigit::new(0),
    ]);
    let operand2 = NNDigits::new(&[
        NNDigit::new(0xFFFFFFFF),
        NNDigit::new(0xFFFFFFFF),
        NNDigit::new(0x10),
        NNDigit::new(0),
        NNDigit::new(0),
        NNDigit::new(0),
    ]);
    let correct_result = NNDigits::new(&[
        NNDigit::new(4294967295),
        NNDigit::new(4294967295),
        NNDigit::new(252645152),
        NNDigit::new(4294967295),
        NNDigit::new(4294967279),
        NNDigit::new(15),
        NNDigit::new(0),
        NNDigit::new(0),
        NNDigit::new(0),
        NNDigit::new(0),
        NNDigit::new(0),
        NNDigit::new(0),
    ]);
    let result = operand1.mult(&operand2);
    assert_eq!(result.cmp(&correct_result), Ordering::Equal);
}

#[test]
fn test_mult4() {
    let operand1 = NNDigits::new(&[
        NNDigit::new(0xFFFFFFFF),
        NNDigit::new(0xFFFFFFFF),
        NNDigit::new(0xFFFFFFFF),
        NNDigit::new(0),
        NNDigit::new(0),
        NNDigit::new(0),
    ]);
    let operand2 = NNDigits::new(&[
        NNDigit::new(0xFFFFFFFF),
        NNDigit::new(0xFFFFFFFF),
        NNDigit::new(0xFFFFFFFF),
        NNDigit::new(0),
        NNDigit::new(0),
        NNDigit::new(0),
    ]);
    let correct_result = NNDigits::new(&[
        NNDigit::new(1),
        NNDigit::new(0),
        NNDigit::new(0),
        NNDigit::new(4294967294),
        NNDigit::new(4294967295),
        NNDigit::new(4294967295),
        NNDigit::new(0),
        NNDigit::new(0),
        NNDigit::new(0),
        NNDigit::new(0),
        NNDigit::new(0),
        NNDigit::new(0),
    ]);
    let result = operand1.mult(&operand2);
    assert_eq!(result.cmp(&correct_result), Ordering::Equal);
}

#[test]
fn test_lshift1() {
    let operand = NNDigits::new(&[NNDigit::new(1)]);
    let bits = 3;
    let correct_result = NNDigits::new(&[NNDigit::new(8)]);
    let result = operand.lshift(bits);
    assert_eq!(result.cmp(&correct_result), Ordering::Equal);
}

#[test]
fn test_lshift2() {
    let operand = NNDigits::new(&[NNDigit::new(1)]);
    let bits = 31;
    let correct_result = NNDigits::new(&[NNDigit::new(2147483648)]);
    let result = operand.lshift(bits);
    assert_eq!(result.cmp(&correct_result), Ordering::Equal);
}

#[test]
fn test_lshift3() {
    let operand = NNDigits::new(&[NNDigit::new(123), NNDigit::new(456)]);
    let bits = 16;
    let correct_result = NNDigits::new(&[NNDigit::new(8060928), NNDigit::new(29884416)]);
    let result = operand.lshift(bits);
    assert_eq!(result.cmp(&correct_result), Ordering::Equal);
}

#[test]
fn test_lshift4() {
    let operand = NNDigits::new(&[NNDigit::new(0x80000000), NNDigit::new(0)]);
    let bits = 1;
    let correct_result = NNDigits::new(&[NNDigit::new(0), NNDigit::new(1)]);
    let result = operand.lshift(bits);
    assert_eq!(result.cmp(&correct_result), Ordering::Equal);
}

#[test]
fn test_rshift1() {
    let operand = NNDigits::new(&[NNDigit::new(123)]);
    let bits = 4;
    let correct_result = NNDigits::new(&[NNDigit::new(7)]);
    let result = operand.rshift(bits);
    assert_eq!(result.cmp(&correct_result), Ordering::Equal);
}

#[test]
fn test_rshift2() {
    let operand = NNDigits::new(&[NNDigit::new(123), NNDigit::new(456), NNDigit::new(789)]);
    let bits = 15;
    let correct_result = NNDigits::new(&[
        NNDigit::new(59768832),
        NNDigit::new(103415808),
        NNDigit::new(0),
    ]);
    let result = operand.rshift(bits);
    assert_eq!(result.cmp(&correct_result), Ordering::Equal);
}

#[test]
fn test_divmod1() {
    let divisor = NNDigits::new(&[NNDigit::new(123)]);
    let dividend = NNDigits::new(&[NNDigit::new(2)]);
    let correct_quotient = NNDigits::new(&[NNDigit::new(61)]);
    let correct_mod = NNDigits::new(&[NNDigit::new(1)]);

    let (quotient, modulus) = divisor.divmod(&dividend);
    println!("{quotient:?}");
    println!("{modulus:?}");
    assert_eq!(quotient.cmp(&correct_quotient), Ordering::Equal);
    assert_eq!(modulus.cmp(&correct_mod), Ordering::Equal);
}

#[test]
fn test_divmod2() {
    let divisor = NNDigits::new(&[NNDigit::new(0), NNDigit::new(1)]);
    let dividend = NNDigits::new(&[NNDigit::new(4), NNDigit::new(0)]);
    let correct_quotient = NNDigits::new(&[NNDigit::new(1073741824), NNDigit::new(0)]);
    let correct_mod = NNDigits::new(&[NNDigit::new(0), NNDigit::new(0)]);

    let (quotient, modulus) = divisor.divmod(&dividend);
    assert_eq!(quotient.cmp(&correct_quotient), Ordering::Equal);
    assert_eq!(modulus.cmp(&correct_mod), Ordering::Equal);
}

#[test]
fn test_divmod3() {
    let divisor = NNDigits::new(&[
        NNDigit::new(123),
        NNDigit::new(456),
        NNDigit::new(789),
        NNDigit::new(123),
        NNDigit::new(456),
        NNDigit::new(789),
    ]);
    let dividend = NNDigits::new(&[
        NNDigit::new(1),
        NNDigit::new(2),
        NNDigit::new(3),
        NNDigit::new(0),
        NNDigit::new(0),
        NNDigit::new(0),
    ]);
    let correct_quotient = NNDigits::new(&[
        NNDigit::new(2386093233),
        NNDigit::new(2863311499),
        NNDigit::new(4294967272),
        NNDigit::new(262),
        NNDigit::new(0),
        NNDigit::new(0),
    ]);
    let correct_mod = NNDigits::new(&[
        NNDigit::new(1908874186),
        NNDigit::new(954437082),
        NNDigit::new(2),
        NNDigit::new(0),
        NNDigit::new(0),
        NNDigit::new(0),
    ]);

    let (quotient, modulus) = divisor.divmod(&dividend);
    assert_eq!(quotient.cmp(&correct_quotient), Ordering::Equal);
    assert_eq!(modulus.cmp(&correct_mod), Ordering::Equal);
}
