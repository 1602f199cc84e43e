use rsaref::pkcs1::{pad_type1, pad_type2, unpad};
use rsaref::{RSAError, RandomStruct};

fn seeded() -> RandomStruct {
    let mut generator = RandomStruct::new();
    let seed: Vec<u8> = (0..=255).collect();
    generator.random_update(&seed);
    generator
}

#[test]
fn block_of_type_1_layout() {
    let block = pad_type1(&[1, 2, 3], 16).unwrap();
    assert_eq!(
        block,
        vec![0, 1, 0xFF, 0xFF, 0xFF, 0xFF, 0xFF, 0xFF, 0xFF, 0xFF, 0xFF, 0xFF, 0, 1, 2, 3]
    );
}

#[test]
fn block_of_type_1_with_the_longest_payload() {
    let block = pad_type1(&[9, 8, 7, 6, 5], 16).unwrap();
    assert_eq!(
        block,
        vec![0, 1, 0xFF, 0xFF, 0xFF, 0xFF, 0xFF, 0xFF, 0xFF, 0xFF, 0, 9, 8, 7, 6, 5]
    );
    assert_eq!(pad_type1(&[], 11), Ok(vec![0, 1, 255, 255, 255, 255, 255, 255, 255, 255, 0]));
}

#[test]
fn padding_rejects_a_payload_that_is_too_long() {
    assert_eq!(pad_type1(&[0; 6], 16), Err(RSAError::Len));
    assert_eq!(pad_type1(&[], 10), Err(RSAError::Len));
    assert_eq!(pad_type1(&[], 0), Err(RSAError::Len));
    let mut generator = seeded();
    assert_eq!(pad_type2(&[0; 6], 16, &mut generator), Err(RSAError::Len));
}

#[test]
fn length_is_checked_before_the_generator_is_asked() {
    let mut generator = RandomStruct::new();
    assert_eq!(pad_type2(&[0; 6], 16, &mut generator), Err(RSAError::Len));
    assert_eq!(pad_type2(&[0; 5], 16, &mut generator), Err(RSAError::NeedRandom));
}

#[test]
fn block_of_type_2_has_nonzero_filler_from_the_generator() {
    let mut generator = seeded();
    let block = pad_type2(&[0, 0, 7], 64, &mut generator).unwrap();
    assert_eq!(block.len(), 64);
    assert_eq!(&block[..2], &[0, 2]);
    assert!(block[2..60].iter().all(|b| *b != 0));
    assert_eq!(&block[60..], &[0, 0, 0, 7]);
    // the filler is the generator's stream with the zero bytes left out
    let stream = seeded().generate_bytes(256).unwrap();
    let nonzero: Vec<u8> = stream.into_iter().filter(|b| *b != 0).take(58).collect();
    assert_eq!(&block[2..60], &nonzero[..]);
}

#[test]
fn block_of_type_2_is_a_function_of_the_generator() {
    let first = pad_type2(&[1, 2, 3], 32, &mut seeded());
    let second = pad_type2(&[1, 2, 3], 32, &mut seeded());
    assert_eq!(first, second);
    let mut generator = seeded();
    let third = pad_type2(&[1, 2, 3], 32, &mut generator);
    let fourth = pad_type2(&[1, 2, 3], 32, &mut generator);
    assert_ne!(third, fourth);
}

#[test]
fn unpad_gives_the_payload_back() {
    let payload: Vec<u8> = vec![0, 1, 2, 0, 255];
    let block = pad_type1(&payload, 20).unwrap();
    assert_eq!(unpad(&block, 1), Ok(payload.clone()));
    let block = pad_type2(&payload, 20, &mut seeded()).unwrap();
    assert_eq!(unpad(&block, 2), Ok(payload));
    let block = pad_type1(&[], 11).unwrap();
    assert_eq!(unpad(&block, 1), Ok(Vec::new()));
}

#[test]
fn unpad_rejects_the_other_block_type() {
    let block = pad_type1(&[1], 16).unwrap();
    assert_eq!(unpad(&block, 2), Err(RSAError::Data));
    let block = pad_type2(&[1], 16, &mut seeded()).unwrap();
    assert_eq!(unpad(&block, 1), Err(RSAError::Data));
}

#[test]
fn unpad_rejects_a_wrong_first_byte() {
    let mut block = pad_type1(&[1], 16).unwrap();
    block[0] = 1;
    assert_eq!(unpad(&block, 1), Err(RSAError::Data));
}

#[test]
fn unpad_rejects_a_block_without_separator() {
    let mut block = vec![0xFFu8; 16];
    block[0] = 0;
    block[1] = 1;
    assert_eq!(unpad(&block, 1), Err(RSAError::Data));
    block[1] = 2;
    assert_eq!(unpad(&block, 2), Err(RSAError::Data));
}

#[test]
fn unpad_rejects_filler_of_type_1_that_is_not_ff() {
    let mut block = pad_type1(&[1, 2], 16).unwrap();
    block[5] = 0xFE;
    assert_eq!(unpad(&block, 1), Err(RSAError::Data));
}

#[test]
fn unpad_rejects_fewer_than_eight_filler_bytes() {
    let short: Vec<u8> = vec![0, 1, 255, 255, 255, 255, 255, 255, 255, 0, 1, 2, 3, 4];
    assert_eq!(unpad(&short, 1), Err(RSAError::Data));
    let enough: Vec<u8> = vec![0, 1, 255, 255, 255, 255, 255, 255, 255, 255, 0, 1, 2, 3];
    assert_eq!(unpad(&enough, 1), Ok(vec![1, 2, 3]));
    let short: Vec<u8> = vec![0, 2, 9, 9, 9, 9, 9, 9, 9, 0, 1, 2, 3, 4];
    assert_eq!(unpad(&short, 2), Err(RSAError::Data));
    // with a zero byte among the first eight, the separator comes too early
    let early: Vec<u8> = vec![0, 2, 9, 9, 0, 9, 9, 9, 9, 9, 0, 1, 2, 3];
    assert_eq!(unpad(&early, 2), Err(RSAError::Data));
}

#[test]
fn unpad_rejects_blocks_that_are_too_short_to_hold_anything() {
    assert_eq!(unpad(&[], 1), Err(RSAError::Data));
    assert_eq!(unpad(&[0], 1), Err(RSAError::Data));
    assert_eq!(unpad(&[0, 1], 1), Err(RSAError::Data));
    assert_eq!(unpad(&[0, 1, 0], 1), Err(RSAError::Data));
}
