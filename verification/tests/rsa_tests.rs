use rsaref::rsa::to_be;
use rsaref::{RSAError, RSAPrivateKey, RSAPublicKey, RandomStruct};

const P: &str = "ef1378e088048019795cc170c317e6321757eae45c33dc610c4381b53ebce855";
const Q: &str = "eb50a57ff6fe76962516ac973cc07e1659e499bffbb81a10393b8b56301f7039";
const N: &str = "dbc2309af142ac46ae68a18f76fdb8a8f10512fe8eea3e3ad6b6b1acaf31757e8814718c8bfe9836075fa23ede9042e73122a62c8f5b540012b064cbafffeaed";
const QINV: &str = "295f794e331902961ccda0166c8c96c0163cf93172be56b7fdc8c1f86d1daf6d";
const D: &str = "0006de0aa6cce3487eecf45818239fca257d62ab35494208afce05e7877df20db9d7b3aae5b582278a0bbd55e461115de3981b98f0a8cad221a447e6761b9301";
const DP: &str = "8e194bca60ee13d99049f26bfc79730828d9c7b26d9f2188c94a428920be1575";
const DQ: &str = "ea0a55f0c61a249c04db5e61353d46aab8519351ccec388ff63c70c3122dd291";
const HELLO: &str = "0fe0e8a5f78992402aa9b33f6af99ca5ed9ee39b329bfc8c37e0a41a21e9b7c78abd5c9a66741ad7fefc6d08b72cbc9af1c855414e15ab440e424b7f7e5f57c9";

fn hex(text: &str) -> Vec<u8> {
    (0..text.len() / 2).map(|i| u8::from_str_radix(&text[2 * i..2 * i + 2], 16).unwrap()).collect()
}

fn seeded() -> RandomStruct {
    let mut generator = RandomStruct::new();
    let seed: Vec<u8> = (0..=255).collect();
    generator.random_update(&seed);
    generator
}

/// The key with the modulus 3233 = 61 * 53 and the exponents 17 and 2753.
fn small_key() -> RSAPrivateKey {
    RSAPrivateKey::from_components(
        12,
        vec![0x0C, 0xA1],
        vec![17],
        vec![0x0A, 0xC1],
        vec![61],
        vec![53],
        vec![53],
        vec![49],
        vec![38],
    )
}

fn key_512() -> RSAPrivateKey {
    RSAPrivateKey::from_components(
        512,
        hex(N),
        vec![1, 0, 1],
        hex(D),
        hex(P),
        hex(Q),
        hex(DP),
        hex(DQ),
        hex(QINV),
    )
}

#[test]
fn public_block_raises_to_the_public_exponent() {
    let key = small_key().public_key();
    assert_eq!(key.rsa_public_block(&[0, 65]), Ok(vec![0x0A, 0xE6]));
    assert_eq!(key.rsa_public_block(&[65]), Ok(vec![0x0A, 0xE6]));
    assert_eq!(key.rsa_public_block(&[0, 0, 0, 65]), Ok(vec![0x0A, 0xE6]));
    assert_eq!(key.rsa_public_block(&[]), Ok(vec![0, 0]));
    assert_eq!(key.rsa_public_block(&[1]), Ok(vec![0, 1]));
}

#[test]
fn private_block_undoes_the_public_block() {
    let key = small_key();
    assert_eq!(key.rsa_private_block(&[0x0A, 0xE6]), Ok(vec![0, 65]));
    assert_eq!(key.rsa_private_block(&[0]), Ok(vec![0, 0]));
    for x in 0u16..3233 {
        let input = x.to_be_bytes();
        let there = key.public_key().rsa_public_block(&input).unwrap();
        assert_eq!(key.rsa_private_block(&there), Ok(input.to_vec()));
    }
}

#[test]
fn private_block_where_the_first_half_is_the_smaller() {
    // 6^2753 is 35 modulo 61 and 40 modulo 53
    assert_eq!(small_key().rsa_private_block(&[6]), Ok(vec![0x0B, 0x56]));
}

#[test]
fn block_rejects_input_that_is_not_below_the_modulus() {
    let key = small_key();
    assert_eq!(key.rsa_private_block(&[0x0C, 0xA1]), Err(RSAError::Data));
    assert_eq!(key.rsa_private_block(&[0xFF, 0xFF]), Err(RSAError::Data));
    assert_eq!(key.public_key().rsa_public_block(&[0x0C, 0xA1]), Err(RSAError::Data));
    assert_eq!(key.public_key().rsa_public_block(&[1, 0, 0]), Err(RSAError::Data));
    assert!(key.rsa_private_block(&[0x0C, 0xA0]).is_ok());
    assert!(key.public_key().rsa_public_block(&[0x0C, 0xA0]).is_ok());
}

#[test]
fn private_block_with_a_zero_prime_is_a_key_error() {
    let key = RSAPrivateKey::from_components(
        12,
        vec![0x0C, 0xA1],
        vec![17],
        vec![0x0A, 0xC1],
        vec![],
        vec![53],
        vec![53],
        vec![49],
        vec![38],
    );
    assert_eq!(key.rsa_private_block(&[65]), Err(RSAError::Key));
    assert_eq!(key.rsa_private_block(&[0x0C, 0xA1]), Err(RSAError::Data));
    let key = RSAPrivateKey::from_components(
        12,
        vec![0x0C, 0xA1],
        vec![17],
        vec![0x0A, 0xC1],
        vec![61],
        vec![0, 0],
        vec![53],
        vec![49],
        vec![38],
    );
    assert_eq!(key.rsa_private_block(&[65]), Err(RSAError::Key));
}

#[test]
fn to_be_pads_and_cuts() {
    assert_eq!(to_be(&[1, 2], 4), vec![0, 0, 1, 2]);
    assert_eq!(to_be(&[1, 2, 3, 4], 2), vec![3, 4]);
    assert_eq!(to_be(&[1, 2], 2), vec![1, 2]);
    assert_eq!(to_be(&[], 3), vec![0, 0, 0]);
    assert_eq!(to_be(&[9], 0), Vec::<u8>::new());
}

#[test]
fn public_key_layout() {
    let encoded = small_key().public_key().encode();
    assert_eq!(encoded.len(), 260);
    assert_eq!(&encoded[..4], &[12, 0, 0, 0]);
    assert!(encoded[4..130].iter().all(|b| *b == 0));
    assert_eq!(&encoded[130..132], &[0x0C, 0xA1]);
    assert!(encoded[132..259].iter().all(|b| *b == 0));
    assert_eq!(encoded[259], 17);
}

#[test]
fn private_key_layout() {
    let encoded = key_512().encode();
    assert_eq!(encoded.len(), 708);
    assert_eq!(&encoded[..4], &[0, 2, 0, 0]);
    assert_eq!(&encoded[4..132], &[vec![0u8; 64], hex(N)].concat()[..]);
    assert_eq!(&encoded[132..260], &[vec![0u8; 125], vec![1, 0, 1]].concat()[..]);
    assert_eq!(&encoded[260..388], &[vec![0u8; 64], hex(D)].concat()[..]);
    assert_eq!(&encoded[388..452], &[vec![0u8; 32], hex(P)].concat()[..]);
    assert_eq!(&encoded[452..516], &[vec![0u8; 32], hex(Q)].concat()[..]);
    assert_eq!(&encoded[516..580], &[vec![0u8; 32], hex(DP)].concat()[..]);
    assert_eq!(&encoded[580..644], &[vec![0u8; 32], hex(DQ)].concat()[..]);
    assert_eq!(&encoded[644..708], &[vec![0u8; 32], hex(QINV)].concat()[..]);
}

#[test]
fn bit_length_is_written_least_significant_byte_first() {
    let key = RSAPrivateKey::from_components(
        0x01020304,
        vec![1],
        vec![1],
        vec![1],
        vec![1],
        vec![1],
        vec![1],
        vec![1],
        vec![1],
    );
    assert_eq!(&key.encode()[..4], &[4, 3, 2, 1]);
    assert_eq!(&key.public_key().encode()[..4], &[4, 3, 2, 1]);
    let again = RSAPrivateKey::decode(&key.encode()).unwrap();
    assert_eq!(again.encode(), key.encode());
}

#[test]
fn encoding_keeps_the_low_bytes_of_a_number_that_is_too_wide() {
    let mut wide = vec![0xEEu8, 0xDD];
    wide.extend(vec![7u8; 128]);
    let key = RSAPrivateKey::from_components(
        8,
        wide,
        vec![1],
        vec![1],
        vec![1],
        vec![1],
        vec![1],
        vec![1],
        vec![1],
    );
    assert_eq!(&key.public_key().encode()[4..132], &vec![7u8; 128][..]);
}

#[test]
fn decode_reads_what_encode_wrote() {
    let key = key_512();
    let encoded = key.encode();
    let decoded = RSAPrivateKey::decode(&encoded).unwrap();
    assert_eq!(decoded.encode(), encoded);
    let public_encoded = key.public_key().encode();
    let public_decoded = RSAPublicKey::decode(&public_encoded).unwrap();
    assert_eq!(public_decoded.encode(), public_encoded);
    assert_eq!(decoded.public_key().encode(), public_encoded);
    // a decoded key does what the key did
    assert_eq!(decoded.encrypt(b"hello"), Ok(hex(HELLO)));
    assert_eq!(public_decoded.decrypt(&hex(HELLO)), Ok(b"hello".to_vec()));
}

#[test]
fn decode_rejects_short_data() {
    let encoded = key_512().encode();
    assert_eq!(RSAPrivateKey::decode(&encoded[..707]).err(), Some(RSAError::Len));
    assert_eq!(RSAPrivateKey::decode(&[]).err(), Some(RSAError::Len));
    let public_encoded = key_512().public_key().encode();
    assert_eq!(RSAPublicKey::decode(&public_encoded[..259]).err(), Some(RSAError::Len));
    assert_eq!(RSAPublicKey::decode(&[]).err(), Some(RSAError::Len));
}

#[test]
fn decode_does_not_read_beyond_the_layout() {
    let mut encoded = key_512().encode();
    let exact = RSAPrivateKey::decode(&encoded).unwrap().encode();
    encoded.extend([1, 2, 3]);
    assert_eq!(RSAPrivateKey::decode(&encoded).unwrap().encode(), exact);
}

#[test]
fn private_encrypt_of_a_known_message() {
    let key = key_512();
    assert_eq!(key.rsa_private_encrypt(b"hello"), Ok(hex(HELLO)));
    assert_eq!(key.encrypt(b"hello"), Ok(hex(HELLO)));
    assert_eq!(key.public_key().rsa_public_decrypt(&hex(HELLO)), Ok(b"hello".to_vec()));
    assert_eq!(key.public_key().decrypt(&hex(HELLO)), Ok(b"hello".to_vec()));
}

#[test]
fn decrypt_rejects_a_changed_block() {
    let mut changed = hex(HELLO);
    changed[63] ^= 1;
    assert_eq!(key_512().public_key().decrypt(&changed), Err(RSAError::Data));
}

#[test]
fn one_block_holds_the_modulus_length_less_eleven_bytes() {
    let key = key_512();
    let longest = vec![0xA5u8; 53];
    let block = key.rsa_private_encrypt(&longest).unwrap();
    assert_eq!(block.len(), 64);
    assert_eq!(key.public_key().rsa_public_decrypt(&block), Ok(longest));
    assert_eq!(key.rsa_private_encrypt(&[0xA5u8; 54]), Err(RSAError::Len));
    let mut generator = seeded();
    assert_eq!(
        key.public_key().rsa_public_encrypt(&[0xA5u8; 54], &mut generator),
        Err(RSAError::Len)
    );
    assert!(key.public_key().rsa_public_encrypt(&[0xA5u8; 53], &mut generator).is_ok());
}

#[test]
fn decrypt_of_one_block_rejects_more_bytes_than_the_modulus_has() {
    let key = key_512();
    assert_eq!(key.rsa_private_decrypt(&[0u8; 65]), Err(RSAError::Len));
    assert_eq!(key.public_key().rsa_public_decrypt(&[0u8; 65]), Err(RSAError::Len));
}

#[test]
fn message_is_cut_into_chunks_that_are_encrypted_one_by_one() {
    let key = key_512();
    let message: Vec<u8> = (0..=255).collect();
    let cipher = key.encrypt(&message).unwrap();
    assert_eq!(cipher.len(), 5 * 64);
    let mut by_hand: Vec<u8> = Vec::new();
    for chunk in message.chunks(53) {
        by_hand.extend(key.rsa_private_encrypt(chunk).unwrap());
    }
    assert_eq!(cipher, by_hand);
    assert_eq!(key.public_key().decrypt(&cipher), Ok(message));
}

#[test]
fn public_encrypt_then_private_decrypt() {
    let key = key_512();
    let mut generator = seeded();
    for len in [0usize, 1, 52, 53, 54, 106, 256] {
        let message: Vec<u8> = (0..len).map(|i| (i * 7) as u8).collect();
        let cipher = key.public_key().encrypt(&message, &mut generator).unwrap();
        assert_eq!(cipher.len(), (len + 52) / 53 * 64);
        assert_eq!(key.decrypt(&cipher), Ok(message));
    }
}

#[test]
fn private_encrypt_then_public_decrypt() {
    let key = key_512();
    for len in [0usize, 1, 52, 53, 54, 106, 256] {
        let message: Vec<u8> = (0..len).map(|i| (i * 11) as u8).collect();
        let cipher = key.encrypt(&message).unwrap();
        assert_eq!(key.public_key().decrypt(&cipher), Ok(message));
    }
}

#[test]
fn public_encrypt_is_a_function_of_the_generator() {
    let key = key_512().public_key();
    let message = b"the same message";
    let first = key.encrypt(message, &mut seeded());
    let second = key.encrypt(message, &mut seeded());
    assert_eq!(first, second);
    let mut generator = seeded();
    let third = key.encrypt(message, &mut generator);
    let fourth = key.encrypt(message, &mut generator);
    assert_ne!(third, fourth);
}

#[test]
fn public_encrypt_needs_a_seeded_generator() {
    let key = key_512().public_key();
    let mut generator = RandomStruct::new();
    assert_eq!(key.encrypt(b"message", &mut generator), Err(RSAError::NeedRandom));
    assert_eq!(key.encrypt(b"", &mut generator), Ok(Vec::new()));
}

#[test]
fn key_too_short_for_padding_encrypts_nothing() {
    let key = small_key();
    assert_eq!(key.encrypt(&[1]), Err(RSAError::Len));
    assert_eq!(key.encrypt(&[]), Ok(Vec::new()));
    let mut generator = seeded();
    assert_eq!(key.public_key().encrypt(&[1], &mut generator), Err(RSAError::Len));
    // a block can still be transformed, but holds no padding
    assert_eq!(key.public_key().decrypt(&[0x0A, 0xE6]), Err(RSAError::Data));
    assert_eq!(key.decrypt(&[0x0A, 0xE6]), Err(RSAError::Data));
}

#[test]
fn key_of_no_bits_decrypts_nothing() {
    let key = RSAPrivateKey::from_components(
        0,
        vec![0x0C, 0xA1],
        vec![17],
        vec![0x0A, 0xC1],
        vec![61],
        vec![53],
        vec![53],
        vec![49],
        vec![38],
    );
    assert_eq!(key.decrypt(&[1]), Err(RSAError::Len));
    assert_eq!(key.public_key().decrypt(&[1]), Err(RSAError::Len));
    assert_eq!(key.decrypt(&[]), Ok(Vec::new()));
}

#[test]
fn decrypt_stops_at_the_first_block_that_fails() {
    let key = key_512();
    let mut cipher = key.encrypt(&[1u8; 100]).unwrap();
    cipher.extend([0u8; 3]);
    // the last block, of three zero bytes, stands for zero: no padding
    assert_eq!(key.public_key().decrypt(&cipher), Err(RSAError::Data));
}

#[test]
fn encrypt_then_decrypt_gives_the_message_back() {
    let key = key_512();
    let mut generator = seeded();
    let message: Vec<u8> = (0..200).map(|i: u32| (i * 13) as u8).collect();
    assert_eq!(rsaref::laws::encrypt_then_decrypt(&key, &message, &mut generator), Ok(message));
    let mut unseeded = RandomStruct::new();
    assert_eq!(
        rsaref::laws::encrypt_then_decrypt(&key, b"message", &mut unseeded),
        Err(RSAError::NeedRandom)
    );
}
