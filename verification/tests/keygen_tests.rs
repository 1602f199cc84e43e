use rsaref::r_keygen::{key_from_primes, mod_inv};
use rsaref::{generate_pem_keys, RSAError, RSAProtoKey, RandomStruct};

const P: &str = "ef1378e088048019795cc170c317e6321757eae45c33dc610c4381b53ebce855";
const Q: &str = "eb50a57ff6fe76962516ac973cc07e1659e499bffbb81a10393b8b56301f7039";
const R: &str = "dbd1d4d74706b0f94724ffe7111084ea3bc7df18456992c7cf4ebf21d96eb98f";
const N: &str = "dbc2309af142ac46ae68a18f76fdb8a8f10512fe8eea3e3ad6b6b1acaf31757e8814718c8bfe9836075fa23ede9042e73122a62c8f5b540012b064cbafffeaed";
const QINV: &str = "295f794e331902961ccda0166c8c96c0163cf93172be56b7fdc8c1f86d1daf6d";
const F4_D: &str = "0006de0aa6cce3487eecf45818239fca257d62ab35494208afce05e7877df20db9d7b3aae5b582278a0bbd55e461115de3981b98f0a8cad221a447e6761b9301";
const F4_DP: &str = "8e194bca60ee13d99049f26bfc79730828d9c7b26d9f2188c94a428920be1575";
const F4_DQ: &str = "ea0a55f0c61a249c04db5e61353d46aab8519351ccec388ff63c70c3122dd291";
const E3_D: &str = "928175bca0d71d847445c10a4f53d070a0ae0ca9b49c297c8f2476731f764e531e758cc808a7c10445f2cd79e9cfe9bf2a996bb024f4e909de20e52ad617b6eb";
const E3_DP: &str = "9f625095b0030010fb932ba0820feecc0f8ff1ed92cd3d96082d01237f289ae3";
const E3_DQ: &str = "9ce06e554f544f0ec364730f7dd5a9643bedbbd5527abc0ad0d25ce42014f57b";
const E3_HELLO: &str = "563c7eb7eff36152b6c8e035bfc74b33aa4eb6f87b5f19d2bb83cf50f8bd8ab1c89b0438351ace1cfe547b4adab86a9efda06d701eb8872eabc47abf6c9f015b";

fn hex(text: &str) -> Vec<u8> {
    (0..text.len() / 2).map(|i| u8::from_str_radix(&text[2 * i..2 * i + 2], 16).unwrap()).collect()
}

fn significant(bytes: &[u8]) -> &[u8] {
    let zeros = bytes.iter().take_while(|b| **b == 0).count();
    &bytes[zeros..]
}

fn field(encoded: &[u8], from: usize, to: usize) -> Vec<u8> {
    significant(&encoded[from..to]).to_vec()
}

#[test]
fn test_prime_length() {
    match generate_pem_keys(&RSAProtoKey {
        bits: 512,
        use_fermat4: true,
    }) {
        Ok((_, private_key)) => {
            let encoded = private_key.encode();
            let primes = [field(&encoded, 388, 452), field(&encoded, 452, 516)];
            assert!(primes[0].len() == 32);
            assert!(primes[1].len() == 32);
            assert!(primes[0] != primes[1]);
        }
        Err(_) => assert!(false, "generate_primes returned an error."),
    }
}

#[test]
fn test_prime_crypt() {
    match generate_pem_keys(&RSAProtoKey {
        bits: 512,
        use_fermat4: true,
    }) {
        Ok((public_key, private_key)) => {
            let data = (0u8..=255).collect::<Vec<u8>>();

            let encrypted_data = private_key.encrypt(&data).unwrap();
            let decrypted_data = public_key.decrypt(&encrypted_data).unwrap();

            assert!(data == decrypted_data);
        }
        Err(_) => assert!(false, "generate_primes returned an error."),
    }
}

#[test]
fn generated_key_decrypts_what_its_public_key_encrypts() {
    let (public_key, private_key) = generate_pem_keys(&RSAProtoKey {
        bits: 512,
        use_fermat4: true,
    })
    .unwrap();
    let mut generator = RandomStruct::new();
    generator.random_update(&[0x5Au8; 256]);
    let data = (0u8..=255).collect::<Vec<u8>>();
    let encrypted = public_key.encrypt(&data, &mut generator).unwrap();
    assert_eq!(encrypted.len(), 5 * 64);
    assert_eq!(private_key.decrypt(&encrypted), Ok(data));
}

#[test]
fn generated_key_holds_the_numbers_of_its_primes() {
    let (public_key, private_key) = generate_pem_keys(&RSAProtoKey {
        bits: 508,
        use_fermat4: true,
    })
    .unwrap();
    let encoded = private_key.encode();
    assert_eq!(&encoded[..4], &[0xFC, 1, 0, 0]);
    let (p, q) = (field(&encoded, 388, 452), field(&encoded, 452, 516));
    assert!(p > q);
    // the same primes give the same key
    let (_, again) = key_from_primes(
        &RSAProtoKey {
            bits: 508,
            use_fermat4: true,
        },
        &q,
        &p,
    )
    .unwrap();
    assert_eq!(again.encode(), encoded);
    assert_eq!(public_key.encode(), again.public_key().encode());
    assert_eq!(field(&encoded, 132, 260), vec![1, 0, 1]);
    assert_eq!(significant(&encoded[4..132]).len(), 64);
}

#[test]
fn unsupported_bit_lengths_are_rejected() {
    for bits in [0u32, 1, 507, 1025, 2048, u32::MAX] {
        let proto_key = RSAProtoKey {
            bits,
            use_fermat4: true,
        };
        assert_eq!(generate_pem_keys(&proto_key).err(), Some(RSAError::ModulusLen));
        assert_eq!(
            key_from_primes(&proto_key, &hex(P), &hex(Q)).err(),
            Some(RSAError::ModulusLen)
        );
    }
}

#[test]
fn key_of_known_primes() {
    let proto_key = RSAProtoKey {
        bits: 512,
        use_fermat4: true,
    };
    let (public_key, private_key) = key_from_primes(&proto_key, &hex(P), &hex(Q)).unwrap();
    let encoded = private_key.encode();
    assert_eq!(&encoded[..4], &[0, 2, 0, 0]);
    assert_eq!(field(&encoded, 4, 132), hex(N));
    assert_eq!(field(&encoded, 132, 260), vec![1, 0, 1]);
    assert_eq!(field(&encoded, 260, 388), significant(&hex(F4_D)).to_vec());
    assert_eq!(field(&encoded, 388, 452), hex(P));
    assert_eq!(field(&encoded, 452, 516), hex(Q));
    assert_eq!(field(&encoded, 516, 580), hex(F4_DP));
    assert_eq!(field(&encoded, 580, 644), hex(F4_DQ));
    assert_eq!(field(&encoded, 644, 708), hex(QINV));
    assert_eq!(public_key.encode(), private_key.public_key().encode());
    assert_eq!(&public_key.encode()[..], &encoded[..260]);
}

#[test]
fn key_of_known_primes_with_the_exponent_3() {
    let proto_key = RSAProtoKey {
        bits: 512,
        use_fermat4: false,
    };
    let (public_key, private_key) = key_from_primes(&proto_key, &hex(P), &hex(Q)).unwrap();
    let encoded = private_key.encode();
    assert_eq!(field(&encoded, 132, 260), vec![3]);
    assert_eq!(field(&encoded, 260, 388), hex(E3_D));
    assert_eq!(field(&encoded, 516, 580), hex(E3_DP));
    assert_eq!(field(&encoded, 580, 644), hex(E3_DQ));
    assert_eq!(private_key.encrypt(b"hello"), Ok(hex(E3_HELLO)));
    assert_eq!(public_key.decrypt(&hex(E3_HELLO)), Ok(b"hello".to_vec()));
}

#[test]
fn the_larger_prime_comes_first() {
    let proto_key = RSAProtoKey {
        bits: 512,
        use_fermat4: true,
    };
    let (_, one) = key_from_primes(&proto_key, &hex(P), &hex(Q)).unwrap();
    let (_, other) = key_from_primes(&proto_key, &hex(Q), &hex(P)).unwrap();
    assert_eq!(one.encode(), other.encode());
}

#[test]
fn no_key_where_the_exponent_has_no_inverse() {
    // 3 divides R - 1
    let with_3 = RSAProtoKey {
        bits: 512,
        use_fermat4: false,
    };
    assert_eq!(key_from_primes(&with_3, &hex(P), &hex(R)).err(), Some(RSAError::Key));
    let with_65537 = RSAProtoKey {
        bits: 512,
        use_fermat4: true,
    };
    assert!(key_from_primes(&with_65537, &hex(P), &hex(R)).is_ok());
}

#[test]
fn no_key_of_two_equal_primes() {
    let proto_key = RSAProtoKey {
        bits: 512,
        use_fermat4: true,
    };
    assert_eq!(key_from_primes(&proto_key, &hex(P), &hex(P)).err(), Some(RSAError::Key));
}

#[test]
fn no_key_of_a_number_below_two() {
    let proto_key = RSAProtoKey {
        bits: 512,
        use_fermat4: true,
    };
    assert_eq!(key_from_primes(&proto_key, &hex(P), &[1]).err(), Some(RSAError::Key));
    assert_eq!(key_from_primes(&proto_key, &[], &hex(P)).err(), Some(RSAError::Key));
    assert_eq!(key_from_primes(&proto_key, &[0], &[0, 0]).err(), Some(RSAError::Key));
}

#[test]
fn no_key_where_the_modulus_has_another_bit_length() {
    for bits in [511u32, 513, 520, 1024] {
        let proto_key = RSAProtoKey {
            bits,
            use_fermat4: true,
        };
        assert_eq!(
            key_from_primes(&proto_key, &hex(P), &hex(Q)).err(),
            Some(RSAError::ModulusLen)
        );
    }
    let proto_key = RSAProtoKey {
        bits: 512,
        use_fermat4: true,
    };
    assert_eq!(key_from_primes(&proto_key, &hex(P), &[2]).err(), Some(RSAError::ModulusLen));
}

#[test]
fn inverse_of_small_numbers() {
    assert_eq!(mod_inv(&[3], &[11]), Some(vec![4]));
    assert_eq!(mod_inv(&[10], &[17]), Some(vec![12]));
    assert_eq!(mod_inv(&[1], &[2]), Some(vec![1]));
    assert_eq!(mod_inv(&[17], &[0x0C, 0x30]).map(|x| significant(&x).to_vec()), Some(vec![0x0A, 0xC1]));
    // a number above the modulus
    assert_eq!(mod_inv(&[14], &[11]), Some(vec![4]));
}

#[test]
fn inverse_of_a_prime_modulo_another() {
    let inverse = mod_inv(&hex(Q), &hex(P)).unwrap();
    assert_eq!(significant(&inverse), &hex(QINV)[..]);
}

#[test]
fn no_inverse_with_a_common_divisor() {
    assert_eq!(mod_inv(&[2], &[4]), None);
    assert_eq!(mod_inv(&[6], &[9]), None);
    assert_eq!(mod_inv(&[0], &[7]), None);
    assert_eq!(mod_inv(&[7], &[7]), None);
    assert_eq!(mod_inv(&hex(P), &hex(P)), None);
}

#[test]
fn no_inverse_modulo_zero_or_one() {
    assert_eq!(mod_inv(&[5], &[1]), None);
    assert_eq!(mod_inv(&[5], &[0]), None);
    assert_eq!(mod_inv(&[5], &[]), None);
    assert_eq!(mod_inv(&[1], &[1]), None);
}
