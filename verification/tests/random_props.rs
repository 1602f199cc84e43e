use rsaref::{RSAError, RandomStruct};

fn seeded(seed: &[u8]) -> RandomStruct {
    let mut generator = RandomStruct::new();
    generator.random_update(seed);
    generator
}

#[test]
fn new_generator_asks_for_256_seed_bytes() {
    let mut generator = RandomStruct::new();
    assert_eq!(generator.get_random_bytes_needed(), 256);
    assert_eq!(generator.generate_bytes(1), Err(RSAError::NeedRandom));
    assert_eq!(generator.generate_bytes(0), Err(RSAError::NeedRandom));
    assert_eq!(RandomStruct::default().get_random_bytes_needed(), 256);
}

#[test]
fn underseeded_generator_gives_no_output() {
    let mut generator = RandomStruct::new();
    generator.random_update(&[7u8; 100]);
    assert_eq!(generator.get_random_bytes_needed(), 156);
    generator.random_update(&[8u8; 155]);
    assert_eq!(generator.get_random_bytes_needed(), 1);
    assert_eq!(generator.generate_bytes(16), Err(RSAError::NeedRandom));
    assert_eq!(generator.get_random_bytes_needed(), 1);
    generator.random_update(&[9u8; 1]);
    assert_eq!(generator.get_random_bytes_needed(), 0);
    assert_eq!(generator.generate_bytes(16).map(|bytes| bytes.len()), Ok(16));
}

#[test]
fn seed_count_stops_at_zero() {
    let mut generator = RandomStruct::new();
    generator.random_update(&[1u8; 300]);
    assert_eq!(generator.get_random_bytes_needed(), 0);
    generator.random_update(&[1u8; 300]);
    assert_eq!(generator.get_random_bytes_needed(), 0);
}

#[test]
fn empty_update_still_mixes_but_counts_nothing() {
    let seed: Vec<u8> = (0..=255).collect();
    let mut plain = seeded(&seed);
    let mut mixed = seeded(&seed);
    mixed.random_update(&[]);
    assert_eq!(mixed.get_random_bytes_needed(), 0);
    assert_ne!(plain.generate_bytes(16), mixed.generate_bytes(16));
}

#[test]
fn same_seed_gives_the_same_stream() {
    let seed: Vec<u8> = (0..=255).map(|i: u8| i.wrapping_mul(31)).collect();
    let mut a = seeded(&seed);
    let mut b = seeded(&seed);
    for request in [0usize, 1, 15, 16, 17, 64, 3] {
        assert_eq!(a.generate_bytes(request), b.generate_bytes(request));
    }
}

#[test]
fn different_seeds_give_different_streams() {
    let mut a = seeded(&[1u8; 256]);
    let mut b = seeded(&[2u8; 256]);
    assert_ne!(a.generate_bytes(32), b.generate_bytes(32));
}

#[test]
fn requests_in_pieces_give_the_stream_of_one_request() {
    let seed: Vec<u8> = (0..=255).collect();
    let whole = seeded(&seed).generate_bytes(100).unwrap();
    let mut pieces = seeded(&seed);
    let mut joined: Vec<u8> = Vec::new();
    for request in [5usize, 0, 11, 16, 1, 40, 27] {
        joined.extend(pieces.generate_bytes(request).unwrap());
    }
    assert_eq!(joined, whole);
}

#[test]
fn request_for_no_bytes_gives_none() {
    let mut generator = seeded(&[3u8; 256]);
    assert_eq!(generator.generate_bytes(0), Ok(Vec::new()));
}

#[test]
fn digests_are_added_with_carry_from_the_first_byte_up() {
    let up: Vec<u8> = (0..=255).collect();
    let down: Vec<u8> = (0..=255).rev().collect();
    let mut generator = RandomStruct::new();
    generator.random_update(&up);
    generator.random_update(&down);
    let expected: Vec<u8> = vec![
        243, 167, 85, 62, 65, 80, 119, 61, 207, 214, 100, 140, 2, 48, 253, 146, 230, 141, 59, 166,
        90, 253, 117, 252, 144, 192, 146, 162, 56, 195, 73, 230,
    ];
    assert_eq!(generator.generate_bytes(32), Ok(expected));
}

#[test]
fn counter_carries_into_the_byte_before() {
    // the digest of this seed ends in 0xFF
    let seed: Vec<u8> = [80u8, 0].iter().cycle().take(256).cloned().collect();
    let mut generator = seeded(&seed);
    let expected: Vec<u8> = vec![
        26, 234, 162, 99, 105, 54, 184, 250, 246, 185, 7, 131, 186, 100, 48, 166, 185, 18, 149,
        189, 113, 187, 135, 9, 143, 225, 19, 131, 79, 95, 70, 137, 155, 127, 121, 156, 39, 145, 19,
        89, 234, 188, 219, 185, 159, 237, 203, 56,
    ];
    assert_eq!(generator.generate_bytes(48), Ok(expected));
}

#[test]
fn finished_generator_gives_no_output() {
    let mut generator = seeded(&[5u8; 256]);
    assert!(generator.generate_bytes(8).is_ok());
    generator.random_final();
    assert_eq!(generator.get_random_bytes_needed(), 0);
    assert_eq!(generator.generate_bytes(8), Err(RSAError::NeedRandom));
    generator.random_update(&[5u8; 256]);
    assert_eq!(generator.generate_bytes(8), Err(RSAError::NeedRandom));
}

#[test]
fn init_starts_the_generator_again() {
    let seed: Vec<u8> = (0..=255).collect();
    let first = seeded(&seed).generate_bytes(40).unwrap();
    let mut generator = seeded(&[9u8; 256]);
    assert!(generator.generate_bytes(5).is_ok());
    generator.random_init();
    assert_eq!(generator.get_random_bytes_needed(), 256);
    assert_eq!(generator.generate_bytes(1), Err(RSAError::NeedRandom));
    generator.random_update(&seed);
    assert_eq!(generator.generate_bytes(40), Ok(first.clone()));
    generator.random_final();
    generator.random_init();
    generator.random_update(&seed);
    assert_eq!(generator.generate_bytes(40), Ok(first));
}

#[test]
fn generator_started_again_behaves_as_a_new_one() {
    let seed: Vec<u8> = (0..=255).map(|i: u8| i ^ 0x3C).collect();
    let mut fresh = RandomStruct::new();
    let mut used = seeded(&[1u8; 256]);
    assert!(used.generate_bytes(21).is_ok());
    used.random_init();
    fresh.random_update(&seed);
    used.random_update(&seed);
    for request in [3usize, 16, 0, 40] {
        assert_eq!(used.generate_bytes(request), fresh.generate_bytes(request));
    }
}
