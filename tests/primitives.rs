use ore_rs::primitives::hash::{Aes128Z2Hash, HmacSha256Z2Hash, Sha256Z2Hash};
use ore_rs::primitives::prf::Aes128Prf;
use ore_rs::primitives::prng::Aes128Prng;
use ore_rs::primitives::prp::Prp;

const KEY: [u8; 16] = [0, 1, 2, 3, 4, 5, 6, 7, 8, 9, 10, 11, 12, 13, 14, 15];

#[test]
fn prf_prf_test_single_block() {
    let prf = Aes128Prf::new(&KEY);
    let mut input = vec![[0, 1, 2, 3, 4, 5, 6, 7, 8, 9, 10, 11, 12, 13, 14, 170]];
    prf.encrypt_all(&mut input);
    assert_eq!(
        input,
        vec![[183, 103, 151, 211, 249, 253, 170, 135, 117, 243, 131, 50, 27, 15, 170, 59]]
    );
}

#[test]
fn prf_prf_test_2_blocks() {
    let prf = Aes128Prf::new(&KEY);
    let mut input = vec![
        [0, 1, 2, 3, 4, 5, 6, 7, 8, 9, 10, 11, 12, 13, 14, 170],
        [4, 5, 6, 7, 8, 9, 10, 11, 12, 13, 14, 170, 255, 221, 97, 170],
    ];
    prf.encrypt_all(&mut input);
    assert_eq!(
        input,
        vec![
            [183, 103, 151, 211, 249, 253, 170, 135, 117, 243, 131, 50, 27, 15, 170, 59],
            [100, 192, 41, 108, 208, 245, 146, 251, 188, 245, 156, 28, 33, 210, 70, 50]
        ]
    );
}

#[test]
fn prf_encrypt() {
    // FIPS-197 appendix C.1 vector.
    let prf = Aes128Prf::new(&KEY);
    let mut input = vec![[
        0x00, 0x11, 0x22, 0x33, 0x44, 0x55, 0x66, 0x77, 0x88, 0x99, 0xaa, 0xbb, 0xcc, 0xdd, 0xee,
        0xff,
    ]];
    prf.encrypt_all(&mut input);
    assert_eq!(
        input[0],
        [
            0x69, 0xc4, 0xe0, 0xd8, 0x6a, 0x7b, 0x04, 0x30, 0xd8, 0xcd, 0xb7, 0x80, 0x70, 0xb4,
            0xc5, 0x5a
        ]
    );
}

#[test]
fn hash_hash_test_1() {
    let hash = Aes128Z2Hash::new(&KEY);
    let input: [u8; 16] = [0, 1, 2, 3, 4, 5, 6, 7, 8, 9, 10, 11, 12, 13, 14, 0xaa];
    assert_eq!(1u8, hash.hash(&input));
}

#[test]
fn hash_hash_test_2() {
    let hash = Aes128Z2Hash::new(&KEY);
    let input: [u8; 16] = KEY;
    assert_eq!(0u8, hash.hash(&input));
}

#[test]
fn hash_all_matches_single_hashes() {
    let hash = Aes128Z2Hash::new(&KEY);
    let a: [u8; 16] = [0, 1, 2, 3, 4, 5, 6, 7, 8, 9, 10, 11, 12, 13, 14, 0xaa];
    let mut blocks = vec![a, KEY, a];
    let bits = hash.hash_all(&mut blocks);
    assert_eq!(bits, vec![1, 0, 1]);
}

#[test]
fn prng_prg_next_byte() {
    let mut prg = Aes128Prng::init(&KEY);
    assert_eq!(198, prg.next_byte());
    assert_eq!(161, prg.next_byte());
}

#[test]
fn prng_stream_is_counter_mode() {
    // Byte k of the stream is byte k % 16 of AES(key, BE32(k / 16) || 0^12).
    let prf = Aes128Prf::new(&KEY);
    let mut blocks = vec![[0u8; 16]; 40];
    for (i, b) in blocks.iter_mut().enumerate() {
        b[0..4].copy_from_slice(&(i as u32).to_be_bytes());
    }
    prf.encrypt_all(&mut blocks);
    let mut prg = Aes128Prng::init(&KEY);
    for k in 0..(40 * 16) {
        assert_eq!(prg.next_byte(), blocks[k / 16][k % 16], "byte {}", k);
    }
}

#[test]
fn prng_prg_many_generations() {
    let mut prg = Aes128Prng::init(&KEY);
    for _i in 0..=100_000 {
        prg.next_byte();
    }
}

#[test]
fn gen_range_stays_in_range() {
    let mut prg = Aes128Prng::init(&KEY);
    assert_eq!(prg.gen_range(0), Ok(0));
    for max in 1..=255u8 {
        for _ in 0..50 {
            assert!(prg.gen_range(max).unwrap() <= max);
        }
    }
}

#[test]
fn uniformity() {
    // Root-mean-square error of the histogram of 100 000 draws against the
    // uniform distribution, for every max in 1..=255.
    let key: [u8; 16] = rand::random();
    let mut rng = Aes128Prng::init(&key);
    let n = 100_000i32;
    for k in 1..=255u8 {
        let mut hist = vec![0usize; k as usize + 1];
        for _i in 0..n {
            let v = rng.gen_range(k).unwrap();
            hist[v as usize] += 1;
        }
        let expected = n as f64 / (k as f64 + 1.0);
        let mut sum: f64 = 0.0;
        for count in hist.iter() {
            sum += (*count as f64 - expected).powf(2.0);
        }
        // RMSE within 0.5%
        assert!((sum.sqrt() as i32) < 500, "max {}: {}", k, sum.sqrt());
    }
}

#[test]
fn prp_test_invert() {
    let key: [u8; 16] = [0, 1, 2, 3, 4, 5, 6, 7, 8, 9, 10, 11, 12, 13, 14, 0xaa];
    let prp = Prp::init(&key).unwrap();
    for i in 0..=255u8 {
        assert_eq!(i, prp.inverse(prp.permute(i)), "permutation round-trip failed");
        assert_eq!(i, prp.permute(prp.inverse(i)), "permutation round-trip failed");
    }
}

#[test]
fn prp_is_a_permutation_and_seed_dependent() {
    let a = Prp::init(&KEY).unwrap();
    let b = Prp::init(&[7u8; 16]).unwrap();
    let mut seen = [false; 256];
    for i in 0..=255u8 {
        seen[a.permute(i) as usize] = true;
    }
    assert!(seen.iter().all(|s| *s));
    assert!((0..=255u8).any(|i| a.permute(i) != b.permute(i)));
    assert!((0..=255u8).any(|i| a.permute(i) != i));
}

#[test]
fn prp_init_prp() {
    let prp = Prp::init(&KEY).unwrap();
    assert_eq!(15, prp.inverse(prp.permute(15)));
    assert_eq!(75, prp.inverse(prp.permute(75)));
    assert_ne!(0, prp.permute(0));
}

const A: [u8; 16] = [0x00, 0x11, 0x02, 0x11, 4, 5, 6, 7, 8, 9, 10, 11, 12, 13, 14, 15];
const B: [u8; 16] = [0, 0, 0, 0, 4, 5, 6, 7, 8, 9, 10, 11, 12, 13, 14, 15];

#[test]
fn hash_all_onto_u32_one_elem() {
    let hash = Aes128Z2Hash::new(&KEY);
    let mut input = vec![A];
    assert_eq!(hash.hash_all_onto_u32(&mut input), 0b1);
}

#[test]
fn hash_all_onto_u32_three_elems() {
    let hash = Aes128Z2Hash::new(&KEY);
    let mut input = vec![A, B, A];
    assert_eq!(hash.hash_all_onto_u32(&mut input), 0b101);
}

#[test]
fn hash_all_onto_u32_16_elems() {
    let hash = Aes128Z2Hash::new(&KEY);
    let mut input = vec![A, B, A, B, A, B, A, B, A, B, A, B, A, B, A, A];
    assert_eq!(hash.hash_all_onto_u32(&mut input), 0b1101_0101_0101_0101);
}

#[test]
fn sha256z2hash_test_case_1() {
    let hash = Sha256Z2Hash::new();
    assert_eq!(0u8, hash.hash(&KEY));
}

#[test]
fn hmac256z2hash_test_case_1() {
    let hash = HmacSha256Z2Hash::new(&KEY);
    assert_eq!(1u8, hash.hash(&KEY));
    assert_eq!(hash.hash_all(&vec![KEY, KEY]), vec![1, 1]);
}
