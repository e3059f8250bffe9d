use ore_rs::ciphertext::{CombinedCiphertext, LeftCiphertext, RightCiphertext};
use ore_rs::block_types::RightBlock32;
use ore_rs::ciphertext::LeftBlock;
use ore_rs::scheme::{gt, prefixes, OreAes128, OreError};
use std::cmp::Ordering;

const K1: [u8; 16] = [0, 1, 2, 3, 4, 5, 6, 7, 8, 9, 10, 11, 12, 13, 14, 15];
const K2: [u8; 16] = [
    0xd0, 0xd0, 0x07, 0xa5, 0x3f, 0x9a, 0x68, 0x48, 0x83, 0xbc, 0x1f, 0x21, 0x0f, 0x65, 0x95, 0xa3,
];

fn init_ore() -> OreAes128 {
    let k1: [u8; 16] = rand::random();
    let k2: [u8; 16] = rand::random();
    OreAes128::init(&k1, &k2).unwrap()
}

fn fixed_ore() -> OreAes128 {
    OreAes128::init(&K1, &K2).unwrap()
}

fn enc64(ore: &mut OreAes128, x: u64) -> CombinedCiphertext {
    ore.encrypt(&x.to_be_bytes()).unwrap()
}

fn enc32(ore: &mut OreAes128, x: u32) -> CombinedCiphertext {
    ore.encrypt(&x.to_be_bytes()).unwrap()
}

fn order(a: &CombinedCiphertext, b: &CombinedCiphertext) -> Ordering {
    OreAes128::compare(&a.left(), b).unwrap()
}

fn check_pair(x: u64, y: u64) {
    let mut ore = init_ore();
    let a = enc64(&mut ore, x);
    let b = enc64(&mut ore, y);
    assert_eq!(order(&a, &b), x.cmp(&y), "{} vs {}", x, y);
    assert_eq!(order(&b, &a), y.cmp(&x), "{} vs {}", y, x);
    let left = ore.encrypt_left(&x.to_be_bytes()).unwrap();
    assert_eq!(OreAes128::compare(&left, &b).unwrap(), x.cmp(&y));
    assert_eq!(
        OreAes128::compare_raw_slices(&a.to_bytes(), &b.to_bytes()),
        Some(x.cmp(&y))
    );
}

#[test]
fn bit2_smallest_to_largest() {
    let mut ore = init_ore();
    let a = enc64(&mut ore, 0);
    let b = enc64(&mut ore, 18446744073709551615);
    assert_eq!(order(&a, &b), Ordering::Less);
}

#[test]
fn bit2_largest_to_smallest() {
    let mut ore = init_ore();
    let a = enc64(&mut ore, 18446744073709551615);
    let b = enc64(&mut ore, 0);
    assert_eq!(order(&a, &b), Ordering::Greater);
}

#[test]
fn bit2_smallest_to_smallest() {
    let mut ore = init_ore();
    let a = enc64(&mut ore, 0);
    let b = enc64(&mut ore, 0);
    assert_eq!(order(&a, &b), Ordering::Equal);
}

#[test]
fn bit2_largest_to_largest() {
    let mut ore = init_ore();
    let a = enc64(&mut ore, 18446744073709551615);
    let b = enc64(&mut ore, 18446744073709551615);
    assert_eq!(order(&a, &b), Ordering::Equal);
}

#[test]
fn bit2_comparisons_in_first_block() {
    let mut ore = init_ore();
    let a = enc64(&mut ore, 18446744073709551615);
    let b = enc64(&mut ore, 18446744073709551612);
    assert_eq!(order(&a, &b), Ordering::Greater);
    assert_eq!(order(&b, &a), Ordering::Less);
}

#[test]
fn bit2_comparisons_in_last_block() {
    let mut ore = init_ore();
    let a = enc64(&mut ore, 10);
    let b = enc64(&mut ore, 73);
    assert_eq!(order(&a, &b), Ordering::Less);
    assert_eq!(order(&b, &a), Ordering::Greater);
}

#[test]
fn bit2_compare_raw_slices_mismatched_lengths() {
    let mut ore = init_ore();
    let a_64 = enc64(&mut ore, 10).to_bytes();
    let a_32 = enc32(&mut ore, 10).to_bytes();
    assert_eq!(OreAes128::compare_raw_slices(&a_64, &a_32), Option::None);
}

#[test]
fn bit2_binary_encoding() {
    let mut ore = init_ore();
    let a = enc64(&mut ore, 10);
    let bin = a.to_bytes();
    let b = CombinedCiphertext::from_slice(&bin).unwrap();
    assert_eq!(order(&a, &b), Ordering::Equal);
    assert_eq!(b.to_bytes(), bin);
}

#[test]
#[should_panic(expected = "ParseError")]
fn bit2_binary_encoding_invalid_length() {
    let bin = vec![0, 1, 2, 3];
    CombinedCiphertext::from_slice(&bin).unwrap();
}

#[test]
fn bit2_test_different_prf_keys() {
    let k1: [u8; 16] = [97, 98, 99, 100, 101, 102, 103, 104, 105, 106, 107, 108, 109, 110, 111, 112];
    let k2: [u8; 16] = [129, 4, 114, 186, 102, 145, 225, 73, 166, 57, 244, 251, 56, 92, 188, 36];
    let k3: [u8; 16] = [49, 50, 51, 52, 53, 54, 55, 56, 57, 48, 97, 98, 99, 100, 101, 102];

    let mut ore1 = OreAes128::init(&k1, &k2).unwrap();
    let mut ore2 = OreAes128::init(&k3, &k2).unwrap();

    let a = enc32(&mut ore1, 1000).to_bytes();
    let b = enc32(&mut ore2, 1000).to_bytes();

    assert_ne!(Some(Ordering::Equal), OreAes128::compare_raw_slices(&a, &b));
}

#[test]
fn bit2_test_different_prp_keys() {
    let k1: [u8; 16] = [97, 98, 99, 100, 101, 102, 103, 104, 105, 106, 107, 108, 109, 110, 111, 112];
    let k2: [u8; 16] = [129, 4, 114, 186, 102, 145, 225, 73, 166, 57, 244, 251, 56, 92, 188, 36];
    let k3: [u8; 16] = [49, 50, 51, 52, 53, 54, 55, 56, 57, 48, 97, 98, 99, 100, 101, 102];

    let mut ore1 = OreAes128::init(&k1, &k2).unwrap();
    let mut ore2 = OreAes128::init(&k1, &k3).unwrap();

    let a = enc32(&mut ore1, 1000).to_bytes();
    let b = enc32(&mut ore2, 1000).to_bytes();

    assert_ne!(Some(Ordering::Equal), OreAes128::compare_raw_slices(&a, &b));
}

#[test]
fn ore_smallest_to_largest() {
    check_pair(0, 18446744073709551615);
}

#[test]
fn ore_largest_to_smallest() {
    check_pair(18446744073709551615, 0);
}

#[test]
fn ore_smallest_to_smallest() {
    check_pair(0, 0);
}

#[test]
fn ore_largest_to_largest() {
    check_pair(18446744073709551615, 18446744073709551615);
}

#[test]
fn ore_comparisons_in_first_block() {
    check_pair(18446744073709551615, 18446744073709551612);
}

#[test]
fn ore_comparisons_in_last_block() {
    check_pair(10, 73);
}

#[test]
fn ore_compare_raw_slices_mismatched_lengths() {
    let mut ore = init_ore();
    let a_64 = enc64(&mut ore, 10).to_bytes();
    let a_32 = enc32(&mut ore, 10).to_bytes();
    assert_eq!(OreAes128::compare_raw_slices(&a_64, &a_32), None);
}

#[test]
fn ore_binary_encoding() {
    let mut ore = init_ore();
    let a = enc64(&mut ore, 10);
    let bin = a.to_bytes();
    assert_eq!(bin.len(), 6 + 16 + 8 * 49);
    let b = CombinedCiphertext::from_slice(&bin).unwrap();
    assert_eq!(b.to_bytes(), bin);
    assert_eq!(order(&a, &b), Ordering::Equal);
}

#[test]
#[should_panic(expected = "ParseError")]
fn ore_binary_encoding_invalid_length() {
    let bin = vec![0, 1, 2, 3];
    CombinedCiphertext::from_slice(&bin).unwrap();
}

#[test]
fn truncated_ciphertext_is_rejected() {
    let mut ore = init_ore();
    let mut bin = enc64(&mut ore, 10).to_bytes();
    bin.pop();
    assert!(CombinedCiphertext::from_slice(&bin).is_err());
}

#[test]
fn ore_test_different_prf_keys() {
    let k1: [u8; 16] = [97, 98, 99, 100, 101, 102, 103, 104, 105, 106, 107, 108, 109, 110, 111, 112];
    let k2: [u8; 16] = [129, 4, 114, 186, 102, 145, 225, 73, 166, 57, 244, 251, 56, 92, 188, 36];
    let k3: [u8; 16] = [49, 50, 51, 52, 53, 54, 55, 56, 57, 48, 97, 98, 99, 100, 101, 102];
    let mut ore1 = OreAes128::init(&k1, &k2).unwrap();
    let mut ore2 = OreAes128::init(&k3, &k2).unwrap();
    let a = enc32(&mut ore1, 119).to_bytes();
    let b = enc32(&mut ore2, 119).to_bytes();
    assert_ne!(Some(Ordering::Equal), OreAes128::compare_raw_slices(&a, &b));
}

#[test]
fn ore_test_different_prp_keys() {
    let k1: [u8; 16] = [97, 98, 99, 100, 101, 102, 103, 104, 105, 106, 107, 108, 109, 110, 111, 112];
    let k2: [u8; 16] = [129, 4, 114, 186, 102, 145, 225, 73, 166, 57, 244, 251, 56, 92, 188, 36];
    let k3: [u8; 16] = [49, 50, 51, 52, 53, 54, 55, 56, 57, 48, 97, 98, 99, 100, 101, 102];
    let mut ore1 = OreAes128::init(&k1, &k2).unwrap();
    let mut ore2 = OreAes128::init(&k1, &k3).unwrap();
    let a = enc32(&mut ore1, 119).to_bytes();
    let b = enc32(&mut ore2, 119).to_bytes();
    assert_ne!(Some(Ordering::Equal), OreAes128::compare_raw_slices(&a, &b));
}

#[test]
fn ore_large_smallest_to_largest() {
    let mut ore = fixed_ore();
    let a = enc64(&mut ore, 0);
    let b = enc64(&mut ore, 18446744073709551615);
    assert_eq!(order(&a, &b), Ordering::Less);
}

#[test]
fn ore_large_largest_to_smallest() {
    let mut ore = fixed_ore();
    let a = enc64(&mut ore, 18446744073709551615);
    let b = enc64(&mut ore, 0);
    assert_eq!(order(&a, &b), Ordering::Greater);
}

#[test]
fn ore_large_smallest_to_smallest() {
    let mut ore = fixed_ore();
    let a = enc64(&mut ore, 0);
    let b = enc64(&mut ore, 0);
    assert_eq!(order(&a, &b), Ordering::Equal);
}

#[test]
fn ore_large_largest_to_largest() {
    let mut ore = fixed_ore();
    let a = enc64(&mut ore, 18446744073709551615);
    let b = enc64(&mut ore, 18446744073709551615);
    assert_eq!(order(&a, &b), Ordering::Equal);
}

#[test]
fn ore_large_comparisons_in_first_block() {
    let mut ore = fixed_ore();
    let a = enc64(&mut ore, 18446744073709551615);
    let b = enc64(&mut ore, 18446744073709551612);
    assert_eq!(order(&a, &b), Ordering::Greater);
    assert_eq!(order(&b, &a), Ordering::Less);
}

#[test]
fn ore_large_comparisons_in_last_block() {
    let mut ore = fixed_ore();
    let a = enc64(&mut ore, 10);
    let b = enc64(&mut ore, 73);
    assert_eq!(order(&a, &b), Ordering::Less);
    assert_eq!(order(&b, &a), Ordering::Greater);
}

#[test]
fn order_preserved_on_many_pairs() {
    let mut ore = init_ore();
    let values: Vec<u64> = (0..12)
        .map(|_| rand::random::<u64>())
        .chain([0, 1, 255, 256, 65535, 65536, u64::MAX - 1, u64::MAX])
        .collect();
    let cts: Vec<CombinedCiphertext> = values.iter().map(|v| enc64(&mut ore, *v)).collect();
    for (i, x) in values.iter().enumerate() {
        let left = cts[i].left();
        for (j, y) in values.iter().enumerate() {
            assert_eq!(OreAes128::compare(&left, &cts[j]).unwrap(), x.cmp(y));
        }
    }
}

#[test]
fn equality_under_fresh_nonces() {
    let mut ore = init_ore();
    for x in [0u64, 42, 1 << 40, u64::MAX] {
        let a = enc64(&mut ore, x);
        let b = enc64(&mut ore, x);
        assert_ne!(a.nonce(), b.nonce());
        assert_eq!(order(&a, &b), Ordering::Equal);
        assert_eq!(
            OreAes128::compare_raw_slices(&a.to_bytes(), &b.to_bytes()),
            Some(Ordering::Equal)
        );
    }
}

#[test]
fn encrypt_with_nonce_is_deterministic() {
    let ore = fixed_ore();
    let nonce = [9u8; 16];
    let a = ore.encrypt_with_nonce(&[1, 2, 3, 4], &nonce).unwrap();
    let b = ore.encrypt_with_nonce(&[1, 2, 3, 4], &nonce).unwrap();
    assert_eq!(a.to_bytes(), b.to_bytes());
    assert_eq!(&a.to_bytes()[6..22], &nonce);
    let left = ore.encrypt_left(&[1, 2, 3, 4]).unwrap();
    assert_eq!(left.to_bytes(), a.left().to_bytes());
}

#[test]
fn left_blocks_differ_across_positions() {
    let ore = fixed_ore();
    let left = ore.encrypt_left(&[0, 0, 0, 0]).unwrap();
    for i in 0..4 {
        for j in (i + 1)..4 {
            assert_ne!(left.blocks[i].f, left.blocks[j].f);
        }
    }
}

#[test]
fn compare_rejects_mismatched_block_counts() {
    let mut ore = fixed_ore();
    let a = enc64(&mut ore, 5);
    let b = enc32(&mut ore, 5);
    assert_eq!(OreAes128::compare(&a.left(), &b), Err(OreError::CompareError));
}

#[test]
fn scenario_u32_key_separation_raw_slices() {
    let k1b: [u8; 16] = [0xff; 16];
    let mut ore1 = fixed_ore();
    let mut ore2 = OreAes128::init(&k1b, &K2).unwrap();
    let a = enc32(&mut ore1, 1000).to_bytes();
    let b = enc32(&mut ore2, 1000).to_bytes();
    assert_ne!(OreAes128::compare_raw_slices(&a, &b), Some(Ordering::Equal));
}

#[test]
fn raw_slices_reject_empty_and_malformed() {
    let mut ore = fixed_ore();
    let empty = ore.encrypt(&[]).unwrap().to_bytes();
    assert_eq!(empty.len(), 22);
    assert_eq!(OreAes128::compare_raw_slices(&empty, &empty), None);
    let a = enc32(&mut ore, 3).to_bytes();
    let mut bad = a.clone();
    bad[3] = 0;
    assert_eq!(OreAes128::compare_raw_slices(&bad, &a), None);
}

#[test]
fn serialization_round_trips() {
    let mut ore = fixed_ore();
    let c = enc32(&mut ore, 0xdead_beef);
    let left = c.left();
    let lb = left.to_bytes();
    assert_eq!(lb.len(), 6 + 4 * 17);
    assert_eq!(&lb[0..6], &[0, 0, 0, 0, 0, 4]);
    assert_eq!(LeftCiphertext::from_slice(&lb).unwrap().to_bytes(), lb);
    assert!(LeftCiphertext::from_slice(&c.to_bytes()).is_err());

    let mut right = RightCiphertext::new(2, &[5u8; 16]);
    let mut rb = RightBlock32::default();
    rb.set_bit(200, 1);
    right.add_block(rb);
    right.add_block(RightBlock32::default());
    let bytes = right.to_bytes();
    assert_eq!(bytes.len(), 6 + 16 + 2 * 32);
    assert_eq!(&bytes[0..6], &[0, 0, 0, 1, 0, 2]);
    let back = RightCiphertext::from_slice(&bytes).unwrap();
    assert_eq!(back.blocks[0].get_bit(200), 1);
    assert_eq!(back.to_bytes(), bytes);

    let mut combined = CombinedCiphertext::new(1, &[1u8; 16]);
    combined.add_block(LeftBlock { f: [2u8; 16], x: 3 }, rb);
    let cb = combined.to_bytes();
    assert_eq!(&cb[0..6], &[0, 0, 0, 2, 0, 1]);
    assert_eq!(&cb[22..38], &[2u8; 16]);
    assert_eq!(cb[38], 3);
    assert_eq!(&cb[39..71], &rb.to_bytes());
}

#[test]
fn gt_is_greater_than_indicator() {
    assert_eq!(gt(5, 3), 1);
    assert_eq!(gt(3, 5), 0);
    assert_eq!(gt(4, 4), 0);
}

#[test]
fn prefixes_zero_pad() {
    let p = prefixes(&[7, 8, 9]);
    assert_eq!(p.len(), 3);
    assert_eq!(p[0], [0u8; 16]);
    assert_eq!(&p[2][0..3], &[7, 8, 0]);
    assert_eq!(p[1][0], 7);
}

#[test]
fn largest_plaintext_orders_correctly() {
    let mut ore = fixed_ore();
    let x: Vec<u8> = (0..15).collect();
    let mut y = x.clone();
    y[14] = 200;
    let a = ore.encrypt(&x).unwrap();
    let b = ore.encrypt(&y).unwrap();
    assert_eq!(a.to_bytes().len(), 6 + 16 + 15 * 49);
    assert_eq!(order(&a, &b), Ordering::Less);
    assert_eq!(order(&b, &a), Ordering::Greater);
    assert_eq!(order(&a, &a), Ordering::Equal);
}

#[test]
fn combined_cmp_uses_left_against_right() {
    let mut ore = init_ore();
    for (x, y) in [(0u64, u64::MAX), (73, 10), (42, 42)] {
        let a = enc64(&mut ore, x);
        let b = enc64(&mut ore, y);
        assert_eq!(a.cmp(&b), x.cmp(&y));
        assert_eq!(b.cmp(&a), y.cmp(&x));
    }
}
