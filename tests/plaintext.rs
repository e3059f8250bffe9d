use ore_rs::plaintext::{u32_plaintext, u64_plaintext};

#[test]
fn plaintexts_are_big_endian() {
    for x in [0u64, 1, 0x0102_0304_0506_0708, u64::MAX] {
        assert_eq!(u64_plaintext(x), x.to_be_bytes());
    }
    for x in [0u32, 1000, 0xdead_beef, u32::MAX] {
        assert_eq!(u32_plaintext(x), x.to_be_bytes());
    }
}

#[test]
fn plaintext_byte_order_is_numeric_order() {
    let values = [0u64, 9, 10, 73, 255, 256, 1 << 32, u64::MAX - 3, u64::MAX];
    for x in values {
        for y in values {
            assert_eq!(u64_plaintext(x).cmp(&u64_plaintext(y)), x.cmp(&y));
        }
    }
}
