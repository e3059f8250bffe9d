use ore_rs::block_types::{OreBlock8, RightBlock32};

#[test]
fn bit2_set_and_get_bit() {
    let mut block: OreBlock8 = Default::default();
    block.set_bit(17, 1);
    assert_eq!(block.get_bit(17), 1);

    block.set_bit(180, 1);
    assert_eq!(block.get_bit(180), 1);

    block.set_bit(255, 1);
    assert_eq!(block.get_bit(255), 1);
}

#[test]
fn ore_large_set_and_get_bit() {
    let mut block: OreBlock8 = Default::default();
    block.set_bit(17, 1);
    assert_eq!(block.get_bit(17), 1);

    block.set_bit(180, 1);
    assert_eq!(block.get_bit(180), 1);

    block.set_bit(255, 1);
    assert_eq!(block.get_bit(255), 1);
}

#[test]
fn block_types_set_and_get_bit() {
    let mut block: RightBlock32 = Default::default();
    block.set_bit(17, 1);
    assert_eq!(block.get_bit(17), 1);

    block.set_bit(180, 1);
    assert_eq!(block.get_bit(180), 1);

    block.set_bit(255, 1);
    assert_eq!(block.get_bit(255), 1);
}

#[test]
fn right_default_in_place_without_new_data() {
    let mut right = RightBlock32::default();
    right.data.copy_from_slice(&[1; 32]);

    assert_eq!(&right.data, &[1; 32]);

    right.default_in_place();

    assert_eq!(&right.to_bytes(), &[0; 32]);
    assert_eq!(right.data, [0; 32]);
}

#[test]
fn right_block_bit_layout() {
    let mut block = RightBlock32::default();
    block.set_bit(9, 1);
    let bytes = block.to_bytes();
    assert_eq!(bytes[1], 0b0000_0010);
    assert_eq!(bytes.iter().filter(|b| **b != 0).count(), 1);
    assert_eq!(block.get_bit(8), 0);
    assert_eq!(block.get_bit(10), 0);
}

#[test]
fn ore_block8_bit_layout() {
    let mut block = OreBlock8::default();
    block.set_bit(130, 1);
    assert_eq!(block.high, 0b100);
    assert_eq!(block.low, 0);
    block.set_bit(3, 0);
    assert_eq!(block.get_bit(3), 0);
    assert_eq!(block.low, 0);
}
