use ore_rs::small_domain::RightBlock;

#[test]
fn test_init_0() {
    let block = RightBlock::init(0);
    assert!(matches!(block, RightBlock(0b11111111111111111111111111111111)));
}

#[test]
fn test_init_28() {
    let block = RightBlock::init(28);
    assert!(matches!(block, RightBlock(0b11110000000000000000000000000000)));
}

#[test]
fn test_init_31() {
    let block = RightBlock::init(31);
    assert!(matches!(block, RightBlock(0b10000000000000000000000000000000)));
}

#[test]
fn get_bit() {
    let block = RightBlock::init(28);
    assert_eq!(block.get_bit(0), 0);
    assert_eq!(block.get_bit(1), 0);
    assert_eq!(block.get_bit(2), 0);
    assert_eq!(block.get_bit(27), 0);
    assert_eq!(block.get_bit(28), 1);
    assert_eq!(block.get_bit(31), 1);
}
