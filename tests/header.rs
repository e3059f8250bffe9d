use ore_rs::header::{CtType, Header};

#[test]
fn test_new() {
    let header = Header::new(CtType::Right, 12);
    assert_eq!(header.version, 0);
    assert_eq!(header.scheme, 0);
    assert_eq!(header.ct_type, CtType::Right);
    assert_eq!(header.num_blocks, 12);
}

#[test]
fn test_roundtrip() {
    let header = Header::new(CtType::Left, 8);
    let bytes = header.to_vec();
    assert_eq!(header, Header::from_slice(&bytes).unwrap());
}

#[test]
fn test_roundtrip_with_ignored_trailing_bytes() {
    let header = Header::new(CtType::Left, 8);
    let mut bytes: Vec<u8> = Vec::new();
    bytes.extend(header.to_vec());
    bytes.extend(vec![1, 2, 3, 4]);
    assert_eq!(header, Header::from_slice(&bytes).unwrap());
}

#[test]
fn header_bytes_are_big_endian() {
    let header = Header::new(CtType::Combined, 0x0102);
    assert_eq!(header.to_vec(), vec![0, 0, 0, 2, 1, 2]);
}

#[test]
fn header_rejects_short_input_and_unknown_kind() {
    assert!(Header::from_slice(&[0, 0, 0, 0, 0]).is_err());
    assert!(Header::from_slice(&[0, 0, 0, 3, 0, 1]).is_err());
}

#[test]
fn header_comparability() {
    let left = Header::new(CtType::Left, 8);
    let right = Header::new(CtType::Right, 8);
    let combined = Header::new(CtType::Combined, 8);
    assert!(left.comparable(&right));
    assert!(left.comparable(&combined));
    assert!(combined.comparable(&combined));
    assert!(combined.comparable(&right));
    assert!(!combined.comparable(&left));
    assert!(!right.comparable(&left));
    assert!(!left.comparable(&Header::new(CtType::Combined, 4)));
}
