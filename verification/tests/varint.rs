use flatbin::varint::{read_varint, write_varint, VarInt, VarIntError};

#[test]
fn small_varints() {
    for value in 0..100_000u64 {
        let a = VarInt::from_u64(value);
        assert_eq!(a.as_u64(), value);
        assert_eq!(VarInt::from_slice(a.as_bytes()).unwrap().as_u64(), value);
    }
}

#[test]
fn large_varints() {
    for divisor in [1, 10, 100, 1000, 10_1000, 100_000] {
        let value = u64::MAX / divisor;
        let a = VarInt::from_u64(value);
        assert_eq!(a.as_u64(), value);
        assert_eq!(VarInt::from_slice(a.as_bytes()).unwrap().as_u64(), value);
    }
}

#[test]
fn varint_exact_bytes() {
    assert_eq!(VarInt::from_u64(0).as_bytes(), &[0]);
    assert_eq!(VarInt::from_u64(127).as_bytes(), &[127]);
    assert_eq!(VarInt::from_u64(128).as_bytes(), &[0x80, 1]);
    assert_eq!(VarInt::from_u64(300).as_bytes(), &[0xAC, 2]);
    assert_eq!(VarInt::from_u64(u64::MAX).num_bytes(), 10);
    assert_eq!(VarInt::from_u32(300).as_bytes(), &[0xAC, 2]);
    assert_eq!(VarInt::from_u16(300).as_bytes(), &[0xAC, 2]);
    assert_eq!(VarInt::from_u8(200).as_bytes(), &[0xC8, 1]);
    assert_eq!(VarInt::from_usize(300).as_bytes(), &[0xAC, 2]);
    assert_eq!(VarInt::from_u64(300).as_usize(), Some(300));
}

#[test]
fn varint_read_write() {
    let mut buf = Vec::new();
    write_varint(&mut buf, 300);
    write_varint(&mut buf, 5);
    let (v, n) = read_varint(&buf).unwrap();
    assert_eq!((v, n), (300, 2));
    let (v2, n2) = read_varint(&buf[n..]).unwrap();
    assert_eq!((v2, n2), (5, 1));
}

#[test]
fn varint_errors() {
    assert!(matches!(
        VarInt::from_slice(&[]),
        Err(VarIntError::UnexpectedEOF)
    ));
    assert!(matches!(
        VarInt::from_slice(&[0x80, 0x80]),
        Err(VarIntError::UnexpectedEOF)
    ));
    assert!(matches!(
        VarInt::from_slice(&[0x80; 11]),
        Err(VarIntError::TooLarge)
    ));
}
