use primitives::{FormatError, H128, H160, H256, H264, H512, H520};

#[test]
fn zero_is_default_and_max_is_all_ff() {
    assert_eq!(H256::zero(), H256::default());
    assert_eq!(H256::zero().0, [0u8; 32]);
    assert_eq!(H520::max().0, [0xffu8; 65]);
    assert_eq!(H160::max().to_hex(), "f".repeat(40));
}

#[test]
fn from_u64_fills_the_low_bytes() {
    let h = H256::from(0x0102_0304_0506_0708u64);
    let mut expected = [0u8; 32];
    expected[24..].copy_from_slice(&[1, 2, 3, 4, 5, 6, 7, 8]);
    assert_eq!(h.0, expected);
    assert_eq!(H264::from(1u64).0[32], 1);
    assert_eq!(H264::from(1u64).0[..32], [0u8; 32]);
    assert_eq!(H512::from(u64::MAX).0[56..], [0xffu8; 8]);
    assert_eq!(H160::from(0u64), H160::zero());
}

#[test]
fn to_hex_is_lowercase_without_prefix() {
    let h = H128::from(0xabcdu64);
    assert_eq!(h.to_hex(), "0000000000000000000000000000abcd");
    assert_eq!(H128::zero().to_hex(), "0".repeat(32));
}

#[test]
fn hex_round_trip_every_width() {
    let h = H128::from(0xdead_beefu64);
    assert_eq!(H128::from_hex(&h.to_hex()), Ok(h));
    let h = H160::from(12345u64);
    assert_eq!(H160::from_hex(&h.to_hex()), Ok(h));
    let h = H256::max();
    assert_eq!(H256::from_hex(&h.to_hex()), Ok(h));
    let h = H264::from(7u64);
    assert_eq!(H264::from_hex(&format!("0x{}", h.to_hex())), Ok(h));
    let h = H512::from(u64::MAX);
    assert_eq!(H512::from_hex(&h.to_hex()), Ok(h));
    let h = H520::zero();
    assert_eq!(H520::from_hex(&h.to_hex()), Ok(h));
}

#[test]
fn from_hex_accepts_either_case_and_prefix() {
    let lower = H128::from_hex("00000000000000000000000000abcdef").unwrap();
    let upper = H128::from_hex("00000000000000000000000000ABCDEF").unwrap();
    let prefixed = H128::from_hex("0x00000000000000000000000000AbCdEf").unwrap();
    assert_eq!(lower, H128::from(0xabcdefu64));
    assert_eq!(upper, lower);
    assert_eq!(prefixed, lower);
}

#[test]
fn from_hex_rejects_wrong_length() {
    assert_eq!(H128::from_hex(&"00".repeat(15)), Err(FormatError::InvalidLength));
    assert_eq!(H128::from_hex(&"00".repeat(17)), Err(FormatError::InvalidLength));
    assert_eq!(H128::from_hex(&"0".repeat(31)), Err(FormatError::InvalidLength));
    assert_eq!(H256::from_hex(""), Err(FormatError::InvalidLength));
    assert_eq!(H256::from_hex("0x"), Err(FormatError::InvalidLength));
    assert_eq!(H128::from_hex(&format!("0X{}", "00".repeat(16))), Err(FormatError::InvalidLength));
}

#[test]
fn from_hex_rejects_non_hex_characters() {
    let mut s = "00".repeat(16);
    s.replace_range(5..6, "g");
    assert_eq!(H128::from_hex(&s), Err(FormatError::InvalidCharacter(5)));
    let mut s = "00".repeat(20);
    s.replace_range(0..1, "x");
    s.replace_range(9..10, "z");
    assert_eq!(H160::from_hex(&s), Err(FormatError::InvalidCharacter(0)));
    let s = format!("0x{}-", "0".repeat(63));
    assert_eq!(H256::from_hex(&s), Err(FormatError::InvalidCharacter(63)));
}

#[test]
fn order_follows_big_endian_value() {
    let a = H256::from(1u64);
    let b = H256::from(2u64);
    let c = H256::from_hex(&format!("01{}", "00".repeat(31))).unwrap();
    assert!(a < b);
    assert!(b < c);
    assert!(H256::zero() < a);
    assert!(c < H256::max());
    assert!(!(b < b));
    assert_eq!(a.partial_cmp(&a), Some(std::cmp::Ordering::Equal));
    assert_eq!(a.cmp(&b), std::cmp::Ordering::Less);
    assert!(H128::from(0x100u64) > H128::from(0xffu64));
    assert_ne!(a, b);
}
