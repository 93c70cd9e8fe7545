use ethereum_types::U128;
use primitives::{h128_from_u128, remove_0x_prefix, u128_from_h128, u256_from_u128, H128, U256};

#[test]
fn zero() {
    assert_eq!(H128::zero(), h128_from_u128(0));
}

#[test]
fn one() {
    assert_eq!(H128::from(1), h128_from_u128(1));
}

#[test]
fn u64_max_plus_1() {
    assert_eq!(H128::from(U128::from(std::u64::MAX) + 1), h128_from_u128(u128::from(std::u64::MAX) + 1));
}

#[test]
fn max_minus_1() {
    assert_eq!(H128::from(U128::max_value() - 1), h128_from_u128(std::u128::MAX - 1));
}

#[test]
fn u128_max() {
    assert_eq!(H128::from(U128::max_value()), h128_from_u128(std::u128::MAX));
}

#[test]
fn u128_zero() {
    assert_eq!(u256_from_u128(0), U128::zero().into());
}

#[test]
fn u128_one() {
    assert_eq!(u256_from_u128(1), U128::one().into());
}

#[test]
fn lib_u64_max_plus_1() {
    let u128: U128 = U128::from(std::u64::MAX) + 1;
    assert_eq!(u256_from_u128(u128::from(std::u64::MAX) + 1), u128.into());
}

#[test]
fn u128_max_minus_1() {
    let u128: U128 = U128::max_value() - 1;
    assert_eq!(u256_from_u128(std::u128::MAX - 1), u128.into());
}

#[test]
fn lib_u128_max() {
    assert_eq!(u256_from_u128(std::u128::MAX), U128::max_value().into());
}

#[test]
fn remove_0x_prefix_returns_the_same_if_it_does_not_start_with_0x() {
    const S: &str = "abcdef";
    assert_eq!("abcdef", remove_0x_prefix(S));
}

#[test]
fn remove_0x_prefix_returns_the_same_if_it_starts_with_0() {
    const S: &str = "0abcdef";
    assert_eq!("0abcdef", remove_0x_prefix(S));
}

#[test]
fn remove_0x_prefix_works() {
    const S: &str = "0xabcdef";
    assert_eq!("abcdef", remove_0x_prefix(S));
}

#[test]
fn remove_0x_prefix_returns_empty_string_if_input_is_0x() {
    const S: &str = "0x";
    assert_eq!("", remove_0x_prefix(S));
}

#[test]
fn remove_0x_prefix_keeps_uppercase_prefix_and_empty_input() {
    assert_eq!("0Xab", remove_0x_prefix("0Xab"));
    assert_eq!("", remove_0x_prefix(""));
    assert_eq!("0", remove_0x_prefix("0"));
    assert_eq!("x0ab", remove_0x_prefix("x0ab"));
}

#[test]
fn remove_0x_prefix_twice_is_once() {
    for s in ["abcdef", "0xabcdef", "0x", "0x0", "0xx", ""] {
        assert_eq!(remove_0x_prefix(remove_0x_prefix(s)), remove_0x_prefix(s));
    }
    assert_eq!(remove_0x_prefix(remove_0x_prefix("0x0xab")), "ab");
    assert_eq!(remove_0x_prefix("0x0xab"), "0xab");
}

#[test]
fn h128_bytes_are_big_endian() {
    let mut one = [0u8; 16];
    one[15] = 1;
    assert_eq!(h128_from_u128(1).0, one);
    let mut two_64 = [0u8; 16];
    two_64[7] = 1;
    assert_eq!(h128_from_u128(1u128 << 64).0, two_64);
    assert_eq!(h128_from_u128(u128::MAX).0, [0xffu8; 16]);
    assert_eq!(h128_from_u128(0x0102_0304_0506_0708_090a_0b0c_0d0e_0f10).0, [1, 2, 3, 4, 5, 6, 7, 8, 9, 10, 11, 12, 13, 14, 15, 16]);
}

#[test]
fn h128_round_trip() {
    for x in [0u128, 1, 255, 256, u64::MAX as u128, (u64::MAX as u128) + 1, (u64::MAX as u128) + 2, u128::MAX - 1, u128::MAX, 0x0123_4567_89ab_cdef_fedc_ba98_7654_3210] {
        assert_eq!(u128_from_h128(&h128_from_u128(x)), x);
    }
    let h = H128::from_hex("00112233445566778899aabbccddeeff").unwrap();
    assert_eq!(u128_from_h128(&h), 0x0011_2233_4455_6677_8899_aabb_ccdd_eeff);
    assert_eq!(h128_from_u128(u128_from_h128(&h)), h);
}

#[test]
fn u256_limb_layout() {
    assert_eq!(u256_from_u128(0).0, [0, 0, 0, 0]);
    assert_eq!(u256_from_u128(1).0, [1, 0, 0, 0]);
    assert_eq!(u256_from_u128(1u128 << 64).0, [0, 1, 0, 0]);
    assert_eq!(u256_from_u128((1u128 << 64) + 1).0, [1, 1, 0, 0]);
    assert_eq!(u256_from_u128(u128::MAX).0, [u64::MAX, u64::MAX, 0, 0]);
    assert_eq!(u256_from_u128(0x0123_4567_89ab_cdef_fedc_ba98_7654_3210).0, [0xfedc_ba98_7654_3210, 0x0123_4567_89ab_cdef, 0, 0]);
}

#[test]
fn u256_numeric_value() {
    assert_eq!(u256_from_u128((1u128 << 64) + 1), U256::from(1u64) + (U256::from(1u64) << 64));
    assert_eq!(u256_from_u128(u128::MAX), U256::from(u128::MAX));
}

#[test]
fn h256_from_u256_is_big_endian() {
    let v = U256([0x1112_1314_1516_1718, 0x2122_2324_2526_2728, 0x3132_3334_3536_3738, 0x4142_4344_4546_4748]);
    let h = primitives::H256::from(v);
    assert_eq!(h.to_hex(), "4142434445464748313233343536373821222324252627281112131415161718");
    assert_eq!(primitives::H256::from(U256::from(1u64)), primitives::H256::from(1u64));
    assert_eq!(primitives::H256::from(U256::MAX), primitives::H256::max());
    assert_eq!(primitives::H256::from(u256_from_u128(u128::MAX)).0[..16], [0u8; 16]);
}
