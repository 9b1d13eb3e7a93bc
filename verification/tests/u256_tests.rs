use axe_chain::u256::U256;

fn be_of(v: u64) -> [u8; 32] {
    let mut b = [0u8; 32];
    b[24..].copy_from_slice(&v.to_be_bytes());
    b
}

#[test]
fn u256_small_arithmetic() {
    let a = U256::from_u64(1000);
    let b = U256::from_u64(24);
    assert_eq!(a.checked_add(&b).unwrap().to_big_endian(), be_of(1024));
    assert_eq!(a.checked_mul_u64(3).unwrap().to_big_endian(), be_of(3000));
    assert_eq!(a.div_u64(7).to_big_endian(), be_of(142));
    assert!(b.lt(&a));
    assert!(!a.lt(&b));
    assert!(!a.lt(&a));
    assert_eq!(a.min(b).to_big_endian(), be_of(24));
}

#[test]
fn u256_overflow_is_reported() {
    let max = U256::max_value();
    assert!(max.checked_add(&U256::from_u64(1)).is_none());
    assert!(max.checked_add(&U256::zero()).is_some());
    assert!(max.checked_mul_u64(2).is_none());
    assert_eq!(max.to_big_endian(), [0xffu8; 32]);
}

#[test]
fn u256_carries_across_limbs() {
    let x = U256::from_u64(u64::MAX);
    let y = x.checked_add(&U256::from_u64(1)).unwrap();
    let mut expected = [0u8; 32];
    expected[23] = 1;
    assert_eq!(y.to_big_endian(), expected);
    assert_eq!(y.div_u64(2).to_big_endian(), be_of(1u64 << 63));
    let mut le = expected;
    le.reverse();
    assert_eq!(y.to_little_endian(), le);
}

#[test]
fn u256_bytes_round_trip() {
    let mut bytes = [0u8; 32];
    for (i, b) in bytes.iter_mut().enumerate() {
        *b = (i as u8).wrapping_mul(37).wrapping_add(11);
    }
    let v = U256::from_big_endian(&bytes);
    assert_eq!(v.to_big_endian(), bytes);
    let mut rev = bytes;
    rev.reverse();
    assert_eq!(v.to_little_endian(), rev);
}

#[test]
fn u256_decimal_parsing() {
    assert_eq!(U256::from_dec_str(b"").unwrap().to_big_endian(), be_of(0));
    assert_eq!(U256::from_dec_str(b"12345").unwrap().to_big_endian(), be_of(12345));
    assert!(U256::from_dec_str(b"12a45").is_none());
    assert!(U256::from_dec_str(b"-5").is_none());
    let max = "115792089237316195423570985008687907853269984665640564039457584007913129639935";
    assert_eq!(U256::from_dec_str(max.as_bytes()).unwrap().to_big_endian(), [0xffu8; 32]);
    let too_big = "115792089237316195423570985008687907853269984665640564039457584007913129639936";
    assert!(U256::from_dec_str(too_big.as_bytes()).is_none());
}

#[test]
fn min_target_is_two_to_the_240_minus_one() {
    let t = axe_chain::min_target();
    let mut expected = [0xffu8; 32];
    expected[0] = 0;
    expected[1] = 0;
    assert_eq!(t.to_big_endian(), expected);
}

#[test]
fn div_rem_gives_quotient_and_remainder() {
    let (q, r) = U256::from_u64(1000).div_rem_u64(16);
    assert!(q.eq(&U256::from_u64(62)));
    assert_eq!(r, 8);
    assert!(U256::from_u64(1000).div_u64(16).eq(&U256::from_u64(62)));
}

#[test]
fn lower_hex_of_values() {
    assert_eq!(U256::zero().to_lower_hex(), b"0".to_vec());
    assert_eq!(U256::from_u64(255).to_lower_hex(), b"ff".to_vec());
    assert_eq!(U256::from_u64(0x10a).to_lower_hex(), b"10a".to_vec());
    assert_eq!(U256::max_value().to_lower_hex(), vec![b'f'; 64]);
}
