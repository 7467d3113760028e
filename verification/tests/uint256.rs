use rewards::uint256::Uint256;

fn from_limbs(l0: u64, l1: u64, l2: u64, l3: u64) -> Uint256 {
    Uint256 { limbs: vec![l0, l1, l2, l3] }
}

fn dec(x: &Uint256) -> String {
    x.to_decimal().into_iter().collect()
}

#[test]
fn addition_is_exact() {
    let a = Uint256::from_u64(41);
    let b = Uint256::from_u64(1);
    let c = a.checked_add(&b).unwrap();
    assert_eq!(dec(&c), "42");
}

#[test]
fn addition_carries_across_limbs() {
    let a = from_limbs(u64::MAX, 0, 0, 0);
    let b = Uint256::from_u64(1);
    let c = a.checked_add(&b).unwrap();
    assert_eq!(c.limbs, vec![0, 1, 0, 0]);
}

#[test]
fn addition_overflow_is_detected() {
    let max = from_limbs(u64::MAX, u64::MAX, u64::MAX, u64::MAX);
    let one = Uint256::from_u64(1);
    assert!(max.checked_add(&one).is_none());
    assert!(max.checked_add(&max).is_none());
}

#[test]
fn multiplication_is_exact() {
    let a = Uint256::from_u64(1_000_000_000_000_000_000);
    let b = Uint256::from_u64(3);
    let c = a.checked_mul(&b).unwrap();
    assert_eq!(dec(&c), "3000000000000000000");
}

#[test]
fn multiplication_crosses_limbs() {
    // 2^64 * 2^64 == 2^128
    let x = from_limbs(0, 1, 0, 0);
    let c = x.checked_mul(&x).unwrap();
    assert_eq!(c.limbs, vec![0, 0, 1, 0]);
}

#[test]
fn multiplication_overflow_is_detected() {
    // (2^128)^2 == 2^256 does not fit.
    let x = from_limbs(0, 0, 1, 0);
    assert!(x.checked_mul(&x).is_none());
    let max = from_limbs(u64::MAX, u64::MAX, u64::MAX, u64::MAX);
    let two = Uint256::from_u64(2);
    assert!(max.checked_mul(&two).is_none());
    let one = Uint256::from_u64(1);
    assert_eq!(max.checked_mul(&one).unwrap().limbs, max.limbs);
}

#[test]
fn decimal_of_zero_and_max() {
    assert_eq!(dec(&Uint256::zero()), "0");
    let max = from_limbs(u64::MAX, u64::MAX, u64::MAX, u64::MAX);
    assert_eq!(
        dec(&max),
        "115792089237316195423570985008687907853269984665640564039457584007913129639935"
    );
}

#[test]
fn be_bytes_round_trip() {
    let mut bytes = vec![0u8; 32];
    bytes[31] = 0x2a;
    bytes[0] = 0x01;
    let v = Uint256::from_be_bytes(&bytes);
    assert_eq!(v.to_be_bytes(), bytes);
    let w = Uint256::from_u64(0x0102_0304_0506_0708);
    let wb = w.to_be_bytes();
    assert_eq!(&wb[24..32], &[1, 2, 3, 4, 5, 6, 7, 8]);
    assert_eq!(&wb[0..24], &[0u8; 24]);
}

#[test]
fn value_equality_ignores_nothing() {
    let a = Uint256::from_u64(7);
    let b = Uint256::from_u64(7);
    let c = Uint256::from_u64(8);
    assert!(a.eq_value(&b));
    assert!(!a.eq_value(&c));
}
