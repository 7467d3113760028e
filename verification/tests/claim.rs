use rewards::claim::{Address, Claim};
use rewards::uint256::Uint256;

#[test]
fn address_parsing_accepts_both_cases() {
    let a = Address::parse("0x00000000000000000000000000000000000000Ff").unwrap();
    assert_eq!(a.bytes.len(), 20);
    assert_eq!(a.bytes[19], 0xff);
    assert_eq!(a.to_hex(), "0x00000000000000000000000000000000000000ff");
}

#[test]
fn address_parsing_rejects_malformed_strings() {
    assert!(Address::parse("").is_none());
    assert!(Address::parse("0x123").is_none());
    assert!(Address::parse("00000000000000000000000000000000000000ff00").is_none());
    assert!(Address::parse("0x00000000000000000000000000000000000000zz").is_none());
}

#[test]
fn address_equality_is_by_bytes() {
    let a = Address::parse("0x00000000000000000000000000000000000000aa").unwrap();
    let b = Address::parse("0x00000000000000000000000000000000000000AA").unwrap();
    let c = Address::parse("0x00000000000000000000000000000000000000ab").unwrap();
    assert!(a.eq_addr(&b));
    assert!(!a.eq_addr(&c));
}

#[test]
fn claims_duplicate_faithfully() {
    let c = Claim {
        account: Address { bytes: vec![1u8; 20] },
        reward_token: Address { bytes: vec![2u8; 20] },
        amount: Uint256::from_u64(99),
    };
    let d = c.dup();
    assert_eq!(d.account.bytes, c.account.bytes);
    assert_eq!(d.reward_token.bytes, c.reward_token.bytes);
    assert_eq!(d.amount.limbs, c.amount.limbs);
}
