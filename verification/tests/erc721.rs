use rewards::claim::Address;
use rewards::erc721::{
    decode_address_array, decode_uint_word, encode_all_holders_call, encode_balance_of_call,
    reward_for_balance, ChainReader, Erc721Source,
};
use rewards::sources::Source;
use rewards::uint256::Uint256;
use rewards::RewardsError;

fn addr(last: u8) -> Address {
    let mut bytes = vec![0u8; 20];
    bytes[19] = last;
    Address { bytes }
}

/// Serves a fixed holder set and one balance for every owner.
struct FixedChain {
    holders: Vec<u8>,
    balance: u64,
}

impl ChainReader for FixedChain {
    fn call_contract(&self, _to: &Address, input: &Vec<u8>) -> Result<Vec<u8>, RewardsError> {
        if input.len() == 4 {
            // Holder enumeration: offset word, count word, one word per holder.
            let mut out = vec![0u8; 32];
            out[31] = 32;
            let mut count = vec![0u8; 32];
            count[31] = self.holders.len() as u8;
            out.extend_from_slice(&count);
            for &h in &self.holders {
                let mut word = vec![0u8; 32];
                word[31] = h;
                out.extend_from_slice(&word);
            }
            Ok(out)
        } else {
            // Balance query: one 32-byte word.
            let mut out = vec![0u8; 24];
            out.extend_from_slice(&self.balance.to_be_bytes());
            Ok(out)
        }
    }
}

#[test]
fn balance_of_selector_is_the_known_one() {
    let call = encode_balance_of_call(&addr(1));
    assert_eq!(&call[0..4], &[0x70, 0xa0, 0x82, 0x31]);
    assert_eq!(call.len(), 36);
    assert_eq!(&call[4..16], &[0u8; 12]);
    assert_eq!(call[35], 1);
}

#[test]
fn holder_call_is_a_bare_selector() {
    let call = encode_all_holders_call();
    assert_eq!(call.len(), 4);
    // The selector differs from balanceOf's: it hashes another signature.
    assert_ne!(&call[..], &[0x70, 0xa0, 0x82, 0x31]);
}

#[test]
fn uint_word_decodes_exactly_32_bytes() {
    let mut word = vec![0u8; 32];
    word[31] = 9;
    let v = decode_uint_word(&word).unwrap();
    assert_eq!(v.limbs, vec![9, 0, 0, 0]);
    assert_eq!(decode_uint_word(&vec![0u8; 31]).unwrap_err(), RewardsError::SourceQueryFailure);
    assert_eq!(decode_uint_word(&vec![0u8; 33]).unwrap_err(), RewardsError::SourceQueryFailure);
}

#[test]
fn address_array_decoding_round_trips() {
    let chain = FixedChain { holders: vec![3, 4], balance: 0 };
    let raw = chain.call_contract(&addr(0), &vec![0u8; 4]).unwrap();
    let decoded = decode_address_array(&raw).unwrap();
    assert_eq!(decoded.len(), 2);
    assert_eq!(decoded[0].bytes[19], 3);
    assert_eq!(decoded[1].bytes[19], 4);
}

#[test]
fn malformed_address_array_is_rejected() {
    // Too short.
    assert!(decode_address_array(&vec![0u8; 32]).is_err());
    // Offset word not 32.
    let mut bad = vec![0u8; 64];
    bad[31] = 33;
    assert!(decode_address_array(&bad).is_err());
    // Count word longer than the data.
    let mut bad2 = vec![0u8; 64];
    bad2[31] = 32;
    bad2[63] = 2;
    assert!(decode_address_array(&bad2).is_err());
    // A padded address word with a nonzero pad byte.
    let mut bad3 = vec![0u8; 96];
    bad3[31] = 32;
    bad3[63] = 1;
    bad3[64] = 0xff;
    assert!(decode_address_array(&bad3).is_err());
}

#[test]
fn rewards_are_rate_times_balance() {
    let chain = FixedChain { holders: vec![1, 2], balance: 3 };
    let rate = Uint256::from_u64(1_000_000_000_000_000_000);
    let source =
        Erc721Source::new("0x00000000000000000000000000000000000000aa", rate, chain).unwrap();
    let accounts = source.get_accounts().unwrap();
    assert_eq!(accounts.len(), 2);
    let reward = source.get_rewards(&accounts[0]).unwrap();
    let dec: String = reward.to_decimal().into_iter().collect();
    assert_eq!(dec, "3000000000000000000");
}

#[test]
fn zero_balance_yields_zero_reward() {
    let chain = FixedChain { holders: vec![1], balance: 0 };
    let rate = Uint256::from_u64(5);
    let source =
        Erc721Source::new("0x00000000000000000000000000000000000000aa", rate, chain).unwrap();
    let reward = source.get_rewards(&addr(1)).unwrap();
    assert!(reward.is_zero());
}

#[test]
fn malformed_contract_address_fails_at_construction() {
    let chain = FixedChain { holders: vec![], balance: 0 };
    let rate = Uint256::from_u64(1);
    assert!(Erc721Source::new("not an address", rate, chain).is_err());
    let chain2 = FixedChain { holders: vec![], balance: 0 };
    let rate2 = Uint256::from_u64(1);
    assert!(Erc721Source::new("0x1234", rate2, chain2).is_err());
}

#[test]
fn reward_multiplication_overflow_is_reported() {
    let max = Uint256 { limbs: vec![u64::MAX, u64::MAX, u64::MAX, u64::MAX] };
    let two = Uint256::from_u64(2);
    assert_eq!(reward_for_balance(&max, &two).unwrap_err(), RewardsError::Overflow);
    let one = Uint256::from_u64(1);
    assert_eq!(reward_for_balance(&max, &one).unwrap().limbs, max.limbs);
}

#[test]
fn source_metadata_names_the_contract_and_rate() {
    let chain = FixedChain { holders: vec![], balance: 0 };
    let rate = Uint256::from_u64(7);
    let source =
        Erc721Source::new("0x00000000000000000000000000000000000000Aa", rate, chain).unwrap();
    assert_eq!(source.get_name(), "ERC721");
    let entries = source.get_metadata().unwrap();
    assert_eq!(entries[0].key, "address");
    assert_eq!(entries[0].value, "0x00000000000000000000000000000000000000aa");
    assert_eq!(entries[1].key, "rewards_per_token");
    assert_eq!(entries[1].value, "7");
}
