use rewards::claim::{Address, Claim};
use rewards::merkle::{leaf_digest, verify_proof};
use rewards::pipeline::{
    build_claims, build_publication, document_to_json, finalize_output, MerkleTreeEntry,
    PublishDocument,
};
use rewards::sources::{MetaEntry, SourceMeta};
use rewards::uint256::Uint256;

fn addr(last: u8) -> Address {
    let mut bytes = vec![0u8; 20];
    bytes[19] = last;
    Address { bytes }
}

fn claim(account_last: u8, token_last: u8, amount: u64) -> Claim {
    Claim {
        account: addr(account_last),
        reward_token: addr(token_last),
        amount: Uint256::from_u64(amount),
    }
}

fn unhex(s: &str) -> Vec<u8> {
    let raw = s.strip_prefix("0x").unwrap();
    (0..raw.len() / 2)
        .map(|i| u8::from_str_radix(&raw[2 * i..2 * i + 2], 16).unwrap())
        .collect()
}

#[test]
fn empty_claim_list_publishes_nothing() {
    let claims: Vec<Claim> = Vec::new();
    let publication = build_publication(&claims, &addr(0), Vec::new());
    assert!(publication.is_none());
}

#[test]
fn claims_pair_accounts_with_amounts() {
    let accounts = vec![addr(1), addr(2)];
    let amounts = vec![Uint256::from_u64(10), Uint256::from_u64(20)];
    let claims = build_claims(accounts, &addr(9), amounts);
    assert_eq!(claims.len(), 2);
    assert_eq!(claims[0].account.bytes[19], 1);
    assert_eq!(claims[0].reward_token.bytes[19], 9);
    assert_eq!(claims[1].amount.limbs, vec![20, 0, 0, 0]);
}

#[test]
fn end_to_end_two_claims() {
    // Two claims; the whole run, in both claim orders.
    let claims_a = vec![claim(0, 0, 1_000_000_000_000_000_000), claim(1, 0, 2_000_000_000_000_000_000)];
    let claims_b = vec![claim(1, 0, 2_000_000_000_000_000_000), claim(0, 0, 1_000_000_000_000_000_000)];
    let sources = vec![SourceMeta {
        name: "ERC721".to_string(),
        entries: vec![MetaEntry { key: "rate".to_string(), value: "1".to_string() }],
    }];

    let pub_a = build_publication(&claims_a, &addr(0), sources).unwrap();
    let pub_b = build_publication(&claims_b, &addr(0), Vec::new()).unwrap();

    // The committed root is the same whichever claim came first.
    assert_eq!(pub_a.document.root, pub_b.document.root);
    let root_bytes = unhex(&pub_a.document.root);
    assert_eq!(root_bytes.len(), 32);

    // The document holds two entries whose proofs validate against the root.
    assert_eq!(pub_a.document.tree.len(), 2);
    for (i, entry) in pub_a.document.tree.iter().enumerate() {
        let leaf = leaf_digest(&claims_a[i]);
        let proof: Vec<Vec<u8>> = entry.proof.iter().map(|p| unhex(p)).collect();
        let rebuilt = verify_proof(&leaf, &proof);
        assert_eq!(to_hex(&rebuilt), pub_a.document.root);
    }

    // Document metadata reflects the distribution.
    assert_eq!(pub_a.document.num_accounts, 2);
    assert_eq!(pub_a.document.total_rewards, "3000000000000000000");
    assert_eq!(pub_a.document.id, pub_a.document.root);
    assert_eq!(pub_a.document.tree[0].claimable, "1000000000000000000");
    assert_eq!(pub_a.document.tree[1].claimable, "2000000000000000000");

    // The upload body wraps the document's JSON.
    let json: String = document_to_json(&pub_a.document).into_iter().collect();
    let body = String::from_utf8(pub_a.upload_body.clone()).unwrap();
    assert!(body.contains(&json));

    // The final record carries the same root, whichever order was used.
    let cid = "QmYwAPJzv5CZsnA625s3Xf2nemtYgPpHdWEz79ojWnPbdG";
    let out_a = finalize_output(7, &root_bytes, cid).unwrap();
    let out_b = finalize_output(7, &unhex(&pub_b.document.root), cid).unwrap();
    assert_eq!(out_a, out_b);
    // DataWithId: two words of envelope, a length word, then the tuple,
    // whose first word is the root.
    assert_eq!(&out_a[96..128], &root_bytes[..]);
}

fn to_hex(bytes: &[u8]) -> String {
    let mut s = "0x".to_string();
    for b in bytes {
        s.push_str(&format!("{:02x}", b));
    }
    s
}

#[test]
fn document_json_is_canonical() {
    let doc = PublishDocument {
        id: "0xab".to_string(),
        num_accounts: 1,
        reward_token_address: "0x00".to_string(),
        total_rewards: "5".to_string(),
        sources: vec![SourceMeta {
            name: "s\"1".to_string(),
            entries: vec![MetaEntry { key: "k".to_string(), value: "v".to_string() }],
        }],
        root: "0xab".to_string(),
        tree: vec![MerkleTreeEntry {
            account: "0x01".to_string(),
            reward: "0x00".to_string(),
            claimable: "5".to_string(),
            proof: vec!["0xcd".to_string(), "0xef".to_string()],
        }],
    };
    let json: String = document_to_json(&doc).into_iter().collect();
    assert_eq!(
        json,
        "{\"id\":\"0xab\",\"metadata\":{\"num_accounts\":1,\
         \"reward_token_address\":\"0x00\",\"total_rewards\":\"5\",\
         \"sources\":[{\"metadata\":{\"k\":\"v\"},\"name\":\"s\\\"1\"}]},\
         \"root\":\"0xab\",\"tree\":[{\"account\":\"0x01\",\"reward\":\"0x00\",\
         \"claimable\":\"5\",\"proof\":[\"0xcd\",\"0xef\"]}]}"
    );
}

#[test]
fn total_rewards_may_exceed_the_single_claim_range() {
    // Two maximal amounts: the documented total is their exact sum, which
    // no single 256-bit amount could hold.
    let max = Uint256 { limbs: vec![u64::MAX, u64::MAX, u64::MAX, u64::MAX] };
    let claims = vec![
        Claim { account: addr(1), reward_token: addr(0), amount: max.dup() },
        Claim { account: addr(2), reward_token: addr(0), amount: max },
    ];
    let publication = build_publication(&claims, &addr(0), Vec::new()).unwrap();
    assert_eq!(
        publication.document.total_rewards,
        "231584178474632390847141970017375815706539969331281128078915168015826259279870"
    );
}

#[test]
fn finalize_accepts_a_multibase_reference() {
    let root = vec![0x11u8; 32];
    let out = finalize_output(
        9,
        &root,
        "bafybeigdyrzt5sfp7udm7hu76uh7y26nf3efuylqabf3oclgtqy55fbzdi",
    )
    .unwrap();
    assert_eq!(&out[96..128], &root[..]);
}

#[test]
fn document_records_the_handed_in_sources() {
    let sources = vec![SourceMeta {
        name: "ERC721".to_string(),
        entries: vec![MetaEntry { key: "address".to_string(), value: "0x00".to_string() }],
    }];
    let claims = vec![claim(1, 0, 5)];
    let publication = build_publication(&claims, &addr(0), sources).unwrap();
    assert_eq!(publication.document.sources.len(), 1);
    assert_eq!(publication.document.sources[0].name, "ERC721");
    assert_eq!(publication.document.sources[0].entries[0].key, "address");
}

#[test]
fn finalize_rejects_an_undecodable_reference() {
    let root = vec![0u8; 32];
    assert!(finalize_output(1, &root, "not a cid !!").is_err());
}
