use rewards::claim::{Address, Claim};
use rewards::merkle::{get_merkle_tree, leaf_digest, verify_proof};
use rewards::uint256::Uint256;
use rewards::RewardsError;

fn addr(last: u8) -> Address {
    let mut bytes = vec![0u8; 20];
    bytes[19] = last;
    Address { bytes }
}

fn amount_u64(x: u64) -> Uint256 {
    Uint256 { limbs: vec![x, 0, 0, 0] }
}

fn claim(account_last: u8, token_last: u8, amount: u64) -> Claim {
    Claim {
        account: addr(account_last),
        reward_token: addr(token_last),
        amount: amount_u64(amount),
    }
}

#[test]
fn empty_claim_list_yields_no_tree() {
    let claims: Vec<Claim> = Vec::new();
    match get_merkle_tree(&claims) {
        Err(e) => assert_eq!(e, RewardsError::EmptyDistribution),
        Ok(_) => panic!("a tree was built from no claims"),
    }
}

#[test]
fn single_claim_root_is_leaf_hash_with_empty_proof() {
    let c = claim(1, 0, 1_000_000_000_000_000_000);
    let claims = vec![c];
    let tree = get_merkle_tree(&claims).unwrap();
    let root = tree.root();
    let leaf = leaf_digest(&claims[0]);
    assert_eq!(root, leaf);
    let proof = tree.proof_at(0);
    assert!(proof.is_empty());
}

#[test]
fn root_is_order_independent() {
    let a = || claim(1, 9, 10);
    let b = || claim(2, 9, 20);
    let c = || claim(3, 9, 30);
    let t1 = get_merkle_tree(&vec![a(), b(), c()]).unwrap();
    let t2 = get_merkle_tree(&vec![c(), a(), b()]).unwrap();
    let t3 = get_merkle_tree(&vec![b(), c(), a()]).unwrap();
    assert_eq!(t1.root(), t2.root());
    assert_eq!(t1.root(), t3.root());
}

#[test]
fn every_proof_reconstructs_the_root() {
    let claims = vec![
        claim(1, 9, 10),
        claim(2, 9, 20),
        claim(3, 9, 30),
        claim(4, 9, 40),
        claim(5, 9, 50),
    ];
    let tree = get_merkle_tree(&claims).unwrap();
    let root = tree.root();
    for c in &claims {
        let leaf = leaf_digest(c);
        let pos = tree.find_leaf_pos(&leaf).expect("leaf of a claim in the tree");
        let proof = tree.proof_at(pos);
        let rebuilt = verify_proof(&leaf, &proof);
        assert_eq!(rebuilt, root);
    }
}

#[test]
fn duplicate_claims_are_distinct_leaves() {
    let claims = vec![claim(1, 9, 10), claim(1, 9, 10), claim(2, 9, 20)];
    let tree = get_merkle_tree(&claims).unwrap();
    let root = tree.root();
    let leaf = leaf_digest(&claims[0]);
    let pos = tree.find_leaf_pos(&leaf).unwrap();
    let proof = tree.proof_at(pos);
    assert_eq!(verify_proof(&leaf, &proof), root);
}

#[test]
fn tampered_proof_does_not_reconstruct_the_root() {
    let claims = vec![claim(1, 9, 10), claim(2, 9, 20)];
    let tree = get_merkle_tree(&claims).unwrap();
    let root = tree.root();
    let leaf = leaf_digest(&claims[0]);
    let pos = tree.find_leaf_pos(&leaf).unwrap();
    let mut proof = tree.proof_at(pos);
    proof[0][0] ^= 1;
    assert_ne!(verify_proof(&leaf, &proof), root);
}
