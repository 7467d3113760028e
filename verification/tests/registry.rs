use rewards::claim::Address;
use rewards::sources::{
    aggregate_accounts, sum_rewards, MetaEntry, Source, SourceRegistry,
};
use rewards::uint256::Uint256;
use rewards::RewardsError;

fn addr(last: u8) -> Address {
    let mut bytes = vec![0u8; 20];
    bytes[19] = last;
    Address { bytes }
}

struct FixedSource {
    name: String,
    accounts: Vec<u8>,
    reward: Vec<u64>,
}

impl Source for FixedSource {
    fn get_name(&self) -> String {
        self.name.clone()
    }

    fn get_accounts(&self) -> Result<Vec<Address>, RewardsError> {
        Ok(self.accounts.iter().map(|&b| addr(b)).collect())
    }

    fn get_rewards(&self, _account: &Address) -> Result<Uint256, RewardsError> {
        Ok(Uint256 { limbs: self.reward.clone() })
    }

    fn get_metadata(&self) -> Result<Vec<MetaEntry>, RewardsError> {
        Ok(vec![MetaEntry { key: "kind".to_string(), value: "fixed".to_string() }])
    }
}

#[test]
fn accounts_are_the_deduplicated_union() {
    // One source reports {A, B}, another {B, C}.
    let mut registry = SourceRegistry::new();
    registry.add_source(Box::new(FixedSource {
        name: "one".to_string(),
        accounts: vec![1, 2],
        reward: vec![5, 0, 0, 0],
    }));
    registry.add_source(Box::new(FixedSource {
        name: "two".to_string(),
        accounts: vec![2, 3],
        reward: vec![7, 0, 0, 0],
    }));
    let accounts = registry.get_accounts().unwrap();
    let lasts: Vec<u8> = accounts.iter().map(|a| a.bytes[19]).collect();
    assert_eq!(lasts, vec![1, 2, 3]);
}

#[test]
fn rewards_sum_across_sources() {
    let mut registry = SourceRegistry::new();
    registry.add_source(Box::new(FixedSource {
        name: "one".to_string(),
        accounts: vec![1],
        reward: vec![5, 0, 0, 0],
    }));
    registry.add_source(Box::new(FixedSource {
        name: "two".to_string(),
        accounts: vec![1],
        reward: vec![7, 0, 0, 0],
    }));
    let total = registry.get_rewards(&addr(1)).unwrap();
    assert_eq!(total.limbs, vec![12, 0, 0, 0]);
}

#[test]
fn reward_overflow_is_reported() {
    let max = vec![u64::MAX, u64::MAX, u64::MAX, u64::MAX];
    let mut registry = SourceRegistry::new();
    registry.add_source(Box::new(FixedSource {
        name: "one".to_string(),
        accounts: vec![1],
        reward: max.clone(),
    }));
    registry.add_source(Box::new(FixedSource {
        name: "two".to_string(),
        accounts: vec![1],
        reward: vec![1, 0, 0, 0],
    }));
    match registry.get_rewards(&addr(1)) {
        Err(e) => assert_eq!(e, RewardsError::Overflow),
        Ok(_) => panic!("an overflowing sum was accepted"),
    }
}

#[test]
fn sum_rewards_adds_exactly_and_detects_overflow() {
    let amounts = vec![
        Uint256 { limbs: vec![1, 0, 0, 0] },
        Uint256 { limbs: vec![2, 0, 0, 0] },
        Uint256 { limbs: vec![3, 0, 0, 0] },
    ];
    let total = sum_rewards(&amounts).unwrap();
    assert_eq!(total.limbs, vec![6, 0, 0, 0]);

    let overflowing = vec![
        Uint256 { limbs: vec![u64::MAX, u64::MAX, u64::MAX, u64::MAX] },
        Uint256 { limbs: vec![1, 0, 0, 0] },
    ];
    assert_eq!(sum_rewards(&overflowing).unwrap_err(), RewardsError::Overflow);
}

#[test]
fn aggregate_accounts_unions_groups() {
    let groups = vec![
        vec![addr(1), addr(2)],
        vec![addr(2), addr(3)],
        vec![],
        vec![addr(1)],
    ];
    let merged = aggregate_accounts(&groups);
    let lasts: Vec<u8> = merged.iter().map(|a| a.bytes[19]).collect();
    assert_eq!(lasts, vec![1, 2, 3]);
}

#[test]
fn metadata_lists_every_source_in_order() {
    let mut registry = SourceRegistry::new();
    registry.add_source(Box::new(FixedSource {
        name: "one".to_string(),
        accounts: vec![],
        reward: vec![0, 0, 0, 0],
    }));
    registry.add_source(Box::new(FixedSource {
        name: "two".to_string(),
        accounts: vec![],
        reward: vec![0, 0, 0, 0],
    }));
    let metas = registry.get_sources_with_metadata().unwrap();
    assert_eq!(metas.len(), 2);
    assert_eq!(metas[0].name, "one");
    assert_eq!(metas[1].name, "two");
    assert_eq!(metas[0].entries[0].key, "kind");
}

#[test]
fn empty_registry_reports_nothing() {
    let registry = SourceRegistry::new();
    let accounts = registry.get_accounts().unwrap();
    assert!(accounts.is_empty());
    let total = registry.get_rewards(&addr(1)).unwrap();
    assert!(total.is_zero());
    let metas = registry.get_sources_with_metadata().unwrap();
    assert!(metas.is_empty());
}
