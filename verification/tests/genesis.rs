use znx::crypto::{CryptoError, Keypair};
use znx::genesis::{Genesis, GenesisError, RawGenesis, RawPremineEntry};
use znx::node::premine_is_bounded;
use znx::state::ErrorText;

fn raw() -> RawGenesis {
    RawGenesis {
        chain_id: "znx-test-1".to_string(),
        genesis_time: "1970-01-02T00:00:00+01:00".to_string(),
        subsidy_schedule: vec!["50".to_string(), "25".to_string()],
        subsidy_period_blocks: 100,
        target_block_time_secs: 120,
        difficulty_adjustment_interval_blocks: 2016,
        initial_target: "00FF".repeat(16),
        premine: vec![],
    }
}

fn entry(address: &str, amount: &str) -> RawPremineEntry {
    RawPremineEntry { address: address.to_string(), amount: amount.to_string() }
}

#[test]
fn a_file_is_read_field_by_field() {
    let owner = Keypair::from_secret_bytes([7u8; 32]).address();
    let mut raw = raw();
    raw.premine = vec![entry(&owner.to_bech32(), "85000000000000000000000000")];
    let genesis = Genesis::from_raw(raw).expect("un génesis que vale");
    assert_eq!(genesis.chain_id, "znx-test-1");
    assert_eq!(genesis.genesis_time_unix, 23 * 3600);
    assert_eq!(genesis.subsidy_schedule, vec![50, 25]);
    assert_eq!(genesis.subsidy_period_blocks, 100);
    assert_eq!(genesis.target_block_time_secs, 120);
    assert_eq!(genesis.difficulty_adjustment_interval_blocks, 2016);
    assert_eq!(genesis.initial_target[..4], [0, 0xff, 0, 0xff]);
    assert_eq!(genesis.premine, vec![(owner, 85_000_000_000_000_000_000_000_000)]);
    assert!(genesis.can_emit());
    assert!(genesis.can_retarget_by(u64::MAX));
    assert!(premine_is_bounded(&genesis));
}

#[test]
fn each_fault_of_a_file_has_its_error() {
    let fault = |change: &dyn Fn(&mut RawGenesis)| {
        let mut raw = raw();
        change(&mut raw);
        Genesis::from_raw(raw).unwrap_err()
    };
    assert!(matches!(fault(&|r| r.genesis_time = "ayer".to_string()), GenesisError::InvalidTimestamp(_)));
    assert_eq!(
        fault(&|r| r.genesis_time = "1969-12-31T23:59:59Z".to_string()),
        GenesisError::InvalidTimestamp("1969-12-31T23:59:59Z".to_string())
    );
    assert_eq!(fault(&|r| r.subsidy_schedule = vec![]), GenesisError::EmptySubsidySchedule);
    assert_eq!(
        fault(&|r| r.subsidy_schedule = vec!["1".to_string(), "x".to_string(), "y".to_string()]),
        GenesisError::InvalidSubsidy { index: 1, value: "x".to_string() }
    );
    assert_eq!(
        fault(&|r| r.initial_target = "00".to_string()),
        GenesisError::InvalidTarget("tiene que ser de 32 bytes (64 caracteres hex)".to_string())
    );
    let odd = fault(&|r| r.initial_target = "0".to_string());
    assert_eq!(odd, GenesisError::InvalidTarget("Odd number of digits".to_string()));
    assert_eq!(odd.describe(), "`initial_target` inválido en el génesis: Odd number of digits");
    assert!(matches!(
        fault(&|r| r.premine = vec![entry("nadie", "x")]),
        GenesisError::InvalidPremineAddress(a, CryptoError::AddressDecode(_)) if a == "nadie"
    ));
    let owner = Keypair::from_secret_bytes([7u8; 32]).address().to_bech32();
    assert_eq!(
        fault(&|r| r.premine = vec![entry(&owner, "x")]),
        GenesisError::InvalidPremineAmount { address: owner.clone(), value: "x".to_string() }
    );
}

#[test]
fn the_date_is_looked_at_first() {
    let mut raw = raw();
    raw.subsidy_schedule = vec![];
    raw.initial_target = "z".to_string();
    assert_eq!(
        Genesis::assemble(raw.clone(), Err("sin fecha".to_string()), vec![]).unwrap_err(),
        GenesisError::InvalidTimestamp("sin fecha".to_string())
    );
    assert_eq!(Genesis::assemble(raw, Ok(0), vec![]).unwrap_err(), GenesisError::EmptySubsidySchedule);
}

#[test]
fn parameters_without_periods_do_not_serve() {
    let read = |change: &dyn Fn(&mut RawGenesis)| {
        let mut raw = raw();
        change(&mut raw);
        Genesis::from_raw(raw).unwrap()
    };
    assert!(!read(&|r| r.subsidy_period_blocks = 0).can_emit());
    let hasty = read(&|r| {
        r.target_block_time_secs = 0;
        r.difficulty_adjustment_interval_blocks = 60;
    });
    assert!(hasty.can_emit());
    assert!(hasty.can_retarget_by(59));
    assert!(!hasty.can_retarget_by(60));
    assert!(read(&|r| r.target_block_time_secs = u64::MAX).can_retarget_by(u64::MAX));
    let fixed = read(&|r| {
        r.target_block_time_secs = 0;
        r.difficulty_adjustment_interval_blocks = 0;
    });
    assert!(fixed.can_retarget_by(u64::MAX));
}

#[test]
fn a_period_too_long_to_count_is_the_longest_there_is() {
    let mut raw = raw();
    raw.target_block_time_secs = u64::MAX;
    raw.difficulty_adjustment_interval_blocks = 2;
    assert_eq!(Genesis::from_raw(raw.clone()).unwrap().timespan(), u64::MAX);
    raw.target_block_time_secs = 15;
    raw.difficulty_adjustment_interval_blocks = 60;
    assert_eq!(Genesis::from_raw(raw).unwrap().timespan(), 900);
}

#[test]
fn a_premine_past_the_largest_number_is_not_bounded() {
    let owner = Keypair::from_secret_bytes([7u8; 32]).address().to_bech32();
    let mut raw = raw();
    raw.premine = vec![entry(&owner, "340282366920938463463374607431768211455"), entry(&owner, "1")];
    assert!(!premine_is_bounded(&Genesis::from_raw(raw).unwrap()));
}
