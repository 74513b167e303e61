use num_bigint::BigUint;
use znx::consensus::{
    block_work, cumulative_work, retarget, subsidy_for_height, verify_pow, ConsensusError, Work,
    MAX_TARGET,
};
use znx::types::BlockHeader;

fn header_with(target: [u8; 32], pow_nonce: u64) -> BlockHeader {
    BlockHeader { height: 1, parent_hash: [0u8; 32], tx_root: [0u8; 32], timestamp: 0, target, pow_nonce }
}

#[test]
fn verify_pow_accepts_a_hash_meeting_an_easy_target() {
    let header = header_with([0xffu8; 32], 0);
    assert!(verify_pow(&header).is_ok());
}

#[test]
fn verify_pow_rejects_a_hash_missing_an_impossible_target() {
    let header = header_with([0u8; 32], 0);
    assert_eq!(verify_pow(&header).unwrap_err(), ConsensusError::InsufficientWork);
}

#[test]
fn subsidy_halves_on_schedule_and_floors_to_zero() {
    let schedule = [50u128];
    let interval = 1_000_000u64;

    assert_eq!(subsidy_for_height(0, &schedule, interval), 50);
    assert_eq!(subsidy_for_height(interval - 1, &schedule, interval), 50);
    assert_eq!(subsidy_for_height(interval, &schedule, interval), 25);
    assert_eq!(subsidy_for_height(interval * 2, &schedule, interval), 12);
    assert_eq!(subsidy_for_height(interval * 128, &schedule, interval), 0);
}

#[test]
fn subsidy_follows_explicit_early_steps_then_keeps_halving_past_the_last_one() {
    let schedule = [50u128, 25, 10, 5];
    let period = 100u64;

    assert_eq!(subsidy_for_height(0, &schedule, period), 50);
    assert_eq!(subsidy_for_height(period - 1, &schedule, period), 50);
    assert_eq!(subsidy_for_height(period, &schedule, period), 25);
    assert_eq!(subsidy_for_height(period * 2, &schedule, period), 10);
    assert_eq!(subsidy_for_height(period * 3, &schedule, period), 5);
    assert_eq!(subsidy_for_height(period * 4, &schedule, period), 2);
    assert_eq!(subsidy_for_height(period * 5, &schedule, period), 1);
    assert_eq!(subsidy_for_height(period * 6, &schedule, period), 0);
}

#[test]
fn retarget_keeps_target_unchanged_when_timing_matches_expected() {
    let prev = {
        let mut t = MAX_TARGET;
        t[1] = 0x0f;
        t
    };
    let next = retarget(&prev, 120, 120);
    assert_eq!(next, prev);
}

#[test]
fn retarget_lowers_target_when_blocks_come_in_faster_than_expected() {
    let prev = {
        let mut t = MAX_TARGET;
        t[1] = 0x0f;
        t
    };
    let next = retarget(&prev, 60, 120);
    assert!(BigUint::from_bytes_be(&next) < BigUint::from_bytes_be(&prev));
}

#[test]
fn retarget_raises_target_when_blocks_come_in_slower_than_expected() {
    let prev = {
        let mut t = MAX_TARGET;
        t[0] = 0;
        t[1] = 0x0f;
        t
    };
    let next = retarget(&prev, 240, 120);
    assert!(BigUint::from_bytes_be(&next) > BigUint::from_bytes_be(&prev));
}

#[test]
fn retarget_never_exceeds_the_network_difficulty_ceiling() {
    let prev = MAX_TARGET;
    let next = retarget(&prev, 120 * 1000, 120);
    assert_eq!(next, MAX_TARGET);
}

#[test]
fn cumulative_work_is_higher_for_harder_targets() {
    let easy = MAX_TARGET;
    let mut hard = MAX_TARGET;
    hard[0] = 0;
    hard[1] = 0;

    let work_easy = cumulative_work(&[easy, easy]);
    let work_hard = cumulative_work(&[hard]);
    assert!(work_hard > work_easy);
}

fn number(target: &[u8; 32]) -> BigUint {
    BigUint::from_bytes_be(target)
}

#[test]
fn retargeting_scales_by_the_time_taken() {
    let mut prev = [0u8; 32];
    prev[16] = 1;
    let next = retarget(&prev, 60, 120);
    assert_eq!(number(&next), number(&prev) * 60u32 / 120u32);
    let next = retarget(&prev, 7, 3);
    assert_eq!(number(&next), number(&prev) * 7u32 / 3u32);
}

#[test]
fn retargeting_is_clamped_to_a_factor_of_four() {
    let mut prev = [0u8; 32];
    prev[16] = 1;
    assert_eq!(number(&retarget(&prev, 1_000_000, 120)), number(&prev) * 4u32);
    assert_eq!(number(&retarget(&prev, 1, 120)), number(&prev) / 4u32);
    assert_eq!(number(&retarget(&prev, 480, 120)), number(&prev) * 4u32);
    assert_eq!(number(&retarget(&prev, 30, 120)), number(&prev) / 4u32);
}

#[test]
fn retargeting_is_monotone() {
    let mut low = [0u8; 32];
    low[16] = 1;
    let mut high = low;
    high[16] = 2;
    assert!(number(&retarget(&low, 100, 120)) <= number(&retarget(&high, 100, 120)));
    assert!(number(&retarget(&low, 100, 120)) <= number(&retarget(&low, 110, 120)));
}

#[test]
fn work_is_the_expected_number_of_hashes() {
    let one = block_work(&[0xffu8; 32]);
    let two = one.plus(&one);
    let mut half = [0xffu8; 32];
    half[0] = 0x7f;
    assert!(block_work(&half) == two);
    let mut quarter = [0xffu8; 32];
    quarter[0] = 0x3f;
    assert!(block_work(&quarter) == two.plus(&two));
    let mut below_half = half;
    below_half[31] = 0xfe;
    assert!(block_work(&below_half) == two);
    assert!(Work::zero().less_than(&one));
    assert!(one.less_than(&two));
    assert!(!two.less_than(&two));
}

#[test]
fn work_adds_up_block_by_block() {
    let hard = [0u8; 32];
    let easy = [0xffu8; 32];
    let sum = block_work(&hard).plus(&block_work(&easy));
    assert!(cumulative_work(&[hard, easy]) == sum);
    assert!(cumulative_work(&[easy, hard]) == sum);
    assert!(cumulative_work(&[]) == Work::zero());
    assert!(block_work(&easy).less_than(&block_work(&hard)));
}

#[test]
fn emission_ends_after_the_last_halving() {
    assert_eq!(subsidy_for_height(u64::MAX, &[u128::MAX], 1), 0);
    assert_eq!(subsidy_for_height(128, &[u128::MAX], 1), 0);
    assert_eq!(subsidy_for_height(127, &[u128::MAX], 1), 1);
}

#[test]
fn a_retarget_goes_no_lower_than_a_fourth() {
    let mut prev = [0u8; 32];
    prev[31] = 28;
    let mut quarter = [0u8; 32];
    quarter[31] = 7;
    assert_eq!(retarget(&prev, 1, 7), quarter);
    let mut fourfold = [0u8; 32];
    fourfold[31] = 112;
    assert_eq!(retarget(&prev, 30, 7), fourfold);
    assert_eq!(retarget(&prev, u64::MAX, u64::MAX), prev);
}
