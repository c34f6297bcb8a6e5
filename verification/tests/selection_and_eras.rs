use staking_atlas::arith::{fraction_from_rational, fraction_mul, SCALE};
use staking_atlas::ledger::Pallet;
use staking_atlas::types::{Config, Error, Event, Exposure};

fn config(validators_count: u64, reputation_weight: u64) -> Config {
    Config {
        era_duration: 10,
        validators_count,
        min_validator_stake: 100,
        min_delegation_stake: 10,
        max_delegations_per_delegator: 4,
        reward_payment_delay: 1,
        bonding_duration: 2,
        reputation_weight,
    }
}

#[test]
fn fraction_arithmetic_is_exact() {
    assert_eq!(fraction_from_rational(1, 3), 333_333_333);
    assert_eq!(fraction_from_rational(1000, 1000), SCALE);
    assert_eq!(fraction_from_rational(5, 2), SCALE);
    assert_eq!(fraction_from_rational(7, 0), SCALE);
    assert_eq!(fraction_from_rational(0, 0), 0);
    assert_eq!(fraction_mul(500_000_000, 1000), 500);
    assert_eq!(fraction_mul(333_333_333, 3), 0);
    assert_eq!(fraction_mul(SCALE, u64::MAX), u64::MAX);
}

#[test]
fn selection_takes_the_top_stakes() {
    // With reputation weighted at zero, the score is the total stake;
    // only the two highest-staked of three candidates fit the cap.
    let mut p = Pallet::new(config(2, 0));
    assert_eq!(p.register_validator(1, 300), Ok(()));
    assert_eq!(p.register_validator(2, 500), Ok(()));
    assert_eq!(p.register_validator(3, 400), Ok(()));
    let sel = p.select_validators();
    assert_eq!(sel, vec![2, 3]);
    assert_eq!(p.eras_validator_list(0), Some(&vec![2, 3]));
    assert_eq!(p.eras_total_stake(0), 900);
}

#[test]
fn selection_breaks_ties_by_ascending_account() {
    let mut p = Pallet::new(config(3, 0));
    assert_eq!(p.register_validator(9, 500), Ok(()));
    assert_eq!(p.register_validator(4, 500), Ok(()));
    assert_eq!(p.register_validator(7, 600), Ok(()));
    assert_eq!(p.select_validators(), vec![7, 4, 9]);
}

#[test]
fn selection_skips_inactive_and_deregistered() {
    let mut p = Pallet::new(config(5, 0));
    assert_eq!(p.register_validator(1, 500), Ok(()));
    assert_eq!(p.register_validator(2, 800), Ok(()));
    assert_eq!(p.deregister_validator(2), Ok(()));
    assert_eq!(p.select_validators(), vec![1]);
}

#[test]
fn selection_blends_stake_and_reputation() {
    // Reputation weighted at one half: the score is half the total stake
    // plus half the raw reputation score. Freshly registered validators
    // hold a zero score, so here the blend halves the stakes.
    let mut p = Pallet::new(config(2, 500_000_000));
    assert_eq!(p.register_validator(1, 1000), Ok(()));
    assert_eq!(p.register_validator(2, 900), Ok(()));
    assert_eq!(p.select_validators(), vec![1, 2]);
}

#[test]
fn era_advances_only_at_the_boundary() {
    let mut p = Pallet::new(config(2, 0));
    assert_eq!(p.register_validator(1, 500), Ok(()));
    assert!(!p.on_initialize(9));
    assert_eq!(p.current_era(), 0);
    assert!(p.on_initialize(10));
    assert_eq!(p.current_era(), 1);
    assert_eq!(p.era_start_block_number(1), 10);
    // The era change refreshed reputations, selected validators for the
    // new era, and announced itself.
    assert_eq!(p.eras_validator_list(1), Some(&vec![1]));
    assert_eq!(p.events.last(), Some(&Event::NewEra(1)));
    assert!(p.events.contains(&Event::ReputationUpdated(1, 0)));
    // The next era boundary counts from block 10.
    assert!(!p.on_initialize(19));
    assert!(p.on_initialize(20));
    assert_eq!(p.current_era(), 2);
}

#[test]
fn era_change_pays_a_matured_era() {
    // With a payment delay of one era, the change from era 1 to era 2
    // pays out era 0; a missing pool earlier never stalled advancement.
    let mut p = Pallet::new(config(2, 0));
    assert_eq!(p.register_validator(1, 500), Ok(()));
    assert_eq!(p.select_validators(), vec![1]);
    p.record_exposure(0, 1, Exposure { own: 500, total: 500, delegations: Vec::new() });
    p.record_era_reward(0, 100);
    assert!(p.on_initialize(10));
    // Era 0 has not matured yet at the first change.
    assert_eq!(p.eras_reward(0), Some(100));
    assert!(p.on_initialize(20));
    // Era 2 started; era 0 matured and was paid.
    assert_eq!(p.eras_reward(0), None);
    let minted: u64 = p.credits.iter().map(|c| c.amount).sum();
    assert_eq!(minted, 100);
    assert!(p.events.contains(&Event::RewardsPaid(0, 100)));
}

#[test]
fn reputation_refresh_stamps_the_era() {
    let mut p = Pallet::new(config(2, 0));
    assert_eq!(p.register_validator(1, 500), Ok(()));
    assert_eq!(p.validator_record(1).unwrap().reputation.last_updated, 0);
    assert!(p.on_initialize(10));
    let rep = p.validator_record(1).unwrap().reputation;
    assert_eq!(rep.last_updated, 1);
    assert_eq!(rep.score, 0);
    assert_eq!(p.calculate_reputation_score(1), 0);
    assert_eq!(p.calculate_reputation_score(42), 0);
}

#[test]
fn update_validator_set_stores_the_selection() {
    let mut p = Pallet::new(config(1, 0));
    assert_eq!(p.register_validator(3, 700), Ok(()));
    assert_eq!(p.register_validator(4, 900), Ok(()));
    p.update_validator_set();
    assert_eq!(p.eras_validator_list(0), Some(&vec![4]));
    assert_eq!(p.eras_total_stake(0), 900);
}

#[test]
fn distribution_errors_are_swallowed_by_the_scheduler() {
    // No reward pool was ever recorded; era changes still happen.
    let mut p = Pallet::new(config(2, 0));
    assert_eq!(p.register_validator(1, 500), Ok(()));
    assert!(p.on_initialize(10));
    assert!(p.on_initialize(20));
    assert_eq!(p.current_era(), 2);
    assert_eq!(p.distribute_rewards(0), Err(Error::NoRewardsForEra));
}

#[test]
fn on_finalize_does_nothing() {
    let mut p = Pallet::new(config(2, 0));
    assert_eq!(p.register_validator(1, 500), Ok(()));
    let events_before = p.events.len();
    p.on_finalize(7);
    assert_eq!(p.events.len(), events_before);
    assert_eq!(p.current_era(), 0);
}
