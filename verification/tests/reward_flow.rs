use staking_atlas::ledger::Pallet;
use staking_atlas::types::{Config, Credit, Error, Event, Exposure, IndividualExposure};

fn config() -> Config {
    Config {
        era_duration: 10,
        validators_count: 4,
        min_validator_stake: 500,
        min_delegation_stake: 10,
        max_delegations_per_delegator: 4,
        reward_payment_delay: 1,
        bonding_duration: 2,
        reputation_weight: 0,
    }
}

fn exposure(own: u64, delegations: Vec<(u64, u64)>) -> Exposure {
    let mut total = own;
    let mut ds = Vec::new();
    for (who, value) in delegations {
        total += value;
        ds.push(IndividualExposure { who, value });
    }
    Exposure { own, total, delegations: ds }
}

#[test]
fn missing_pool_is_an_error() {
    let mut p = Pallet::new(config());
    assert_eq!(p.distribute_rewards(0), Err(Error::NoRewardsForEra));
}

#[test]
fn empty_era_is_a_no_op() {
    // With a pool recorded but no selected validators, payout succeeds
    // without consuming the pool or crediting anyone.
    let mut p = Pallet::new(config());
    p.record_era_reward(0, 1000);
    assert_eq!(p.distribute_rewards(0), Ok(()));
    assert_eq!(p.eras_reward(0), Some(1000));
    assert!(p.credits.is_empty());
}

#[test]
fn proportional_payout_with_commission() {
    // Scenario: era reward 1000, a single validator with exposure
    // own 800 / total 1000, reputation zero. Its reward is the whole
    // 1000; commission is 100; of the 900 left, the validator's own
    // share is 800/1000 * 900 = 720, so it is paid 820, and the one
    // delegator with value 200 receives 200/1000 * 900 = 180. The whole
    // 1000 is distributed.
    let mut p = Pallet::new(config());
    assert_eq!(p.register_validator(1, 800), Ok(()));
    assert_eq!(p.delegate(2, 1, 200), Ok(()));
    assert_eq!(p.select_validators(), vec![1]);
    p.record_exposure(0, 1, exposure(800, vec![(2, 200)]));
    p.record_era_reward(0, 1000);
    assert_eq!(p.distribute_rewards(0), Ok(()));
    assert_eq!(
        p.credits,
        vec![Credit { who: 1, amount: 820 }, Credit { who: 2, amount: 180 }]
    );
    assert_eq!(p.events.last(), Some(&Event::RewardsPaid(0, 1000)));
    assert_eq!(p.eras_reward(0), None);
}

#[test]
fn second_distribution_fails() {
    // Running the distribution twice for one era fails the second time:
    // the completed payout consumed the pool.
    let mut p = Pallet::new(config());
    assert_eq!(p.register_validator(1, 1000), Ok(()));
    assert_eq!(p.select_validators(), vec![1]);
    p.record_exposure(0, 1, exposure(1000, vec![]));
    p.record_era_reward(0, 500);
    assert_eq!(p.distribute_rewards(0), Ok(()));
    assert_eq!(p.distribute_rewards(0), Err(Error::NoRewardsForEra));
}

#[test]
fn payout_never_exceeds_the_pool() {
    // Two validators share a pool; the credited amounts sum to no more
    // than the recorded reward.
    let mut p = Pallet::new(config());
    assert_eq!(p.register_validator(1, 600), Ok(()));
    assert_eq!(p.register_validator(2, 600), Ok(()));
    assert_eq!(p.delegate(3, 1, 100), Ok(()));
    assert_eq!(p.delegate(3, 2, 300), Ok(()));
    let sel = p.select_validators();
    assert_eq!(sel.len(), 2);
    p.record_exposure(0, 1, exposure(600, vec![(3, 100)]));
    p.record_exposure(0, 2, exposure(600, vec![(3, 300)]));
    p.record_era_reward(0, 997);
    assert_eq!(p.distribute_rewards(0), Ok(()));
    let minted: u64 = p.credits.iter().map(|c| c.amount).sum();
    assert!(minted <= 997);
    if let Some(Event::RewardsPaid(0, paid)) = p.events.last() {
        // What the event reports as paid covers every credit and never
        // exceeds the pool.
        assert!(minted <= *paid);
        assert!(*paid <= 997);
    } else {
        panic!("expected a RewardsPaid event");
    }
}

#[test]
fn validator_without_exposure_earns_nothing() {
    let mut p = Pallet::new(config());
    assert_eq!(p.register_validator(1, 1000), Ok(()));
    assert_eq!(p.register_validator(2, 1000), Ok(()));
    assert_eq!(p.select_validators().len(), 2);
    // Only validator 2 has a frozen exposure.
    p.record_exposure(0, 2, exposure(1000, vec![]));
    p.record_era_reward(0, 1000);
    assert_eq!(p.distribute_rewards(0), Ok(()));
    // Validator 2 backs half the era's stake, so it earns half the pool;
    // the other half stays undistributed.
    assert_eq!(p.credits, vec![Credit { who: 2, amount: 500 }]);
    assert_eq!(p.events.last(), Some(&Event::RewardsPaid(0, 500)));
}

#[test]
fn partial_exposure_earns_a_proportional_share() {
    // The frozen exposure covers half the recorded era stake, so the
    // validator's reward is 500: commission 50, own share (its exposure
    // is all its own) 450, paid 500 in one credit; the other 500 of the
    // pool stays undistributed.
    let mut p = Pallet::new(config());
    assert_eq!(p.register_validator(1, 1000), Ok(()));
    p.record_exposure(0, 1, exposure(500, vec![]));
    assert_eq!(p.select_validators(), vec![1]);
    assert_eq!(p.eras_total_stake(0), 1000);
    p.record_era_reward(0, 1000);
    assert_eq!(p.distribute_rewards(0), Ok(()));
    assert_eq!(p.credits, vec![Credit { who: 1, amount: 500 }]);
    assert_eq!(p.events.last(), Some(&Event::RewardsPaid(0, 500)));
}
