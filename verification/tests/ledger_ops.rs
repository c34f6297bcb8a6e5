use staking_atlas::ledger::Pallet;
use staking_atlas::types::{Config, Error, Event, ValidatorStatus};

fn config() -> Config {
    Config {
        era_duration: 10,
        validators_count: 3,
        min_validator_stake: 500,
        min_delegation_stake: 10,
        max_delegations_per_delegator: 2,
        reward_payment_delay: 1,
        bonding_duration: 2,
        reputation_weight: 0,
    }
}

#[test]
fn register_and_delegate_updates_totals() {
    // Validator V registers with stake 1000 (minimum 500); delegator D
    // delegates 200 to V; V's total stake is 1200 and D's total is 200.
    // After D undelegates 50, they read 1150 and 150.
    let mut p = Pallet::new(config());
    assert_eq!(p.register_validator(1, 1000), Ok(()));
    assert_eq!(p.delegate(2, 1, 200), Ok(()));
    let v = p.validator_record(1).unwrap();
    assert_eq!(v.total_stake, 1200);
    assert_eq!(v.self_stake, 1000);
    let d = p.delegator_record(2).unwrap();
    assert_eq!(d.total_staked, 200);
    assert_eq!(d.delegations, vec![(1, 200)]);

    assert_eq!(p.undelegate(2, 1, 50), Ok(()));
    let v = p.validator_record(1).unwrap();
    assert_eq!(v.total_stake, 1150);
    let d = p.delegator_record(2).unwrap();
    assert_eq!(d.total_staked, 150);
    assert_eq!(d.delegations, vec![(1, 150)]);
}

#[test]
fn register_rejects_duplicates_and_small_stakes() {
    let mut p = Pallet::new(config());
    assert_eq!(p.register_validator(1, 499), Err(Error::InsufficientStake));
    assert_eq!(p.register_validator(1, 500), Ok(()));
    assert_eq!(p.register_validator(1, 800), Err(Error::AlreadyValidator));
    assert_eq!(p.validator_count(), 1);
    assert_eq!(p.validator_status(1), ValidatorStatus::Active);
    assert_eq!(
        p.events,
        vec![Event::ValidatorRegistered(1)]
    );
}

#[test]
fn register_locks_the_stake() {
    let mut p = Pallet::new(config());
    assert_eq!(p.register_validator(7, 600), Ok(()));
    assert_eq!(p.validator_locks.get(7), Some(&600));
}

#[test]
fn deregister_flips_status_and_keeps_lock() {
    let mut p = Pallet::new(config());
    assert_eq!(p.deregister_validator(5), Err(Error::NotValidator));
    assert_eq!(p.register_validator(5, 700), Ok(()));
    assert_eq!(p.deregister_validator(5), Ok(()));
    let v = p.validator_record(5).unwrap();
    assert!(!v.is_active);
    assert_eq!(v.self_stake, 700);
    assert_eq!(p.validator_status(5), ValidatorStatus::Deregistered);
    assert_eq!(p.validator_count(), 0);
    // The stake lock is not released on deregistration.
    assert_eq!(p.validator_locks.get(5), Some(&700));
}

#[test]
fn delegate_checks_target_and_amount() {
    let mut p = Pallet::new(config());
    assert_eq!(p.delegate(2, 1, 100), Err(Error::NotValidator));
    assert_eq!(p.register_validator(1, 1000), Ok(()));
    assert_eq!(p.delegate(2, 1, 9), Err(Error::InsufficientDelegationStake));
    assert_eq!(p.deregister_validator(1), Ok(()));
    assert_eq!(p.delegate(2, 1, 100), Err(Error::ValidatorNotActive));
}

#[test]
fn delegate_merges_into_existing_entry() {
    let mut p = Pallet::new(config());
    assert_eq!(p.register_validator(1, 1000), Ok(()));
    assert_eq!(p.delegate(2, 1, 100), Ok(()));
    assert_eq!(p.delegate(2, 1, 50), Ok(()));
    let d = p.delegator_record(2).unwrap();
    assert_eq!(d.delegations, vec![(1, 150)]);
    assert_eq!(d.total_staked, 150);
    assert_eq!(p.validator_record(1).unwrap().total_stake, 1150);
}

#[test]
fn delegate_caps_the_number_of_delegations() {
    let mut p = Pallet::new(config());
    assert_eq!(p.register_validator(1, 1000), Ok(()));
    assert_eq!(p.register_validator(2, 1000), Ok(()));
    assert_eq!(p.register_validator(3, 1000), Ok(()));
    assert_eq!(p.delegate(9, 1, 100), Ok(()));
    assert_eq!(p.delegate(9, 2, 100), Ok(()));
    // The configured maximum is two delegations per delegator.
    assert_eq!(p.delegate(9, 3, 100), Err(Error::TooManyDelegations));
    // Merging into an existing delegation is still allowed.
    assert_eq!(p.delegate(9, 2, 100), Ok(()));
}

#[test]
fn delegate_relocks_only_the_new_amount() {
    // The chain's lock primitive replaces the lock value per tag, so a
    // second delegation leaves only its own amount locked.
    let mut p = Pallet::new(config());
    assert_eq!(p.register_validator(1, 1000), Ok(()));
    assert_eq!(p.delegate(2, 1, 100), Ok(()));
    assert_eq!(p.delegator_locks.get(2), Some(&100));
    assert_eq!(p.delegate(2, 1, 40), Ok(()));
    assert_eq!(p.delegator_locks.get(2), Some(&40));
}

#[test]
fn undelegate_checks_record_and_amount() {
    let mut p = Pallet::new(config());
    assert_eq!(p.register_validator(1, 1000), Ok(()));
    assert_eq!(p.undelegate(2, 1, 10), Err(Error::NotDelegator));
    assert_eq!(p.delegate(2, 1, 100), Ok(()));
    assert_eq!(p.undelegate(2, 3, 10), Err(Error::NotDelegator));
    assert_eq!(p.undelegate(2, 1, 101), Err(Error::InsufficientDelegationStake));
}

#[test]
fn undelegate_removes_an_emptied_record() {
    let mut p = Pallet::new(config());
    assert_eq!(p.register_validator(1, 1000), Ok(()));
    assert_eq!(p.delegate(2, 1, 100), Ok(()));
    assert_eq!(p.undelegate(2, 1, 100), Ok(()));
    assert!(p.delegator_record(2).is_none());
    assert_eq!(p.validator_record(1).unwrap().total_stake, 1000);
    // The delegator's lock stays until the bonding period ends.
    assert_eq!(p.delegator_locks.get(2), Some(&100));
}

#[test]
fn undelegate_survives_a_removed_validator() {
    // A delegation whose validator record is gone can still be withdrawn;
    // there is then no validator total left to reduce.
    let mut p = Pallet::new(config());
    assert_eq!(p.register_validator(1, 1000), Ok(()));
    assert_eq!(p.delegate(2, 1, 100), Ok(()));
    assert_eq!(p.deregister_validator(1), Ok(()));
    assert_eq!(p.decrease_stake(1, 1000), Ok(()));
    assert!(p.validator_record(1).is_none());
    assert_eq!(p.undelegate(2, 1, 50), Ok(()));
    let d = p.delegator_record(2).unwrap();
    assert_eq!(d.total_staked, 50);
    assert_eq!(d.delegations, vec![(1, 50)]);
    assert!(p.validator_record(1).is_none());
    // Withdrawing the rest empties and removes the record.
    assert_eq!(p.undelegate(2, 1, 50), Ok(()));
    assert!(p.delegator_record(2).is_none());
}

#[test]
fn increase_stake_grows_both_totals_and_the_lock() {
    let mut p = Pallet::new(config());
    assert_eq!(p.increase_stake(1, 10), Err(Error::NotValidator));
    assert_eq!(p.register_validator(1, 1000), Ok(()));
    assert_eq!(p.delegate(2, 1, 200), Ok(()));
    assert_eq!(p.increase_stake(1, 300), Ok(()));
    let v = p.validator_record(1).unwrap();
    assert_eq!(v.self_stake, 1300);
    assert_eq!(v.total_stake, 1500);
    assert_eq!(p.validator_locks.get(1), Some(&1300));
}

#[test]
fn decrease_stake_fails_while_active() {
    // Scenario: withdrawing self-stake while still active fails with
    // CannotWithdrawWhileActive and leaves the stake unchanged.
    let mut p = Pallet::new(config());
    assert_eq!(p.register_validator(1, 1000), Ok(()));
    assert_eq!(p.decrease_stake(1, 100), Err(Error::CannotWithdrawWhileActive));
    let v = p.validator_record(1).unwrap();
    assert_eq!(v.self_stake, 1000);
    assert_eq!(v.total_stake, 1000);
}

#[test]
fn decrease_stake_keeps_the_minimum_or_empties() {
    let mut p = Pallet::new(config());
    assert_eq!(p.register_validator(1, 1000), Ok(()));
    assert_eq!(p.deregister_validator(1), Ok(()));
    assert_eq!(p.decrease_stake(1, 1001), Err(Error::InsufficientStake));
    // Leaving 400, under the 500 minimum but above zero, is refused.
    assert_eq!(p.decrease_stake(1, 600), Err(Error::InsufficientStake));
    assert_eq!(p.decrease_stake(1, 300), Ok(()));
    assert_eq!(p.validator_record(1).unwrap().self_stake, 700);
    assert_eq!(p.validator_locks.get(1), Some(&700));
    // Withdrawing everything removes the record, status and lock.
    assert_eq!(p.decrease_stake(1, 700), Ok(()));
    assert!(p.validator_record(1).is_none());
    assert_eq!(p.validator_status(1), ValidatorStatus::Deregistered);
    assert_eq!(p.validator_locks.get(1), None);
}

#[test]
fn balance_arithmetic_saturates() {
    // Balance bookkeeping clamps at the numeric bound instead of wrapping
    // or panicking.
    let mut p = Pallet::new(config());
    assert_eq!(p.register_validator(1, u64::MAX), Ok(()));
    assert_eq!(p.delegate(2, 1, 100), Ok(()));
    let v = p.validator_record(1).unwrap();
    assert_eq!(v.total_stake, u64::MAX);
    assert_eq!(p.delegator_record(2).unwrap().total_staked, 100);
    assert_eq!(p.increase_stake(1, 1), Ok(()));
    assert_eq!(p.validator_record(1).unwrap().self_stake, u64::MAX);
}

#[test]
fn reregistration_counts_standing_delegations() {
    // A validator that withdrew everything can register again; an old
    // delegation toward the same account still stands, so the fresh
    // record's total stake counts it from the start.
    let mut p = Pallet::new(config());
    assert_eq!(p.register_validator(1, 1000), Ok(()));
    assert_eq!(p.delegate(2, 1, 200), Ok(()));
    assert_eq!(p.deregister_validator(1), Ok(()));
    assert_eq!(p.decrease_stake(1, 1000), Ok(()));
    assert!(p.validator_record(1).is_none());
    assert_eq!(p.delegator_record(2).unwrap().total_staked, 200);
    assert_eq!(p.register_validator(1, 600), Ok(()));
    let v = p.validator_record(1).unwrap();
    assert_eq!(v.self_stake, 600);
    assert_eq!(v.total_stake, 800);
    assert_eq!(p.delegator_record(2).unwrap().delegations, vec![(1, 200)]);
    // The standing delegation can still be withdrawn and the total follows.
    assert_eq!(p.undelegate(2, 1, 200), Ok(()));
    assert_eq!(p.validator_record(1).unwrap().total_stake, 600);
}

#[test]
fn events_log_in_order() {
    let mut p = Pallet::new(config());
    assert_eq!(p.register_validator(1, 1000), Ok(()));
    assert_eq!(p.delegate(2, 1, 100), Ok(()));
    assert_eq!(p.undelegate(2, 1, 40), Ok(()));
    assert_eq!(p.increase_stake(1, 5), Ok(()));
    assert_eq!(p.deregister_validator(1), Ok(()));
    assert_eq!(p.decrease_stake(1, 5), Ok(()));
    assert_eq!(
        p.events,
        vec![
            Event::ValidatorRegistered(1),
            Event::DelegationCreated(2, 1, 100),
            Event::DelegationWithdrawn(2, 1, 40),
            Event::ValidatorStakeIncreased(1, 5),
            Event::ValidatorDeregistered(1),
            Event::ValidatorStakeDecreased(1, 5),
        ]
    );
}
