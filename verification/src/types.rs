//! The records of the stake ledger, the configuration, the error and event
//! taxonomy, and the well-formedness each record keeps.

use vstd::prelude::*;

verus! {

use crate::AccountId;
use crate::Balance;
use crate::BlockNumber;
use crate::EraIndex;
use crate::arith::SCALE;
use crate::sum::sum_by;
use crate::sum::lemma_sum_by_nonneg;
use crate::sum::lemma_sum_by_element_bound;

/// A validator's performance score, recomputed once per era.
#[derive(Clone, Copy, PartialEq, Eq, Structural, Debug)]
pub struct ReputationScore {
    /// The raw reputation score, treated as a percentage-like quantity.
    pub score: Balance,
    /// The last era this score was updated.
    pub last_updated: EraIndex,
}

/// A validator record: one per registered validator account.
#[derive(Clone, Copy, PartialEq, Eq, Structural, Debug)]
pub struct Validator {
    /// The validator's account.
    pub account: AccountId,
    /// The validator's own locked stake.
    pub self_stake: Balance,
    /// The total stake backing this validator: self-stake plus delegations.
    pub total_stake: Balance,
    /// The validator's reputation score.
    pub reputation: ReputationScore,
    /// Whether the validator is currently active.
    pub is_active: bool,
}

/// A delegator record: one per account with at least one delegation.
#[derive(Debug)]
pub struct Delegator {
    /// The delegator's account.
    pub account: AccountId,
    /// The delegations, in the order they were made; one entry per validator.
    pub delegations: Vec<(AccountId, Balance)>,
    /// The total amount staked across all delegations.
    pub total_staked: Balance,
}

/// One delegator's share of an era's frozen stake snapshot.
#[derive(Clone, Copy, PartialEq, Eq, Structural, Debug)]
pub struct IndividualExposure {
    /// The delegator account.
    pub who: AccountId,
    /// The amount of stake delegated.
    pub value: Balance,
}

/// The frozen stake composition backing a validator during one era.
#[derive(Debug)]
pub struct Exposure {
    /// The validator's own stake.
    pub own: Balance,
    /// The whole stake backing the validator: own stake plus delegations.
    pub total: Balance,
    /// The delegations backing the validator.
    pub delegations: Vec<IndividualExposure>,
}

/// The activity status of a validator account; accounts without an entry
/// count as deregistered.
#[derive(Clone, Copy, PartialEq, Eq, Structural, Debug)]
pub enum ValidatorStatus {
    /// The validator is active and can be selected.
    Active,
    /// The validator has been deregistered and cannot be selected.
    Deregistered,
    /// The validator has been slashed and is temporarily inactive.
    Slashed,
    /// The validator has insufficient stake to be selected.
    InsufficientStake,
}

/// What a failed ledger or reward operation reports; a failed operation
/// leaves all state unchanged.
#[derive(Clone, Copy, PartialEq, Eq, Structural, Debug)]
pub enum Error {
    /// Not a validator.
    NotValidator,
    /// Not a delegator.
    NotDelegator,
    /// Already a validator.
    AlreadyValidator,
    /// Already a delegator.
    AlreadyDelegator,
    /// Validator is not active.
    ValidatorNotActive,
    /// Insufficient stake to become a validator or to stay one.
    InsufficientStake,
    /// Insufficient stake to delegate, or more than the delegation holds.
    InsufficientDelegationStake,
    /// Too many delegations for a single delegator.
    TooManyDelegations,
    /// Cannot withdraw stake while active as a validator.
    CannotWithdrawWhileActive,
    /// Cannot withdraw stake before the bonding period ends.
    CannotWithdrawBeforeBondingPeriod,
    /// No rewards available for this era.
    NoRewardsForEra,
    /// Rewards already claimed for this era.
    RewardsAlreadyClaimed,
}

/// An entry of the append-only event log.
#[derive(Clone, Copy, PartialEq, Eq, Structural, Debug)]
pub enum Event {
    /// A new era has been started.
    NewEra(EraIndex),
    /// A validator has been registered.
    ValidatorRegistered(AccountId),
    /// A validator has been deregistered.
    ValidatorDeregistered(AccountId),
    /// A new delegation has been created.
    DelegationCreated(AccountId, AccountId, Balance),
    /// A delegation has been withdrawn.
    DelegationWithdrawn(AccountId, AccountId, Balance),
    /// A validator's self-stake has been increased.
    ValidatorStakeIncreased(AccountId, Balance),
    /// A validator's self-stake has been decreased.
    ValidatorStakeDecreased(AccountId, Balance),
    /// A validator's reputation score has been updated.
    ReputationUpdated(AccountId, Balance),
    /// Rewards have been paid out for an era: the era and the amount paid.
    RewardsPaid(EraIndex, Balance),
    /// A validator has been slashed.
    ValidatorSlashed(AccountId, Balance),
}

/// One balance credit minted by reward payout; crediting never draws on
/// any other account's balance.
#[derive(Clone, Copy, PartialEq, Eq, Structural, Debug)]
pub struct Credit {
    /// The account credited.
    pub who: AccountId,
    /// The amount credited.
    pub amount: Balance,
}

/// The chain's staking configuration, fixed at genesis.
#[derive(Clone, Copy, PartialEq, Eq, Structural, Debug)]
pub struct Config {
    /// The number of blocks between eras.
    pub era_duration: BlockNumber,
    /// The number of validators to select per era.
    pub validators_count: u64,
    /// The minimum amount required to become a validator.
    pub min_validator_stake: Balance,
    /// The minimum amount required to delegate.
    pub min_delegation_stake: Balance,
    /// The maximum number of delegations per delegator.
    pub max_delegations_per_delegator: u64,
    /// The number of eras after which an era's rewards are paid.
    pub reward_payment_delay: EraIndex,
    /// The number of eras that withdrawn staking funds stay bonded for.
    pub bonding_duration: EraIndex,
    /// The reputation weight in validator selection, in parts per billion.
    pub reputation_weight: u64,
}

impl Config {
    /// The reputation weight is a fraction of one whole.
    pub open spec fn wf(self) -> bool {
        self.reputation_weight <= SCALE
    }
}

/// A sum clamped into the balance range.
pub open spec fn clamped(x: int) -> u64 {
    if x > u64::MAX as int {
        u64::MAX
    } else if x < 0 {
        0
    } else {
        x as u64
    }
}

/// Saturating addition: clamps at the top of the balance range.
pub open spec fn sat_add(a: u64, b: u64) -> u64 {
    if a + b > u64::MAX {
        u64::MAX
    } else {
        (a + b) as u64
    }
}

/// Saturating subtraction: clamps at zero.
pub open spec fn sat_sub(a: u64, b: u64) -> u64 {
    if a >= b {
        (a - b) as u64
    } else {
        0
    }
}

/// The sum of a delegator's delegation amounts.
pub open spec fn delegations_total(ds: Seq<(AccountId, Balance)>) -> int {
    sum_by(ds, |t: (AccountId, Balance)| t.1 as int)
}

/// The contribution of one delegation tuple toward validator `v`: its
/// amount when it names `v`, nothing otherwise.
pub open spec fn toward(v: AccountId, t: (AccountId, Balance)) -> int {
    if t.0 == v {
        t.1 as int
    } else {
        0
    }
}

/// How much of a delegation list backs validator `v`.
pub open spec fn delegated_in(ds: Seq<(AccountId, Balance)>, v: AccountId) -> int {
    sum_by(ds, |t: (AccountId, Balance)| toward(v, t))
}

/// How much of a delegator's stake backs validator `v`.
pub open spec fn delegated_amount(d: Delegator, v: AccountId) -> int {
    delegated_in(d.delegations@, v)
}

/// A delegation list backs any validator with a non-negative amount, and
/// its total is non-negative.
pub proof fn lemma_delegated_in_nonneg(ds: Seq<(AccountId, Balance)>, v: AccountId)
    ensures
        delegated_in(ds, v) >= 0,
        delegations_total(ds) >= 0,
{
    lemma_sum_by_nonneg(ds, |t: (AccountId, Balance)| toward(v, t));
    lemma_sum_by_nonneg(ds, |t: (AccountId, Balance)| t.1 as int);
}

/// The tuple toward `v` is covered by what the whole list delegates to `v`.
pub proof fn lemma_delegated_in_covers(ds: Seq<(AccountId, Balance)>, j: int, v: AccountId)
    requires
        0 <= j < ds.len(),
        ds[j].0 == v,
    ensures
        ds[j].1 as int <= delegated_in(ds, v),
{
    let f = |t: (AccountId, Balance)| toward(v, t);
    assert(forall|p: int| 0 <= p < ds.len() ==> f(#[trigger] ds[p]) >= 0);
    lemma_sum_by_element_bound(ds, j, f);
}

/// A delegator record under key `who` is well formed: it names its own
/// account, holds at least one delegation, and no validator twice.
pub open spec fn delegator_wf(who: AccountId, d: Delegator) -> bool {
    &&& d.account == who
    &&& d.delegations@.len() >= 1
    &&& forall|i: int, j: int|
        0 <= i < j < d.delegations@.len() ==> d.delegations@[i].0 != d.delegations@[j].0
}

/// A delegator's recorded total matches the sum of its delegations.
pub open spec fn delegator_balanced(d: Delegator) -> bool {
    d.total_staked as int == delegations_total(d.delegations@)
}

/// The value frozen in one individual exposure.
pub open spec fn exposure_value(x: IndividualExposure) -> int {
    x.value as int
}

/// An exposure's total is its own stake plus the recorded delegations.
pub open spec fn exposure_wf(e: Exposure) -> bool {
    e.total as int == e.own as int + sum_by(
        e.delegations@,
        |x: IndividualExposure| exposure_value(x),
    )
}

} // verus!
