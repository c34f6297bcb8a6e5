//! The stake ledger: all chain state of the staking core, the invariants
//! it keeps, and the dispatchable operations that mutate it. A failed
//! operation returns its error and leaves every piece of state unchanged.

use vstd::prelude::*;

verus! {

use crate::AccountId;
use crate::Balance;
use crate::BlockNumber;
use crate::EraIndex;
use crate::store::StoreMap;
use crate::store::index_of_key;
use crate::store::count_below;
use crate::store::lemma_count_below_sorted;
use crate::store::lemma_index_of_key;
use crate::store::lemma_index_of_key_finds;
use crate::store::lemma_sorted_entry_in_map;
use crate::sum::sum_by;
use crate::sum::lemma_sum_by_update;
use crate::sum::lemma_sum_by_insert;
use crate::sum::lemma_sum_by_remove;
use crate::sum::lemma_sum_by_nonneg;
use crate::sum::lemma_sum_by_element_bound;
use crate::types::Config;
use crate::types::Credit;
use crate::types::Delegator;
use crate::types::Error;
use crate::types::Event;
use crate::types::Exposure;
use crate::types::ReputationScore;
use crate::types::Validator;
use crate::types::ValidatorStatus;
use crate::types::delegated_amount;
use crate::types::delegated_in;
use crate::types::delegations_total;
use crate::types::delegator_balanced;
use crate::types::clamped;
use crate::types::delegator_wf;
use crate::types::exposure_wf;
use crate::types::lemma_delegated_in_covers;
use crate::types::lemma_delegated_in_nonneg;
use crate::types::sat_add;
use crate::types::sat_sub;
use crate::types::toward;

/// How much stake all delegators together have delegated to validator `v`.
pub open spec fn sum_delegated(entries: Seq<(AccountId, Delegator)>, v: AccountId) -> int {
    sum_by(entries, |e: (AccountId, Delegator)| delegated_amount(e.1, v))
}

/// Stake delegated toward any validator is non-negative, record by record
/// and in sum.
pub proof fn lemma_sum_delegated_nonneg(entries: Seq<(AccountId, Delegator)>, v: AccountId)
    ensures
        sum_delegated(entries, v) >= 0,
        forall|p: int| 0 <= p < entries.len()
            ==> delegated_amount((#[trigger] entries[p]).1, v) >= 0,
{
    assert forall|p: int| 0 <= p < entries.len()
        implies delegated_amount((#[trigger] entries[p]).1, v) >= 0 by {
        lemma_delegated_in_nonneg(entries[p].1.delegations@, v);
    }
    lemma_sum_by_nonneg(entries, |e: (AccountId, Delegator)| delegated_amount(e.1, v));
}

/// One delegator's share toward `v` is covered by the sum over all
/// delegators.
pub proof fn lemma_sum_delegated_element(entries: Seq<(AccountId, Delegator)>, i: int, v: AccountId)
    requires
        0 <= i < entries.len(),
    ensures
        delegated_amount(entries[i].1, v) <= sum_delegated(entries, v),
{
    lemma_sum_delegated_nonneg(entries, v);
    lemma_sum_by_element_bound(entries, i, |e: (AccountId, Delegator)| delegated_amount(e.1, v));
}

/// The staking core's whole state: keyed stores for validators, delegators
/// and era metadata, the currency locks, the append-only event log, and
/// the log of balances minted by reward payout.
pub struct Pallet {
    /// The fixed staking configuration.
    pub config: Config,
    /// The current era, a monotonic counter starting at zero.
    pub current_era: EraIndex,
    /// The block at which each era started.
    pub era_start: StoreMap<BlockNumber>,
    /// One record per registered validator account.
    pub validators: StoreMap<Validator>,
    /// The activity status per validator account; absence means deregistered.
    pub statuses: StoreMap<ValidatorStatus>,
    /// One record per account with at least one delegation.
    pub delegators: StoreMap<Delegator>,
    /// The number of registered validators.
    pub validator_count: u64,
    /// Per era, the frozen exposure of each selected validator.
    pub eras_stakers: StoreMap<StoreMap<Exposure>>,
    /// Per era, the selected validator accounts in selection order.
    pub eras_validator_list: StoreMap<Vec<AccountId>>,
    /// Per era, the summed stake of the selected validators.
    pub eras_total_stake: StoreMap<Balance>,
    /// Per era, the reward pool, present until consumed by payout.
    pub eras_reward: StoreMap<Balance>,
    /// The stake locked under each validator account's own lock tag.
    pub validator_locks: StoreMap<Balance>,
    /// The stake locked under each delegator account's lock tag.
    pub delegator_locks: StoreMap<Balance>,
    /// The append-only event log.
    pub events: Vec<Event>,
    /// Every balance credit minted by reward payout, in payout order.
    pub credits: Vec<Credit>,
}

impl Pallet {
    /// Every keyed store is sorted by key.
    pub open spec fn stores_wf(self) -> bool {
        &&& self.era_start.wf()
        &&& self.validators.wf()
        &&& self.statuses.wf()
        &&& self.delegators.wf()
        &&& self.eras_stakers.wf()
        &&& self.eras_validator_list.wf()
        &&& self.eras_total_stake.wf()
        &&& self.eras_reward.wf()
        &&& self.validator_locks.wf()
        &&& self.delegator_locks.wf()
    }

    /// Every record names its own key, delegator records are well formed,
    /// and every frozen exposure adds up.
    pub open spec fn records_wf(self) -> bool {
        &&& forall|i: int| 0 <= i < self.validators.entries().len()
            ==> (#[trigger] self.validators.entries()[i]).1.account
                == self.validators.entries()[i].0
        &&& forall|i: int| 0 <= i < self.delegators.entries().len()
            ==> delegator_wf(
                (#[trigger] self.delegators.entries()[i]).0,
                self.delegators.entries()[i].1,
            )
        &&& forall|i: int| 0 <= i < self.eras_stakers.entries().len()
            ==> (#[trigger] self.eras_stakers.entries()[i]).1.wf()
        &&& forall|i: int, j: int|
            0 <= i < self.eras_stakers.entries().len()
            && 0 <= j < self.eras_stakers.entries()[i].1.entries().len()
            ==> exposure_wf((#[trigger] self.eras_stakers.entries()[i].1.entries()[j]).1)
    }

    /// The structural invariant every operation keeps.
    pub open spec fn base_inv(self) -> bool {
        &&& self.config.wf()
        &&& self.stores_wf()
        &&& self.records_wf()
    }

    /// Each validator's total stake is its self-stake plus all stake
    /// delegated to it.
    pub open spec fn stake_consistent(self) -> bool {
        forall|i: int| 0 <= i < self.validators.entries().len()
            ==> (#[trigger] self.validators.entries()[i]).1.total_stake as int
                == self.validators.entries()[i].1.self_stake as int
                    + sum_delegated(self.delegators.entries(), self.validators.entries()[i].0)
    }

    /// Every delegator's recorded total matches the sum of its delegations,
    /// and every validator's total stake adds up.
    pub open spec fn books_balanced(self) -> bool {
        &&& forall|i: int| 0 <= i < self.delegators.entries().len()
            ==> delegator_balanced((#[trigger] self.delegators.entries()[i]).1)
        &&& self.stake_consistent()
    }

    /// The full state invariant: structure plus balanced books.
    pub open spec fn inv(self) -> bool {
        self.base_inv() && self.books_balanced()
    }

    /// A fresh ledger with no validators, delegators or era state.
    pub fn new(config: Config) -> (r: Pallet)
        requires
            config.wf(),
        ensures
            r.inv(),
            r.config == config,
            r.current_era == 0,
            r.validators@ == Map::<u64, Validator>::empty(),
            r.statuses@ == Map::<u64, ValidatorStatus>::empty(),
            r.delegators@ == Map::<u64, Delegator>::empty(),
            r.era_start@ == Map::<u64, BlockNumber>::empty(),
            r.eras_stakers@ == Map::<u64, StoreMap<Exposure>>::empty(),
            r.eras_validator_list@ == Map::<u64, Vec<AccountId>>::empty(),
            r.eras_total_stake@ == Map::<u64, Balance>::empty(),
            r.eras_reward@ == Map::<u64, Balance>::empty(),
            r.validator_locks@ == Map::<u64, Balance>::empty(),
            r.delegator_locks@ == Map::<u64, Balance>::empty(),
            r.validator_count == 0,
            r.events@ == Seq::<Event>::empty(),
            r.credits@ == Seq::<Credit>::empty(),
    {
        Pallet {
            config,
            current_era: 0,
            era_start: StoreMap::new(),
            validators: StoreMap::new(),
            statuses: StoreMap::new(),
            delegators: StoreMap::new(),
            validator_count: 0,
            eras_stakers: StoreMap::new(),
            eras_validator_list: StoreMap::new(),
            eras_total_stake: StoreMap::new(),
            eras_reward: StoreMap::new(),
            validator_locks: StoreMap::new(),
            delegator_locks: StoreMap::new(),
            events: Vec::new(),
            credits: Vec::new(),
        }
    }

    /// Adds up, with saturation, everything currently delegated toward an
    /// account.
    fn delegated_toward(&self, v: AccountId) -> (r: Balance)
        requires
            self.inv(),
        ensures
            r == clamped(sum_delegated(self.delegators.entries(), v)),
    {
        let ghost entries = self.delegators.entries();
        proof {
            assert(entries.take(0) =~= Seq::<(AccountId, Delegator)>::empty());
        }
        let n = self.delegators.len();
        let mut total: u64 = 0;
        let mut i: usize = 0;
        while i < n
            invariant
                self.inv(),
                entries == self.delegators.entries(),
                i <= n,
                n == entries.len(),
                sum_delegated(entries.take(i as int), v) >= 0,
                total == clamped(sum_delegated(entries.take(i as int), v)),
            decreases n - i,
        {
            let d = self.delegators.val_at(i);
            let ghost outer = sum_delegated(entries.take(i as int), v);
            let m = d.delegations.len();
            let mut j: usize = 0;
            proof {
                assert(d.delegations@.take(0) =~= Seq::<(AccountId, Balance)>::empty());
            }
            while j < m
                invariant
                    j <= m,
                    m == d.delegations@.len(),
                    outer >= 0,
                    delegated_in(d.delegations@.take(j as int), v) >= 0,
                    total == clamped(outer + delegated_in(d.delegations@.take(j as int), v)),
                decreases m - j,
            {
                let t = d.delegations[j];
                if t.0 == v {
                    total = total.saturating_add(t.1);
                }
                proof {
                    assert(d.delegations@.take(j as int + 1).drop_last()
                        =~= d.delegations@.take(j as int));
                    assert(d.delegations@.take(j as int + 1).last()
                        == d.delegations@[j as int]);
                }
                j = j + 1;
            }
            proof {
                assert(d.delegations@.take(m as int) =~= d.delegations@);
                assert(entries.take(i as int + 1).drop_last() =~= entries.take(i as int));
                assert(entries.take(i as int + 1).last() == entries[i as int]);
                assert(delegated_amount(entries[i as int].1, v)
                    == delegated_in(d.delegations@, v));
            }
            i = i + 1;
        }
        proof {
            assert(entries.take(n as int) =~= entries);
        }
        total
    }

    /// Registers the caller as a validator with the given self-stake.
    ///
    /// Fails with `AlreadyValidator` when a record already exists and with
    /// `InsufficientStake` when the stake is under the configured minimum.
    /// On success the stake is locked under the caller's validator lock
    /// tag, a fresh record with zero reputation is stored — its total
    /// stake counting the stake plus whatever already stands delegated
    /// toward the account — the account is set active, and the validator
    /// counter grows by one.
    pub fn register_validator(&mut self, who: AccountId, stake: Balance) -> (r: Result<(), Error>)
        requires
            old(self).inv(),
        ensures
            final(self).base_inv(),
            r is Err ==> *final(self) == *old(self) && final(self).inv(),
            old(self).validators@.dom().contains(who)
                ==> r == Result::<(), Error>::Err(Error::AlreadyValidator),
            !old(self).validators@.dom().contains(who)
                && stake < old(self).config.min_validator_stake
                ==> r == Result::<(), Error>::Err(Error::InsufficientStake),
            !old(self).validators@.dom().contains(who)
                && stake >= old(self).config.min_validator_stake
                ==> r is Ok,
            r is Ok ==> {
                &&& final(self).validators@ == old(self).validators@.insert(who, (Validator {
                    account: who,
                    self_stake: stake,
                    total_stake: clamped(
                        stake + sum_delegated(old(self).delegators.entries(), who)),
                    reputation: (ReputationScore { score: 0, last_updated: old(self).current_era }),
                    is_active: true,
                }))
                &&& final(self).statuses@ == old(self).statuses@.insert(who, ValidatorStatus::Active)
                &&& final(self).validator_locks@ == old(self).validator_locks@.insert(who, stake)
                &&& final(self).validator_count == sat_add(old(self).validator_count, 1)
                &&& final(self).events@ == old(self).events@.push(Event::ValidatorRegistered(who))
                &&& final(self).delegators == old(self).delegators
                &&& final(self).delegator_locks == old(self).delegator_locks
                &&& final(self).current_era == old(self).current_era
                &&& final(self).era_start == old(self).era_start
                &&& final(self).eras_stakers == old(self).eras_stakers
                &&& final(self).eras_validator_list == old(self).eras_validator_list
                &&& final(self).eras_total_stake == old(self).eras_total_stake
                &&& final(self).eras_reward == old(self).eras_reward
                &&& final(self).credits == old(self).credits
                &&& final(self).config == old(self).config
            },
            r is Ok && stake + sum_delegated(old(self).delegators.entries(), who) <= u64::MAX
                ==> final(self).inv(),
    {
        if self.validators.contains_key(who) {
            return Err(Error::AlreadyValidator);
        }
        if stake < self.config.min_validator_stake {
            return Err(Error::InsufficientStake);
        }
        // Delegations toward this account may remain from an earlier
        // registration; the fresh record's total counts them from the
        // start.
        let already_delegated = self.delegated_toward(who);
        let total = stake.saturating_add(already_delegated);
        proof {
            lemma_sum_delegated_nonneg(self.delegators.entries(), who);
        }
        let reputation = ReputationScore { score: 0, last_updated: self.current_era };
        let record = Validator {
            account: who,
            self_stake: stake,
            total_stake: total,
            reputation,
            is_active: true,
        };
        let ghost old_entries = self.validators.entries();
        self.validators.insert(who, record);
        self.statuses.insert(who, ValidatorStatus::Active);
        self.validator_locks.insert(who, stake);
        self.validator_count = self.validator_count.saturating_add(1);
        self.events.push(Event::ValidatorRegistered(who));
        proof {
            let pos = count_below(old_entries, who);
            lemma_count_below_sorted(old_entries, who);
            let new_entries = self.validators.entries();
            assert(new_entries == old_entries.insert(pos, (who, record)));
            old_entries.insert_ensures(pos, (who, record));
            assert forall|i: int| 0 <= i < new_entries.len()
                implies (#[trigger] new_entries[i]).1.account == new_entries[i].0 by {
                if i < pos {
                    assert(new_entries[i] == old_entries[i]);
                } else if i > pos {
                    assert(new_entries[i] == old_entries[i - 1]);
                }
            }
            if stake + sum_delegated(old(self).delegators.entries(), who) <= u64::MAX {
                assert forall|i: int| 0 <= i < new_entries.len()
                    implies (#[trigger] new_entries[i]).1.total_stake as int
                        == new_entries[i].1.self_stake as int
                            + sum_delegated(self.delegators.entries(), new_entries[i].0) by {
                    if i < pos {
                        assert(new_entries[i] == old_entries[i]);
                    } else if i > pos {
                        assert(new_entries[i] == old_entries[i - 1]);
                    }
                }
            }
        }
        Ok(())
    }

    /// Deregisters the caller as a validator.
    ///
    /// Fails with `NotValidator` when no record exists. On success the
    /// record is kept but set inactive, the status becomes deregistered,
    /// and the counter shrinks by one; the stake lock is not released, as
    /// unlocking is deferred to `decrease_stake`.
    pub fn deregister_validator(&mut self, who: AccountId) -> (r: Result<(), Error>)
        requires
            old(self).inv(),
        ensures
            final(self).inv(),
            r is Err <==> !old(self).validators@.dom().contains(who),
            r is Err ==> r == Result::<(), Error>::Err(Error::NotValidator)
                && *final(self) == *old(self),
            r is Ok ==> {
                &&& final(self).validators@ == old(self).validators@.insert(who, (Validator {
                    is_active: false,
                    ..old(self).validators@[who]
                }))
                &&& final(self).statuses@
                    == old(self).statuses@.insert(who, ValidatorStatus::Deregistered)
                &&& final(self).validator_count == sat_sub(old(self).validator_count, 1)
                &&& final(self).events@
                    == old(self).events@.push(Event::ValidatorDeregistered(who))
                &&& final(self).validator_locks == old(self).validator_locks
                &&& final(self).delegators == old(self).delegators
                &&& final(self).delegator_locks == old(self).delegator_locks
                &&& final(self).current_era == old(self).current_era
                &&& final(self).era_start == old(self).era_start
                &&& final(self).eras_stakers == old(self).eras_stakers
                &&& final(self).eras_validator_list == old(self).eras_validator_list
                &&& final(self).eras_total_stake == old(self).eras_total_stake
                &&& final(self).eras_reward == old(self).eras_reward
                &&& final(self).credits == old(self).credits
                &&& final(self).config == old(self).config
            },
    {
        let record = match self.validators.get(who) {
            None => {
                return Err(Error::NotValidator);
            },
            Some(v) => *v,
        };
        let updated = Validator { is_active: false, ..record };
        let ghost old_entries = self.validators.entries();
        self.validators.insert(who, updated);
        self.statuses.insert(who, ValidatorStatus::Deregistered);
        self.validator_count = self.validator_count.saturating_sub(1);
        self.events.push(Event::ValidatorDeregistered(who));
        proof {
            let j = index_of_key(old_entries, who);
            lemma_index_of_key(old_entries, who);
            let new_entries = self.validators.entries();
            assert(new_entries == old_entries.update(j, (who, updated)));
            assert forall|i: int| 0 <= i < new_entries.len()
                implies (#[trigger] new_entries[i]).1.account == new_entries[i].0
                    && new_entries[i].1.total_stake as int
                        == new_entries[i].1.self_stake as int
                            + sum_delegated(self.delegators.entries(), new_entries[i].0) by {
                if i != j {
                    assert(new_entries[i] == old_entries[i]);
                }
            }
        }
        Ok(())
    }
    /// Delegates `amount` of the caller's stake to a validator.
    ///
    /// Fails with `NotValidator` when the target has no record, with
    /// `ValidatorNotActive` when it is inactive, with
    /// `InsufficientDelegationStake` when the amount is under the
    /// configured minimum, and with `TooManyDelegations` when a new
    /// delegation would exceed the configured cap. On success the amount
    /// merges into the existing delegation to that validator or appends a
    /// new one, the amount is locked under the caller's delegator lock tag
    /// (replacing the prior lock value, as the chain's lock primitive
    /// does), and the validator's total stake grows by the amount.
    pub fn delegate(&mut self, who: AccountId, validator: AccountId, amount: Balance)
        -> (r: Result<(), Error>)
        requires
            old(self).inv(),
        ensures
            final(self).base_inv(),
            r is Err ==> *final(self) == *old(self) && final(self).inv(),
            !old(self).validators@.dom().contains(validator)
                ==> r == Result::<(), Error>::Err(Error::NotValidator),
            old(self).validators@.dom().contains(validator)
                && !old(self).validators@[validator].is_active
                ==> r == Result::<(), Error>::Err(Error::ValidatorNotActive),
            old(self).validators@.dom().contains(validator)
                && old(self).validators@[validator].is_active
                && amount < old(self).config.min_delegation_stake
                ==> r == Result::<(), Error>::Err(Error::InsufficientDelegationStake),
            old(self).validators@.dom().contains(validator)
                && old(self).validators@[validator].is_active
                && amount >= old(self).config.min_delegation_stake
                ==> {
                    let fresh_tuple = !old(self).delegators@.dom().contains(who)
                        || index_of_key(old(self).delegators@[who].delegations@, validator) == -1;
                    if old(self).delegators@.dom().contains(who)
                        && index_of_key(old(self).delegators@[who].delegations@, validator) == -1
                        && old(self).delegators@[who].delegations@.len()
                            >= old(self).config.max_delegations_per_delegator {
                        r == Result::<(), Error>::Err(Error::TooManyDelegations)
                    } else {
                        r is Ok
                    }
                },
            r is Ok ==> {
                &&& final(self).delegators@.dom().contains(who)
                &&& final(self).delegators@[who].account == who
                &&& final(self).delegators@[who].delegations@ == ({
                    if old(self).delegators@.dom().contains(who) {
                        let ds = old(self).delegators@[who].delegations@;
                        let j = index_of_key(ds, validator);
                        if j >= 0 {
                            ds.update(j, (validator, sat_add(ds[j].1, amount)))
                        } else {
                            ds.push((validator, amount))
                        }
                    } else {
                        seq![(validator, amount)]
                    }
                })
                &&& final(self).delegators@[who].total_staked == ({
                    if old(self).delegators@.dom().contains(who) {
                        sat_add(old(self).delegators@[who].total_staked, amount)
                    } else {
                        amount
                    }
                })
                &&& final(self).delegators@
                    == old(self).delegators@.insert(who, final(self).delegators@[who])
                &&& final(self).validators@ == old(self).validators@.insert(validator, (Validator {
                    total_stake: sat_add(old(self).validators@[validator].total_stake, amount),
                    ..old(self).validators@[validator]
                }))
                &&& final(self).delegator_locks@ == old(self).delegator_locks@.insert(who, amount)
                &&& final(self).events@
                    == old(self).events@.push(Event::DelegationCreated(who, validator, amount))
                &&& final(self).statuses == old(self).statuses
                &&& final(self).validator_locks == old(self).validator_locks
                &&& final(self).validator_count == old(self).validator_count
                &&& final(self).current_era == old(self).current_era
                &&& final(self).era_start == old(self).era_start
                &&& final(self).eras_stakers == old(self).eras_stakers
                &&& final(self).eras_validator_list == old(self).eras_validator_list
                &&& final(self).eras_total_stake == old(self).eras_total_stake
                &&& final(self).eras_reward == old(self).eras_reward
                &&& final(self).credits == old(self).credits
                &&& final(self).config == old(self).config
            },
            r is Ok
                && old(self).validators@[validator].total_stake + amount <= u64::MAX
                && (old(self).delegators@.dom().contains(who)
                    ==> old(self).delegators@[who].total_staked + amount <= u64::MAX)
                ==> final(self).inv(),
    {
        let target = match self.validators.get(validator) {
            None => {
                return Err(Error::NotValidator);
            },
            Some(v) => *v,
        };
        if !target.is_active {
            return Err(Error::ValidatorNotActive);
        }
        if amount < self.config.min_delegation_stake {
            return Err(Error::InsufficientDelegationStake);
        }

        let ghost old_dels = self.delegators.entries();
        let ghost di = index_of_key(old_dels, who);
        proof {
            lemma_index_of_key(old_dels, who);
        }
        let new_d: Delegator;
        let ghost merged_at: int;
        match self.delegators.get(who) {
            Some(d) => {
                proof {
                    assert(delegator_wf(old_dels[di].0, old_dels[di].1));
                }
                match find_delegation(&d.delegations, validator) {
                    Some(j) => {
                        proof {
                            lemma_index_of_key_finds(d.delegations@, validator, j as int);
                            lemma_index_of_key(d.delegations@, validator);
                            let j2 = index_of_key(d.delegations@, validator);
                            if j2 != j as int {
                                assert(d.delegations@[j as int].0
                                    == d.delegations@[j2].0);
                                assert(false);
                            }
                            merged_at = j as int;
                        }
                        let mut ds = copy_delegations(&d.delegations);
                        let current = ds[j].1;
                        ds[j] = (validator, current.saturating_add(amount));
                        new_d = Delegator {
                            account: who,
                            delegations: ds,
                            total_staked: d.total_staked.saturating_add(amount),
                        };
                    },
                    None => {
                        proof {
                            lemma_index_of_key(d.delegations@, validator);
                            let j2 = index_of_key(d.delegations@, validator);
                            if j2 >= 0 {
                                assert(d.delegations@[j2].0 == validator);
                                assert(false);
                            }
                            merged_at = -1int;
                        }
                        if d.delegations.len() as u64 >= self.config.max_delegations_per_delegator {
                            return Err(Error::TooManyDelegations);
                        }
                        let mut ds = copy_delegations(&d.delegations);
                        ds.push((validator, amount));
                        new_d = Delegator {
                            account: who,
                            delegations: ds,
                            total_staked: d.total_staked.saturating_add(amount),
                        };
                    },
                }
            },
            None => {
                proof {
                    merged_at = -1int;
                }
                let mut ds: Vec<(AccountId, Balance)> = Vec::new();
                ds.push((validator, amount));
                new_d = Delegator { account: who, delegations: ds, total_staked: amount };
            },
        }

        let ghost old_vals = self.validators.entries();
        let ghost had_delegator = self.delegators@.dom().contains(who);
        let ghost old_d = self.delegators@[who];
        self.delegators.insert(who, new_d);
        let updated = Validator { total_stake: target.total_stake.saturating_add(amount), ..target };
        self.validators.insert(validator, updated);
        self.delegator_locks.insert(who, amount);
        self.events.push(Event::DelegationCreated(who, validator, amount));
        proof {
            let vi = index_of_key(old_vals, validator);
            lemma_index_of_key(old_vals, validator);
            let new_vals = self.validators.entries();
            let new_dels = self.delegators.entries();
            let dpos = count_below(old_dels, who);
            lemma_count_below_sorted(old_dels, who);
            assert(new_vals == old_vals.update(vi, (validator, updated)));
            if had_delegator {
                assert(new_dels == old_dels.update(di, (who, new_d)));
                assert(old_dels[di].1 == old_d);
            } else {
                assert(new_dels == old_dels.insert(dpos, (who, new_d)));
                old_dels.insert_ensures(dpos, (who, new_d));
            }
            // The fresh record is well formed: one entry per validator.
            let old_ds = old_d.delegations@;
            let new_ds = new_d.delegations@;
            if had_delegator {
                assert(delegator_wf(who, old_d));
                if merged_at >= 0 {
                    assert(new_ds == old_ds.update(merged_at, (validator,
                        sat_add(old_ds[merged_at].1, amount))));
                    assert forall|a: int, b: int| 0 <= a < b < new_ds.len()
                        implies new_ds[a].0 != new_ds[b].0 by {
                        assert(new_ds[a].0 == old_ds[a].0 && new_ds[b].0 == old_ds[b].0);
                    }
                } else {
                    assert(new_ds == old_ds.push((validator, amount)));
                    assert forall|a: int, b: int| 0 <= a < b < new_ds.len()
                        implies new_ds[a].0 != new_ds[b].0 by {
                        if b < old_ds.len() {
                            assert(new_ds[a] == old_ds[a] && new_ds[b] == old_ds[b]);
                        } else {
                            assert(new_ds[a] == old_ds[a] && new_ds[b].0 == validator);
                            assert(old_ds[a].0 != validator);
                        }
                    }
                }
            }
            assert(delegator_wf(who, new_d));
            // Every record still names its own key.
            assert forall|i: int| 0 <= i < new_dels.len()
                implies delegator_wf((#[trigger] new_dels[i]).0, new_dels[i].1) by {
                if had_delegator {
                    if i != di {
                        assert(new_dels[i] == old_dels[i]);
                    }
                } else {
                    if i < dpos {
                        assert(new_dels[i] == old_dels[i]);
                    } else if i > dpos {
                        assert(new_dels[i] == old_dels[i - 1]);
                    }
                }
            }
            assert forall|i: int| 0 <= i < new_vals.len()
                implies (#[trigger] new_vals[i]).1.account == new_vals[i].0 by {
                if i != vi {
                    assert(new_vals[i] == old_vals[i]);
                }
            }
            assert(final(self).base_inv());
            // Under balanced pre-state books and no clamping, the books
            // stay balanced.
            if old(self).validators@[validator].total_stake + amount <= u64::MAX
                && (had_delegator ==> old_d.total_staked + amount <= u64::MAX) {
                let vmeasure = |t: (AccountId, Balance)| t.1 as int;
                // The changed or fresh delegator record is balanced.
                if had_delegator {
                    assert(delegator_balanced(old_d));
                    if merged_at >= 0 {
                        lemma_sum_by_element_bound(old_ds, merged_at, vmeasure);
                        lemma_sum_by_update(old_ds, merged_at, (validator,
                            sat_add(old_ds[merged_at].1, amount)), vmeasure);
                    } else {
                        assert(new_ds == old_ds.insert(old_ds.len() as int, (validator, amount)))
                            by {
                            assert(old_ds.push((validator, amount))
                                =~= old_ds.insert(old_ds.len() as int, (validator, amount)));
                        }
                        lemma_sum_by_insert(old_ds, old_ds.len() as int, (validator, amount),
                            vmeasure);
                    }
                } else {
                    let empty = Seq::<(AccountId, Balance)>::empty();
                    assert(new_ds.drop_last() =~= empty);
                    assert(delegations_total(empty) == 0);
                    assert(new_ds.last() == (validator, amount));
                    assert(delegations_total(new_ds) == amount as int);
                }
                assert(delegator_balanced(new_d));
                assert forall|i: int| 0 <= i < new_dels.len()
                    implies delegator_balanced((#[trigger] new_dels[i]).1) by {
                    if had_delegator {
                        if i != di {
                            assert(new_dels[i] == old_dels[i]);
                        }
                    } else {
                        if i < dpos {
                            assert(new_dels[i] == old_dels[i]);
                        } else if i > dpos {
                            assert(new_dels[i] == old_dels[i - 1]);
                        }
                    }
                }
                // Each validator's total stake still adds up: the target
                // gained exactly `amount`, every other sum is untouched.
                assert forall|w: AccountId| sum_delegated(new_dels, w) == sum_delegated(old_dels, w)
                    + (if w == validator { amount as int } else { 0int }) by {
                    let dmeasure = |e: (AccountId, Delegator)| delegated_amount(e.1, w);
                    let imeasure = |t: (AccountId, Balance)| toward(w, t);
                    if had_delegator {
                        lemma_sum_by_update(old_dels, di, (who, new_d), dmeasure);
                        if merged_at >= 0 {
                            lemma_sum_by_update(old_ds, merged_at, (validator,
                                sat_add(old_ds[merged_at].1, amount)), imeasure);
                        } else {
                            assert(new_ds == old_ds.insert(old_ds.len() as int,
                                (validator, amount))) by {
                                assert(old_ds.push((validator, amount))
                                    =~= old_ds.insert(old_ds.len() as int, (validator, amount)));
                            }
                            lemma_sum_by_insert(old_ds, old_ds.len() as int,
                                (validator, amount), imeasure);
                        }
                    } else {
                        lemma_sum_by_insert(old_dels, dpos, (who, new_d), dmeasure);
                        let empty = Seq::<(AccountId, Balance)>::empty();
                        assert(new_ds.drop_last() =~= empty);
                        assert(delegated_in(empty, w) == 0);
                        assert(new_ds.last() == (validator, amount));
                        assert(delegated_amount(new_d, w)
                            == if w == validator { amount as int } else { 0int });
                    }
                }
                assert forall|i: int| 0 <= i < new_vals.len()
                    implies (#[trigger] new_vals[i]).1.total_stake as int
                        == new_vals[i].1.self_stake as int
                            + sum_delegated(new_dels, new_vals[i].0) by {
                    assert(old_vals[i].1.total_stake as int == old_vals[i].1.self_stake as int
                        + sum_delegated(old_dels, old_vals[i].0));
                    if i == vi {
                        assert(sum_delegated(new_dels, validator)
                            == sum_delegated(old_dels, validator) + amount);
                    } else {
                        assert(new_vals[i] == old_vals[i]);
                        assert(old_vals[i].0 != validator) by {
                            if i < vi {
                                assert(old_vals[i].0 < old_vals[vi].0);
                            } else {
                                assert(old_vals[vi].0 < old_vals[i].0);
                            }
                        }
                        assert(sum_delegated(new_dels, old_vals[i].0)
                            == sum_delegated(old_dels, old_vals[i].0));
                    }
                }
                assert(final(self).inv());
            }
        }
        Ok(())
    }

    /// Withdraws `amount` from the caller's delegation to a validator.
    ///
    /// Fails with `NotDelegator` when the caller has no delegation record
    /// or none toward that validator, and with
    /// `InsufficientDelegationStake` when the amount exceeds the
    /// delegation. On success the delegation shrinks or disappears, the
    /// record itself disappears with its last delegation, and the
    /// validator's total stake shrinks by the amount; a delegation whose
    /// validator record is already gone can still be withdrawn, there is
    /// then no total left to reduce. The lock is not released, as
    /// unlocking waits for the bonding period.
    pub fn undelegate(&mut self, who: AccountId, validator: AccountId, amount: Balance)
        -> (r: Result<(), Error>)
        requires
            old(self).inv(),
        ensures
            final(self).inv(),
            r is Err ==> *final(self) == *old(self),
            !old(self).delegators@.dom().contains(who)
                ==> r == Result::<(), Error>::Err(Error::NotDelegator),
            old(self).delegators@.dom().contains(who)
                && index_of_key(old(self).delegators@[who].delegations@, validator) == -1
                ==> r == Result::<(), Error>::Err(Error::NotDelegator),
            old(self).delegators@.dom().contains(who)
                && index_of_key(old(self).delegators@[who].delegations@, validator) >= 0
                ==> {
                    let ds = old(self).delegators@[who].delegations@;
                    let j = index_of_key(ds, validator);
                    if amount > ds[j].1 {
                        r == Result::<(), Error>::Err(Error::InsufficientDelegationStake)
                    } else {
                        r is Ok
                    }
                },
            r is Ok ==> {
                let ds = old(self).delegators@[who].delegations@;
                let j = index_of_key(ds, validator);
                &&& (old(self).validators@.dom().contains(validator)
                    ==> final(self).validators@
                        == old(self).validators@.insert(validator, (Validator {
                            total_stake: sat_sub(
                                old(self).validators@[validator].total_stake, amount),
                            ..old(self).validators@[validator]
                        })))
                &&& (!old(self).validators@.dom().contains(validator)
                    ==> final(self).validators == old(self).validators)
                &&& (amount == ds[j].1 && ds.len() == 1
                    ==> final(self).delegators@ == old(self).delegators@.remove(who))
                &&& (amount == ds[j].1 && ds.len() > 1 ==> {
                    &&& final(self).delegators@.dom().contains(who)
                    &&& final(self).delegators@[who].delegations@ == ds.remove(j)
                    &&& final(self).delegators@[who].total_staked
                        == sat_sub(old(self).delegators@[who].total_staked, amount)
                    &&& final(self).delegators@[who].account == who
                    &&& final(self).delegators@
                        == old(self).delegators@.insert(who, final(self).delegators@[who])
                })
                &&& (amount < ds[j].1 ==> {
                    &&& final(self).delegators@.dom().contains(who)
                    &&& final(self).delegators@[who].delegations@
                        == ds.update(j, (validator, sat_sub(ds[j].1, amount)))
                    &&& final(self).delegators@[who].total_staked
                        == sat_sub(old(self).delegators@[who].total_staked, amount)
                    &&& final(self).delegators@[who].account == who
                    &&& final(self).delegators@
                        == old(self).delegators@.insert(who, final(self).delegators@[who])
                })
                &&& final(self).events@
                    == old(self).events@.push(Event::DelegationWithdrawn(who, validator, amount))
                &&& final(self).statuses == old(self).statuses
                &&& final(self).validator_locks == old(self).validator_locks
                &&& final(self).delegator_locks == old(self).delegator_locks
                &&& final(self).validator_count == old(self).validator_count
                &&& final(self).current_era == old(self).current_era
                &&& final(self).era_start == old(self).era_start
                &&& final(self).eras_stakers == old(self).eras_stakers
                &&& final(self).eras_validator_list == old(self).eras_validator_list
                &&& final(self).eras_total_stake == old(self).eras_total_stake
                &&& final(self).eras_reward == old(self).eras_reward
                &&& final(self).credits == old(self).credits
                &&& final(self).config == old(self).config
            },
    {
        let ghost old_dels = self.delegators.entries();
        let ghost di = index_of_key(old_dels, who);
        proof {
            lemma_index_of_key(old_dels, who);
        }
        let new_d_opt: Option<Delegator>;
        let ghost tuple_at: int;
        match self.delegators.get(who) {
            None => {
                return Err(Error::NotDelegator);
            },
            Some(d) => {
                proof {
                    assert(delegator_wf(old_dels[di].0, old_dels[di].1));
                }
                let j = match find_delegation(&d.delegations, validator) {
                    None => {
                        proof {
                            lemma_index_of_key(d.delegations@, validator);
                            let j2 = index_of_key(d.delegations@, validator);
                            if j2 >= 0 {
                                assert(d.delegations@[j2].0 == validator);
                                assert(false);
                            }
                        }
                        return Err(Error::NotDelegator);
                    },
                    Some(j) => j,
                };
                proof {
                    lemma_index_of_key_finds(d.delegations@, validator, j as int);
                    lemma_index_of_key(d.delegations@, validator);
                    let j2 = index_of_key(d.delegations@, validator);
                    if j2 != j as int {
                        assert(d.delegations@[j as int].0 == d.delegations@[j2].0);
                        assert(false);
                    }
                    tuple_at = j as int;
                }
                let current = d.delegations[j].1;
                if amount > current {
                    return Err(Error::InsufficientDelegationStake);
                }
                if amount == current {
                    if d.delegations.len() == 1 {
                        new_d_opt = None;
                    } else {
                        let mut ds = copy_delegations(&d.delegations);
                        let _ = ds.remove(j);
                        new_d_opt = Some(Delegator {
                            account: who,
                            delegations: ds,
                            total_staked: d.total_staked.saturating_sub(amount),
                        });
                    }
                } else {
                    let mut ds = copy_delegations(&d.delegations);
                    ds[j] = (validator, current.saturating_sub(amount));
                    new_d_opt = Some(Delegator {
                        account: who,
                        delegations: ds,
                        total_staked: d.total_staked.saturating_sub(amount),
                    });
                }
            },
        }
        let ghost old_vals = self.validators.entries();
        let ghost old_d = self.delegators@[who];
        let ghost removed_whole = new_d_opt is None;
        let ghost new_d_ghost = if new_d_opt is Some { new_d_opt->0 } else { old_d };
        let ghost had_validator = self.validators@.dom().contains(validator);
        match new_d_opt {
            None => {
                self.delegators.remove(who);
            },
            Some(nd) => {
                self.delegators.insert(who, nd);
            },
        }
        // Reduce the validator's recorded total when its record still
        // exists; one already withdrawn leaves nothing to reduce.
        let target_opt = match self.validators.get(validator) {
            Some(v) => Some(*v),
            None => None,
        };
        match target_opt {
            Some(target) => {
                let updated = Validator {
                    total_stake: target.total_stake.saturating_sub(amount),
                    ..target
                };
                self.validators.insert(validator, updated);
            },
            None => {},
        }
        self.events.push(Event::DelegationWithdrawn(who, validator, amount));
        proof {
            let new_vals = self.validators.entries();
            let new_dels = self.delegators.entries();
            let old_ds = old_d.delegations@;
            let j = tuple_at;
            let tup = old_ds[j];
            let vi = index_of_key(old_vals, validator);
            lemma_index_of_key(old_vals, validator);
            if had_validator {
                assert(new_vals == old_vals.update(vi, (validator, (Validator {
                    total_stake: sat_sub(old(self).validators@[validator].total_stake, amount),
                    ..old(self).validators@[validator]
                }))));
            } else {
                assert(new_vals == old_vals);
            }
            assert(old_dels[di].1 == old_d);
            assert(delegator_wf(who, old_d));
            assert(delegator_balanced(old_d));
            let vmeasure = |t: (AccountId, Balance)| t.1 as int;
            // The withdrawn amount is covered by the tuple and the tuple by
            // the delegator's total.
            assert(forall|p: int| 0 <= p < old_ds.len() ==> vmeasure(#[trigger] old_ds[p]) >= 0);
            lemma_sum_by_element_bound(old_ds, j, vmeasure);
            assert(tup.1 as int <= old_d.total_staked as int);
            let new_ds = new_d_ghost.delegations@;
            if removed_whole {
                assert(new_dels == old_dels.remove(di));
                lemma_sum_by_remove(old_dels, di,
                    |e: (AccountId, Delegator)| delegated_amount(e.1, validator));
            } else {
                assert(new_dels == old_dels.update(di, (who, new_d_ghost)));
                if amount == tup.1 {
                    assert(new_ds == old_ds.remove(j));
                    lemma_sum_by_remove(old_ds, j, vmeasure);
                    assert forall|a: int, b: int| 0 <= a < b < new_ds.len()
                        implies new_ds[a].0 != new_ds[b].0 by {
                        let a0 = if a < j { a } else { a + 1 };
                        let b0 = if b < j { b } else { b + 1 };
                        assert(new_ds[a] == old_ds[a0] && new_ds[b] == old_ds[b0]);
                    }
                } else {
                    assert(new_ds == old_ds.update(j, (validator, sat_sub(tup.1, amount))));
                    lemma_sum_by_update(old_ds, j, (validator, sat_sub(tup.1, amount)), vmeasure);
                    assert forall|a: int, b: int| 0 <= a < b < new_ds.len()
                        implies new_ds[a].0 != new_ds[b].0 by {
                        assert(new_ds[a].0 == old_ds[a].0 && new_ds[b].0 == old_ds[b].0);
                    }
                }
                assert(delegator_wf(who, new_d_ghost));
                assert(delegator_balanced(new_d_ghost));
            }
            assert forall|i: int| 0 <= i < new_dels.len()
                implies delegator_wf((#[trigger] new_dels[i]).0, new_dels[i].1)
                    && delegator_balanced(new_dels[i].1) by {
                if removed_whole {
                    let i0 = if i < di { i } else { i + 1 };
                    assert(new_dels[i] == old_dels[i0]);
                } else {
                    if i != di {
                        assert(new_dels[i] == old_dels[i]);
                    }
                }
            }
            assert forall|i: int| 0 <= i < new_vals.len()
                implies (#[trigger] new_vals[i]).1.account == new_vals[i].0 by {
                if !had_validator || i != vi {
                    assert(new_vals[i] == old_vals[i]);
                }
            }
            // Every validator's stake still adds up: the target, if its
            // record exists, lost exactly `amount`; every other sum is
            // untouched.
            assert forall|w: AccountId| sum_delegated(new_dels, w) == sum_delegated(old_dels, w)
                - (if w == validator { amount as int } else { 0int }) by {
                let dmeasure = |e: (AccountId, Delegator)| delegated_amount(e.1, w);
                let imeasure = |t: (AccountId, Balance)| toward(w, t);
                if removed_whole {
                    lemma_sum_by_remove(old_dels, di, dmeasure);
                    let empty = Seq::<(AccountId, Balance)>::empty();
                    assert(old_ds.drop_last() =~= empty);
                    assert(delegated_in(empty, w) == 0);
                    assert(old_ds.last() == tup);
                    assert(delegated_amount(old_d, w)
                        == if w == validator { amount as int } else { 0int });
                } else {
                    lemma_sum_by_update(old_dels, di, (who, new_d_ghost), dmeasure);
                    if amount == tup.1 {
                        lemma_sum_by_remove(old_ds, j, imeasure);
                    } else {
                        lemma_sum_by_update(old_ds, j,
                            (validator, sat_sub(tup.1, amount)), imeasure);
                    }
                }
            }
            assert forall|i: int| 0 <= i < new_vals.len()
                implies (#[trigger] new_vals[i]).1.total_stake as int
                    == new_vals[i].1.self_stake as int
                        + sum_delegated(new_dels, new_vals[i].0) by {
                assert(old_vals[i].1.total_stake as int == old_vals[i].1.self_stake as int
                    + sum_delegated(old_dels, old_vals[i].0));
                if had_validator && i == vi {
                    // Withdrawal cannot clamp: the delegation sum toward the
                    // target covers the amount.
                    lemma_delegated_in_covers(old_ds, j, validator);
                    lemma_sum_delegated_element(old_dels, di, validator);
                    assert(amount as int <= delegated_amount(old_d, validator));
                    assert(amount as int <= sum_delegated(old_dels, validator));
                    assert(sum_delegated(new_dels, validator)
                        == sum_delegated(old_dels, validator) - amount);
                } else {
                    assert(new_vals[i] == old_vals[i]);
                    assert(old_vals[i].0 != validator) by {
                        if had_validator {
                            if i < vi {
                                assert(old_vals[i].0 < old_vals[vi].0);
                            } else {
                                assert(old_vals[vi].0 < old_vals[i].0);
                            }
                        } else {
                            lemma_sorted_entry_in_map(old_vals, i);
                            assert(old(self).validators@.dom().contains(old_vals[i].0));
                        }
                    }
                }
            }
            assert(final(self).inv());
        }
        Ok(())
    }

    /// Increases the caller's self-stake.
    ///
    /// Fails with `NotValidator` when no record exists. On success the
    /// self-stake and total stake grow by the amount and the validator
    /// lock is re-established at the new self-stake.
    pub fn increase_stake(&mut self, who: AccountId, amount: Balance) -> (r: Result<(), Error>)
        requires
            old(self).inv(),
        ensures
            final(self).base_inv(),
            r is Err <==> !old(self).validators@.dom().contains(who),
            r is Err ==> r == Result::<(), Error>::Err(Error::NotValidator)
                && *final(self) == *old(self) && final(self).inv(),
            r is Ok ==> {
                &&& final(self).validators@ == old(self).validators@.insert(who, (Validator {
                    self_stake: sat_add(old(self).validators@[who].self_stake, amount),
                    total_stake: sat_add(old(self).validators@[who].total_stake, amount),
                    ..old(self).validators@[who]
                }))
                &&& final(self).validator_locks@ == old(self).validator_locks@.insert(who,
                    sat_add(old(self).validators@[who].self_stake, amount))
                &&& final(self).events@
                    == old(self).events@.push(Event::ValidatorStakeIncreased(who, amount))
                &&& final(self).statuses == old(self).statuses
                &&& final(self).delegators == old(self).delegators
                &&& final(self).delegator_locks == old(self).delegator_locks
                &&& final(self).validator_count == old(self).validator_count
                &&& final(self).current_era == old(self).current_era
                &&& final(self).era_start == old(self).era_start
                &&& final(self).eras_stakers == old(self).eras_stakers
                &&& final(self).eras_validator_list == old(self).eras_validator_list
                &&& final(self).eras_total_stake == old(self).eras_total_stake
                &&& final(self).eras_reward == old(self).eras_reward
                &&& final(self).credits == old(self).credits
                &&& final(self).config == old(self).config
            },
            r is Ok && old(self).validators@[who].total_stake + amount <= u64::MAX
                ==> final(self).inv(),
    {
        let record = match self.validators.get(who) {
            None => {
                return Err(Error::NotValidator);
            },
            Some(v) => *v,
        };
        let updated = Validator {
            self_stake: record.self_stake.saturating_add(amount),
            total_stake: record.total_stake.saturating_add(amount),
            ..record
        };
        let ghost old_vals = self.validators.entries();
        self.validators.insert(who, updated);
        self.validator_locks.insert(who, updated.self_stake);
        self.events.push(Event::ValidatorStakeIncreased(who, amount));
        proof {
            let vi = index_of_key(old_vals, who);
            lemma_index_of_key(old_vals, who);
            let new_vals = self.validators.entries();
            assert(new_vals == old_vals.update(vi, (who, updated)));
            assert forall|i: int| 0 <= i < new_vals.len()
                implies (#[trigger] new_vals[i]).1.account == new_vals[i].0 by {
                if i != vi {
                    assert(new_vals[i] == old_vals[i]);
                }
            }
            if record.total_stake + amount <= u64::MAX {
                // The self-stake is covered by the total stake, so neither
                // addition clamps.
                lemma_sum_delegated_nonneg(self.delegators.entries(), who);
                assert(record.self_stake <= record.total_stake);
                assert forall|i: int| 0 <= i < new_vals.len()
                    implies (#[trigger] new_vals[i]).1.total_stake as int
                        == new_vals[i].1.self_stake as int
                            + sum_delegated(self.delegators.entries(), new_vals[i].0) by {
                    if i != vi {
                        assert(new_vals[i] == old_vals[i]);
                    }
                }
                assert(final(self).inv());
            }
        }
        Ok(())
    }

    /// Decreases the caller's self-stake.
    ///
    /// Fails with `NotValidator` when no record exists, with
    /// `CannotWithdrawWhileActive` while the validator is active, and with
    /// `InsufficientStake` when the amount exceeds the self-stake or would
    /// leave it strictly between zero and the configured minimum. When the
    /// self-stake reaches exactly zero the record, its status and its lock
    /// disappear; otherwise the lock is re-established at the new
    /// self-stake.
    pub fn decrease_stake(&mut self, who: AccountId, amount: Balance) -> (r: Result<(), Error>)
        requires
            old(self).inv(),
        ensures
            final(self).inv(),
            r is Err ==> *final(self) == *old(self),
            !old(self).validators@.dom().contains(who)
                ==> r == Result::<(), Error>::Err(Error::NotValidator),
            old(self).validators@.dom().contains(who) && old(self).validators@[who].is_active
                ==> r == Result::<(), Error>::Err(Error::CannotWithdrawWhileActive),
            old(self).validators@.dom().contains(who) && !old(self).validators@[who].is_active
                && amount > old(self).validators@[who].self_stake
                ==> r == Result::<(), Error>::Err(Error::InsufficientStake),
            old(self).validators@.dom().contains(who) && !old(self).validators@[who].is_active
                && amount <= old(self).validators@[who].self_stake
                ==> {
                    let left = old(self).validators@[who].self_stake - amount;
                    if left != 0 && left < old(self).config.min_validator_stake {
                        r == Result::<(), Error>::Err(Error::InsufficientStake)
                    } else {
                        r is Ok
                    }
                },
            r is Ok ==> {
                let left = (old(self).validators@[who].self_stake - amount) as u64;
                &&& (left == 0 ==> {
                    &&& final(self).validators@ == old(self).validators@.remove(who)
                    &&& final(self).statuses@ == old(self).statuses@.remove(who)
                    &&& final(self).validator_locks@ == old(self).validator_locks@.remove(who)
                })
                &&& (left != 0 ==> {
                    &&& final(self).validators@ == old(self).validators@.insert(who, (Validator {
                        self_stake: left,
                        total_stake: sat_sub(old(self).validators@[who].total_stake, amount),
                        ..old(self).validators@[who]
                    }))
                    &&& final(self).statuses == old(self).statuses
                    &&& final(self).validator_locks@
                        == old(self).validator_locks@.insert(who, left)
                })
                &&& final(self).events@
                    == old(self).events@.push(Event::ValidatorStakeDecreased(who, amount))
                &&& final(self).delegators == old(self).delegators
                &&& final(self).delegator_locks == old(self).delegator_locks
                &&& final(self).validator_count == old(self).validator_count
                &&& final(self).current_era == old(self).current_era
                &&& final(self).era_start == old(self).era_start
                &&& final(self).eras_stakers == old(self).eras_stakers
                &&& final(self).eras_validator_list == old(self).eras_validator_list
                &&& final(self).eras_total_stake == old(self).eras_total_stake
                &&& final(self).eras_reward == old(self).eras_reward
                &&& final(self).credits == old(self).credits
                &&& final(self).config == old(self).config
            },
    {
        let record = match self.validators.get(who) {
            None => {
                return Err(Error::NotValidator);
            },
            Some(v) => *v,
        };
        if record.is_active {
            return Err(Error::CannotWithdrawWhileActive);
        }
        if amount > record.self_stake {
            return Err(Error::InsufficientStake);
        }
        let left = record.self_stake - amount;
        if left != 0 && left < self.config.min_validator_stake {
            return Err(Error::InsufficientStake);
        }
        let ghost old_vals = self.validators.entries();
        let ghost vi = index_of_key(old_vals, who);
        proof {
            lemma_index_of_key(old_vals, who);
            lemma_sum_delegated_nonneg(self.delegators.entries(), who);
            assert(record.self_stake <= record.total_stake);
        }
        if left == 0 {
            self.validators.remove(who);
            self.statuses.remove(who);
            self.validator_locks.remove(who);
        } else {
            let updated = Validator {
                self_stake: left,
                total_stake: record.total_stake.saturating_sub(amount),
                ..record
            };
            self.validators.insert(who, updated);
            self.validator_locks.insert(who, left);
        }
        self.events.push(Event::ValidatorStakeDecreased(who, amount));
        proof {
            let new_vals = self.validators.entries();
            if left == 0 {
                assert(new_vals == old_vals.remove(vi));
                assert forall|i: int| 0 <= i < new_vals.len()
                    implies (#[trigger] new_vals[i]).1.account == new_vals[i].0
                        && new_vals[i].1.total_stake as int
                            == new_vals[i].1.self_stake as int
                                + sum_delegated(self.delegators.entries(), new_vals[i].0) by {
                    let i0 = if i < vi { i } else { i + 1 };
                    assert(new_vals[i] == old_vals[i0]);
                }
            } else {
                assert forall|i: int| 0 <= i < new_vals.len()
                    implies (#[trigger] new_vals[i]).1.account == new_vals[i].0
                        && new_vals[i].1.total_stake as int
                            == new_vals[i].1.self_stake as int
                                + sum_delegated(self.delegators.entries(), new_vals[i].0) by {
                    if i != vi {
                        assert(new_vals[i] == old_vals[i]);
                    }
                }
            }
            assert(final(self).inv());
        }
        Ok(())
    }
}

/// Copies a delegation list element by element.
fn copy_delegations(ds: &Vec<(AccountId, Balance)>) -> (r: Vec<(AccountId, Balance)>)
    ensures
        r@ == ds@,
{
    let mut out: Vec<(AccountId, Balance)> = Vec::new();
    let n = ds.len();
    let mut i: usize = 0;
    while i < n
        invariant
            i <= n,
            n == ds@.len(),
            out@ == ds@.take(i as int),
        decreases n - i,
    {
        let pair = ds[i];
        out.push(pair);
        proof {
            assert(ds@.take(i as int).push(ds@[i as int]) =~= ds@.take(i as int + 1));
        }
        i = i + 1;
    }
    proof {
        assert(ds@.take(ds@.len() as int) =~= ds@);
    }
    out
}

/// The position of the delegation to `v` in a delegation list, if there is
/// one.
fn find_delegation(ds: &Vec<(AccountId, Balance)>, v: AccountId) -> (r: Option<usize>)
    ensures
        match r {
            Some(j) => j < ds@.len() && ds@[j as int].0 == v,
            None => forall|i: int| 0 <= i < ds@.len() ==> ds@[i].0 != v,
        },
{
    let n = ds.len();
    let mut i: usize = 0;
    while i < n
        invariant
            i <= n,
            n == ds@.len(),
            forall|k: int| 0 <= k < i ==> ds@[k].0 != v,
        decreases n - i,
    {
        if ds[i].0 == v {
            return Some(i);
        }
        i = i + 1;
    }
    None
}

} // verus!
