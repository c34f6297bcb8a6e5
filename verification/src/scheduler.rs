//! The era scheduler: a block-driven state machine. On every block the
//! host hands in the block height; when the current era has run its
//! configured length, the scheduler advances the era counter, refreshes
//! every validator's reputation, selects the validators for the new era,
//! and pays out a matured era's rewards — a missing reward pool never
//! blocks era advancement.

use vstd::prelude::*;

verus! {

use crate::AccountId;
use crate::Balance;
use crate::BlockNumber;
use crate::EraIndex;
use crate::ledger::Pallet;
use crate::rewards::distribution_post;
use crate::selection::selection_post;
use crate::store::index_of_key;
use crate::store::lemma_index_of_key;
use crate::types::Error;
use crate::types::Event;
use crate::types::ReputationScore;
use crate::types::Validator;
use crate::types::sat_add;

/// The block at which an era started; an era without an entry counts as
/// having started at block zero.
pub open spec fn era_start_of(s: Pallet, era: EraIndex) -> BlockNumber {
    if s.era_start@.dom().contains(era) {
        s.era_start@[era]
    } else {
        0
    }
}

/// The reputation score the chain would recompute for an account: the
/// recorded score passed through, or zero without a record.
pub open spec fn reputation_of(s: Pallet, a: AccountId) -> Balance {
    if s.validators@.dom().contains(a) {
        s.validators@[a].reputation.score
    } else {
        0
    }
}

/// The events a reputation refresh logs: one per validator record, in
/// ascending account order, carrying the recomputed score.
pub open spec fn reputation_events(entries: Seq<(AccountId, Validator)>) -> Seq<Event>
    decreases entries.len(),
{
    if entries.len() == 0 {
        Seq::empty()
    } else {
        reputation_events(entries.drop_last()).push(Event::ReputationUpdated(
            entries.last().0,
            entries.last().1.reputation.score,
        ))
    }
}

/// Everything one reputation refresh does: every validator record keeps
/// its account, stakes and activity, carries its recomputed (pass-through)
/// score, and is stamped with the current era; one event is logged per
/// record; nothing else changes.
pub open spec fn refresh_post(pre: Pallet, post: Pallet) -> bool {
    &&& post.validators.entries().len() == pre.validators.entries().len()
    &&& forall|i: int| 0 <= i < pre.validators.entries().len()
        ==> (#[trigger] post.validators.entries()[i]) == (
            pre.validators.entries()[i].0,
            (Validator {
                reputation: (ReputationScore {
                    score: pre.validators.entries()[i].1.reputation.score,
                    last_updated: pre.current_era,
                }),
                ..pre.validators.entries()[i].1
            }),
        )
    &&& post.events@ == pre.events@ + reputation_events(pre.validators.entries())
    &&& post.statuses == pre.statuses
    &&& post.delegators == pre.delegators
    &&& post.validator_locks == pre.validator_locks
    &&& post.delegator_locks == pre.delegator_locks
    &&& post.validator_count == pre.validator_count
    &&& post.current_era == pre.current_era
    &&& post.era_start == pre.era_start
    &&& post.eras_stakers == pre.eras_stakers
    &&& post.eras_validator_list == pre.eras_validator_list
    &&& post.eras_total_stake == pre.eras_total_stake
    &&& post.eras_reward == pre.eras_reward
    &&& post.credits == pre.credits
    &&& post.config == pre.config
}

impl Pallet {
    /// Recomputes an account's reputation score: the chain's model passes
    /// the recorded score through, and an account without a record scores
    /// zero.
    pub fn calculate_reputation_score(&self, validator: AccountId) -> (r: Balance)
        requires
            self.inv(),
        ensures
            r == reputation_of(*self, validator),
    {
        match self.validators.get(validator) {
            Some(record) => record.reputation.score,
            None => 0,
        }
    }

    /// Refreshes every validator's reputation score and stamps it with the
    /// current era, logging one event per validator in ascending account
    /// order.
    pub fn update_reputation_scores(&mut self)
        requires
            old(self).inv(),
        ensures
            final(self).inv(),
            refresh_post(*old(self), *final(self)),
    {
        let ghost old_entries = self.validators.entries();
        let n = self.validators.len();
        let mut i: usize = 0;
        while i < n
            invariant
                self.inv(),
                i <= n,
                n == old_entries.len(),
                self.validators.entries().len() == old_entries.len(),
                forall|p: int| 0 <= p < old_entries.len()
                    ==> (#[trigger] self.validators.entries()[p]).0 == old_entries[p].0,
                forall|p: int| i <= p < old_entries.len()
                    ==> (#[trigger] self.validators.entries()[p]) == old_entries[p],
                forall|p: int| 0 <= p < i
                    ==> (#[trigger] self.validators.entries()[p]) == (
                        old_entries[p].0,
                        (Validator {
                            reputation: (ReputationScore {
                                score: old_entries[p].1.reputation.score,
                                last_updated: self.current_era,
                            }),
                            ..old_entries[p].1
                        }),
                    ),
                self.events@ == old(self).events@
                    + reputation_events(old_entries.take(i as int)),
                self.statuses == old(self).statuses,
                self.delegators == old(self).delegators,
                self.validator_locks == old(self).validator_locks,
                self.delegator_locks == old(self).delegator_locks,
                self.validator_count == old(self).validator_count,
                self.current_era == old(self).current_era,
                self.era_start == old(self).era_start,
                self.eras_stakers == old(self).eras_stakers,
                self.eras_validator_list == old(self).eras_validator_list,
                self.eras_total_stake == old(self).eras_total_stake,
                self.eras_reward == old(self).eras_reward,
                self.credits == old(self).credits,
                self.config == old(self).config,
            decreases n - i,
        {
            let account = self.validators.key_at(i);
            let record = *self.validators.val_at(i);
            let new_score = self.calculate_reputation_score(account);
            proof {
                assert(self.validators@[account] == record);
                assert(new_score == record.reputation.score);
            }
            let updated = Validator {
                reputation: ReputationScore { score: new_score, last_updated: self.current_era },
                ..record
            };
            let ghost mid_entries = self.validators.entries();
            self.validators.insert(account, updated);
            self.events.push(Event::ReputationUpdated(account, new_score));
            proof {
                let j = index_of_key(mid_entries, account);
                lemma_index_of_key(mid_entries, account);
                if j != i as int {
                    assert(mid_entries[i as int].0 == mid_entries[j].0);
                    if j < i as int {
                        assert(mid_entries[j].0 < mid_entries[i as int].0);
                    } else {
                        assert(mid_entries[i as int].0 < mid_entries[j].0);
                    }
                }
                assert(self.validators.entries() == mid_entries.update(i as int, (account,
                    updated)));
                assert(old_entries.take(i as int + 1).drop_last() =~= old_entries.take(i as int));
                assert(old_entries.take(i as int + 1).last() == old_entries[i as int]);
                // The books stay balanced: stakes and sums are untouched.
                assert forall|p: int| 0 <= p < self.validators.entries().len()
                    implies (#[trigger] self.validators.entries()[p]).1.total_stake as int
                        == self.validators.entries()[p].1.self_stake as int
                            + crate::ledger::sum_delegated(
                                self.delegators.entries(),
                                self.validators.entries()[p].0,
                            )
                        && self.validators.entries()[p].1.account
                            == self.validators.entries()[p].0 by {
                    if p != i as int {
                        assert(self.validators.entries()[p] == mid_entries[p]);
                    }
                }
            }
            i = i + 1;
        }
        proof {
            assert(old_entries.take(n as int) =~= old_entries);
        }
    }

    /// Selects the validator set for the next session by running the
    /// scoring and selection engine for the current era.
    pub fn update_validator_set(&mut self)
        requires
            old(self).inv(),
        ensures
            final(self).inv(),
            exists|sel: Seq<AccountId>|
                #[trigger] selection_post(*old(self), *final(self), sel),
    {
        let selected = self.select_validators();
        proof {
            assert(selection_post(*old(self), *final(self), selected@));
        }
    }

    /// Drives the era state machine for one block: when the current era
    /// has run its configured length, the era advances, reputations are
    /// refreshed, the new era's validators are selected, a matured era's
    /// rewards are paid out — any payout error is swallowed so an era
    /// change never stalls — and the new era is announced. Returns whether
    /// an era change happened.
    pub fn on_initialize(&mut self, n: BlockNumber) -> (r: bool)
        requires
            old(self).inv(),
        ensures
            final(self).inv(),
            r == (n >= sat_add(
                era_start_of(*old(self), old(self).current_era),
                old(self).config.era_duration,
            )),
            !r ==> *final(self) == *old(self),
            r ==> exists|s1: Pallet, s2: Pallet, s3: Pallet, s4: Pallet, sel: Seq<AccountId>|
                #![trigger era_advanced(*old(self), s1, n), refresh_post(s1, s2),
                    selection_post(s2, s3, sel), only_event_logged(s4, *final(self),
                    Event::NewEra(sat_add(old(self).current_era, 1)))]
            {
                &&& era_advanced(*old(self), s1, n)
                &&& refresh_post(s1, s2)
                &&& selection_post(s2, s3, sel)
                &&& ({
                    let pre = *old(self);
                    if pre.current_era >= pre.config.reward_payment_delay {
                        exists|pr: Result<(), Error>| #[trigger] distribution_post(
                            s3,
                            s4,
                            (pre.current_era - pre.config.reward_payment_delay) as u64,
                            pr,
                        )
                    } else {
                        s4 == s3
                    }
                })
                &&& only_event_logged(s4, *final(self),
                    Event::NewEra(sat_add(old(self).current_era, 1)))
            },
    {
        let current_era = self.current_era;
        let era_start = match self.era_start.get(current_era) {
            Some(b) => *b,
            None => 0,
        };
        let expected_end = era_start.saturating_add(self.config.era_duration);
        if n < expected_end {
            return false;
        }
        let new_era = current_era.saturating_add(1);
        self.current_era = new_era;
        self.era_start.insert(new_era, n);
        let ghost s1 = *self;
        self.update_reputation_scores();
        let ghost s2 = *self;
        let _ = self.select_validators();
        let ghost s3 = *self;
        let ghost gsel = s3.eras_validator_list@[s2.current_era]@;
        if current_era >= self.config.reward_payment_delay {
            let reward_era = current_era - self.config.reward_payment_delay;
            let payout_outcome = self.distribute_rewards(reward_era);
            proof {
                assert(distribution_post(s3, *self, reward_era, payout_outcome));
            }
        }
        let ghost s4 = *self;
        self.events.push(Event::NewEra(new_era));
        proof {
            assert(era_advanced(*old(self), s1, n));
            assert(only_event_logged(s4, *final(self), Event::NewEra(new_era)));
            assert(refresh_post(s1, s2));
            assert(selection_post(s2, s3, gsel));
        }
        true
    }

    /// Runs at the end of every block; the scheduler has no finalization
    /// work.
    pub fn on_finalize(&self, _n: BlockNumber)
    {
    }

    /// The current era.
    pub fn current_era(&self) -> (r: EraIndex)
        ensures
            r == self.current_era,
    {
        self.current_era
    }

    /// The block at which an era started; an unknown era counts as having
    /// started at block zero.
    pub fn era_start_block_number(&self, era: EraIndex) -> (r: BlockNumber)
        requires
            self.inv(),
        ensures
            r == era_start_of(*self, era),
    {
        match self.era_start.get(era) {
            Some(b) => *b,
            None => 0,
        }
    }

    /// The number of registered validators.
    pub fn validator_count(&self) -> (r: u64)
        ensures
            r == self.validator_count,
    {
        self.validator_count
    }

    /// A validator's record, if the account has one.
    pub fn validator_record(&self, account: AccountId) -> (r: Option<Validator>)
        requires
            self.inv(),
        ensures
            match r {
                Some(v) => self.validators@.dom().contains(account)
                    && v == self.validators@[account],
                None => !self.validators@.dom().contains(account),
            },
    {
        match self.validators.get(account) {
            Some(v) => Some(*v),
            None => None,
        }
    }

    /// A delegator's record, if the account has one.
    pub fn delegator_record(&self, account: AccountId) -> (r: Option<&crate::types::Delegator>)
        requires
            self.inv(),
        ensures
            match r {
                Some(d) => self.delegators@.dom().contains(account)
                    && *d == self.delegators@[account],
                None => !self.delegators@.dom().contains(account),
            },
    {
        self.delegators.get(account)
    }

    /// A validator account's activity status; an account without an entry
    /// counts as deregistered.
    pub fn validator_status(&self, account: AccountId) -> (r: crate::types::ValidatorStatus)
        requires
            self.inv(),
        ensures
            r == (if self.statuses@.dom().contains(account) {
                self.statuses@[account]
            } else {
                crate::types::ValidatorStatus::Deregistered
            }),
    {
        match self.statuses.get(account) {
            Some(s) => *s,
            None => crate::types::ValidatorStatus::Deregistered,
        }
    }

    /// A validator's frozen exposure for an era, if one was recorded.
    pub fn eras_stakers(&self, era: EraIndex, account: AccountId)
        -> (r: Option<&crate::types::Exposure>)
        requires
            self.inv(),
        ensures
            match r {
                Some(e) => self.eras_stakers@.dom().contains(era)
                    && self.eras_stakers@[era]@.dom().contains(account)
                    && *e == self.eras_stakers@[era]@[account],
                None => !self.eras_stakers@.dom().contains(era)
                    || !self.eras_stakers@[era]@.dom().contains(account),
            },
    {
        match self.eras_stakers.get(era) {
            None => None,
            Some(table) => {
                proof {
                    let jt = index_of_key(self.eras_stakers.entries(), era);
                    lemma_index_of_key(self.eras_stakers.entries(), era);
                    assert(self.eras_stakers.entries()[jt].1.wf());
                }
                table.get(account)
            },
        }
    }

    /// The validator list selected for an era, if one was stored.
    pub fn eras_validator_list(&self, era: EraIndex) -> (r: Option<&Vec<AccountId>>)
        requires
            self.inv(),
        ensures
            match r {
                Some(l) => self.eras_validator_list@.dom().contains(era)
                    && *l == self.eras_validator_list@[era],
                None => !self.eras_validator_list@.dom().contains(era),
            },
    {
        self.eras_validator_list.get(era)
    }

    /// The summed stake stored for an era's selected validators, or zero.
    pub fn eras_total_stake(&self, era: EraIndex) -> (r: Balance)
        requires
            self.inv(),
        ensures
            r == (if self.eras_total_stake@.dom().contains(era) {
                self.eras_total_stake@[era]
            } else {
                0
            }),
    {
        match self.eras_total_stake.get(era) {
            Some(t) => *t,
            None => 0,
        }
    }

    /// The reward pool recorded for an era, if payout has not yet consumed
    /// it.
    pub fn eras_reward(&self, era: EraIndex) -> (r: Option<Balance>)
        requires
            self.inv(),
        ensures
            match r {
                Some(x) => self.eras_reward@.dom().contains(era) && x == self.eras_reward@[era],
                None => !self.eras_reward@.dom().contains(era),
            },
    {
        match self.eras_reward.get(era) {
            Some(x) => Some(*x),
            None => None,
        }
    }
}

/// The era bookkeeping an era change performs before anything else: the
/// counter advances by one and the new era's start block is recorded.
pub open spec fn era_advanced(pre: Pallet, post: Pallet, n: BlockNumber) -> bool {
    &&& post.current_era == sat_add(pre.current_era, 1)
    &&& post.era_start@ == pre.era_start@.insert(sat_add(pre.current_era, 1), n)
    &&& post.validators == pre.validators
    &&& post.statuses == pre.statuses
    &&& post.delegators == pre.delegators
    &&& post.validator_locks == pre.validator_locks
    &&& post.delegator_locks == pre.delegator_locks
    &&& post.validator_count == pre.validator_count
    &&& post.eras_stakers == pre.eras_stakers
    &&& post.eras_validator_list == pre.eras_validator_list
    &&& post.eras_total_stake == pre.eras_total_stake
    &&& post.eras_reward == pre.eras_reward
    &&& post.events == pre.events
    &&& post.credits == pre.credits
    &&& post.config == pre.config
}

/// A single event was logged and nothing else moved.
pub open spec fn only_event_logged(pre: Pallet, post: Pallet, e: Event) -> bool {
    &&& post.events@ == pre.events@.push(e)
    &&& post.validators == pre.validators
    &&& post.statuses == pre.statuses
    &&& post.delegators == pre.delegators
    &&& post.validator_locks == pre.validator_locks
    &&& post.delegator_locks == pre.delegator_locks
    &&& post.validator_count == pre.validator_count
    &&& post.current_era == pre.current_era
    &&& post.era_start == pre.era_start
    &&& post.eras_stakers == pre.eras_stakers
    &&& post.eras_validator_list == pre.eras_validator_list
    &&& post.eras_total_stake == pre.eras_total_stake
    &&& post.eras_reward == pre.eras_reward
    &&& post.credits == pre.credits
    &&& post.config == pre.config
}

} // verus!
