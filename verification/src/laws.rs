//! The laws of the staking core, stated on their own: what holds of every
//! reachable state and every payout, beyond each operation's own contract.

use vstd::prelude::*;

verus! {

use crate::AccountId;
use crate::EraIndex;
use crate::ledger::Pallet;
use crate::ledger::sum_delegated;
use crate::rewards::distribution_post;
use crate::rewards::era_exposures;
use crate::rewards::era_payout;
use crate::rewards::lemma_era_payout_bounded;
use crate::rewards::payout_is_noop;
use crate::rewards::sum_credits;
use crate::store::index_of_key;
use crate::store::lemma_index_of_key;
use crate::types::Error;
use crate::types::delegations_total;
use crate::types::exposure_wf;

/// However delegations were made and withdrawn, a delegator record's total
/// always equals the sum of its remaining delegation amounts: every ledger
/// operation keeps the state invariant, and the invariant pins each record
/// to its sum.
pub proof fn lemma_delegator_total_is_sum(s: Pallet, who: AccountId)
    requires
        s.inv(),
        s.delegators@.dom().contains(who),
    ensures
        s.delegators@[who].total_staked as int
            == delegations_total(s.delegators@[who].delegations@),
        s.delegators@[who].delegations@.len() >= 1,
{
    let entries = s.delegators.entries();
    let j = index_of_key(entries, who);
    lemma_index_of_key(entries, who);
    assert(entries[j].1 == s.delegators@[who]);
}

/// After any successful ledger operation, a validator's total stake equals
/// its self-stake plus all stake delegated to it: every operation keeps the
/// state invariant, and the invariant pins each record to that breakdown.
pub proof fn lemma_total_stake_breakdown(s: Pallet, v: AccountId)
    requires
        s.inv(),
        s.validators@.dom().contains(v),
    ensures
        s.validators@[v].total_stake as int == s.validators@[v].self_stake as int
            + sum_delegated(s.delegators.entries(), v),
{
    let entries = s.validators.entries();
    let j = index_of_key(entries, v);
    lemma_index_of_key(entries, v);
    assert(entries[j].1 == s.validators@[v]);
}

/// A completed payout consumes the era's reward pool, so running the
/// distribution twice for one era fails the second time with
/// `NoRewardsForEra` and changes nothing.
pub proof fn lemma_no_second_payout(
    pre: Pallet,
    mid: Pallet,
    era: EraIndex,
    r1: Result<(), Error>,
)
    requires
        distribution_post(pre, mid, era, r1),
        r1 is Ok,
        !payout_is_noop(pre, era),
    ensures
        !mid.eras_reward@.dom().contains(era),
        forall|post2: Pallet, r2: Result<(), Error>|
            #[trigger] distribution_post(mid, post2, era, r2)
            ==> r2 == Result::<(), Error>::Err(Error::NoRewardsForEra) && post2 == mid,
{
    assert(mid.eras_reward@ == pre.eras_reward@.remove(era));
}

/// One payout call never mints more than the era's recorded reward pool.
pub proof fn lemma_payout_never_exceeds_pool(s: Pallet, era: EraIndex)
    requires
        s.inv(),
        s.eras_reward@.dom().contains(era),
    ensures
        sum_credits(era_payout(s, era).0) <= s.eras_reward@[era],
        sum_credits(era_payout(s, era).0) >= 0,
{
    let exps = era_exposures(s, era);
    assert forall|v: AccountId| exps.dom().contains(v)
        implies exposure_wf(#[trigger] exps[v]) by {
        let jt = index_of_key(s.eras_stakers.entries(), era);
        lemma_index_of_key(s.eras_stakers.entries(), era);
        let inner = s.eras_stakers.entries()[jt].1.entries();
        let ji = index_of_key(inner, v);
        lemma_index_of_key(inner, v);
        assert(exposure_wf(s.eras_stakers.entries()[jt].1.entries()[ji].1));
    }
    lemma_era_payout_bounded(
        s.eras_validator_list@[era]@,
        0,
        exps,
        s.validators@,
        s.eras_reward@[era],
        s.eras_total_stake@[era],
        s.eras_reward@[era],
    );
}

} // verus!
