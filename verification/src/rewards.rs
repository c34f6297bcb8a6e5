//! Reward distribution: an era's reward pool is split across the era's
//! selected validators in proportion to their frozen exposure, adjusted by
//! a reputation bonus, with a fixed commission for the validator and the
//! rest shared among its delegators in proportion to their stake. All
//! fractions round down, and what rounding leaves over stays undistributed;
//! the pool is never over-spent.

use vstd::prelude::*;

verus! {

use crate::AccountId;
use crate::Balance;
use crate::EraIndex;
use crate::arith::SCALE;
use crate::arith::fraction_from_rational;
use crate::arith::fraction_mul;
use crate::arith::lemma_parts_of_bounds;
use crate::arith::lemma_proportional_share_bound;
use crate::arith::lemma_ratio_parts_bounds;
use crate::arith::parts_of;
use crate::arith::ratio_parts;
use crate::ledger::Pallet;
use crate::store::index_of_key;
use crate::store::lemma_index_of_key;
use crate::sum::sum_by;
use crate::sum::lemma_sum_by_element_bound;
use crate::sum::lemma_sum_by_nonneg;
use crate::types::Credit;
use crate::types::Error;
use crate::types::Event;
use crate::types::Exposure;
use crate::types::IndividualExposure;
use crate::types::exposure_value;
use crate::types::exposure_wf;
use crate::types::sat_add;

/// Ten percent, in parts per billion: the fixed commission rate, and the
/// cap of the reputation bonus.
pub const TEN_PERCENT: u64 = 100_000_000;

/// The amount a credit mints.
pub open spec fn credit_amount(c: Credit) -> int {
    c.amount as int
}

/// The total balance a list of credits mints.
pub open spec fn sum_credits(s: Seq<Credit>) -> int {
    sum_by(s, |c: Credit| credit_amount(c))
}

/// The rounded-down share of `b` that a part `x` of a whole `t` earns.
pub open spec fn share(x: u64, t: u64, b: u64) -> int {
    parts_of(ratio_parts(x, t) as u64, b)
}

/// The credits owed to a validator's delegators: each receives its share
/// of the delegators' reward in proportion to its frozen stake, and zero
/// shares are skipped.
pub open spec fn delegation_credits(ds: Seq<IndividualExposure>, t: u64, dr: u64) -> Seq<Credit>
    decreases ds.len(),
{
    if ds.len() == 0 {
        Seq::empty()
    } else {
        let rest = delegation_credits(ds.drop_last(), t, dr);
        let amt = share(ds.last().value, t, dr);
        if amt == 0 {
            rest
        } else {
            rest.push(Credit { who: ds.last().who, amount: amt as u64 })
        }
    }
}

/// One validator's payout: the credits minted for it and its delegators,
/// and what is left of the pool afterwards. A validator whose proportional
/// reward rounds to zero is skipped whole.
pub open spec fn one_validator_payout(
    v: AccountId,
    exp: Exposure,
    rep: u64,
    era_reward: u64,
    total_stake: u64,
    rem: u64,
) -> (Seq<Credit>, u64) {
    let vr = share(exp.total, total_stake, era_reward) as u64;
    if vr == 0 {
        (Seq::empty(), rem)
    } else {
        let bonus_parts = parts_of(TEN_PERCENT, ratio_parts(rep, 100) as u64) as u64;
        let adjusted = sat_add(vr, parts_of(bonus_parts, vr) as u64);
        let actual: u64 = if adjusted > rem {
            rem
        } else {
            adjusted
        };
        let rem2 = (rem - actual) as u64;
        let commission = parts_of(TEN_PERCENT, actual) as u64;
        let dr = (actual - commission) as u64;
        let own_r = share(exp.own, exp.total, dr) as u64;
        let vtotal = (own_r + commission) as u64;
        let base: Seq<Credit> = if vtotal == 0 {
            Seq::empty()
        } else {
            seq![Credit { who: v, amount: vtotal }]
        };
        let dcs: Seq<Credit> = if dr != 0 && exp.delegations@.len() > 0 {
            delegation_credits(exp.delegations@, exp.total, dr)
        } else {
            Seq::empty()
        };
        (base + dcs, rem2)
    }
}

/// The whole era payout from position `i` of the selected list on, given
/// what is left of the pool: the credits minted, in payout order, and the
/// final undistributed remainder. A validator without a frozen exposure
/// earns nothing.
pub open spec fn era_credits_from(
    list: Seq<AccountId>,
    i: int,
    exps: Map<AccountId, Exposure>,
    vals: Map<AccountId, crate::types::Validator>,
    era_reward: u64,
    total_stake: u64,
    rem: u64,
) -> (Seq<Credit>, u64)
    decreases list.len() - i
        when 0 <= i <= list.len()
{
    if i >= list.len() {
        (Seq::empty(), rem)
    } else {
        let v = list[i];
        if exps.dom().contains(v) {
            let rep: u64 = if vals.dom().contains(v) {
                vals[v].reputation.score
            } else {
                0
            };
            let step = one_validator_payout(v, exps[v], rep, era_reward, total_stake, rem);
            let rest = era_credits_from(list, i + 1, exps, vals, era_reward, total_stake, step.1);
            (step.0 + rest.0, rest.1)
        } else {
            era_credits_from(list, i + 1, exps, vals, era_reward, total_stake, rem)
        }
    }
}

/// What a delegation list's credits mint, scaled by the whole `t`, never
/// exceeds the exact proportional split of `dr` over the frozen values.
proof fn lemma_delegation_credits_bounded(ds: Seq<IndividualExposure>, t: u64, dr: u64)
    requires
        t > 0,
        forall|i: int| 0 <= i < ds.len() ==> (#[trigger] ds[i]).value <= t,
    ensures
        t as int * sum_credits(delegation_credits(ds, t, dr))
            <= sum_by(ds, |x: IndividualExposure| exposure_value(x)) * (dr as int),
        sum_credits(delegation_credits(ds, t, dr)) >= 0,
    decreases ds.len(),
{
    let vm = |x: IndividualExposure| exposure_value(x);
    let cm = |c: Credit| credit_amount(c);
    if ds.len() == 0 {
        assert(sum_credits(delegation_credits(ds, t, dr)) == 0);
        assert(sum_by(ds, vm) == 0);
    } else {
        let prefix = ds.drop_last();
        assert(forall|i: int| 0 <= i < prefix.len() ==> prefix[i] == ds[i]);
        lemma_delegation_credits_bounded(prefix, t, dr);
        let last = ds.last();
        let amt = share(last.value, t, dr);
        lemma_ratio_parts_bounds(last.value, t);
        lemma_parts_of_bounds(ratio_parts(last.value, t) as u64, dr);
        lemma_proportional_share_bound(last.value, t, dr);
        let rest = delegation_credits(prefix, t, dr);
        let whole = delegation_credits(ds, t, dr);
        assert(sum_by(ds, vm) == sum_by(prefix, vm) + vm(last));
        if amt == 0 {
            assert(whole == rest);
            assert(t as int * sum_credits(whole) <= sum_by(prefix, vm) * (dr as int));
            assert(sum_by(prefix, vm) * (dr as int) <= sum_by(ds, vm) * (dr as int))
                by (nonlinear_arith)
                requires
                    sum_by(prefix, vm) + vm(last) == sum_by(ds, vm),
                    vm(last) >= 0,
                    dr >= 0;
        } else {
            let credit = Credit { who: last.who, amount: amt as u64 };
            assert(whole == rest.push(credit));
            assert(whole.drop_last() =~= rest);
            assert(sum_credits(whole) == sum_credits(rest) + amt);
            assert(t as int * (sum_credits(rest) + amt)
                <= sum_by(prefix, vm) * (dr as int) + vm(last) * (dr as int))
                by (nonlinear_arith)
                requires
                    t as int * sum_credits(rest) <= sum_by(prefix, vm) * (dr as int),
                    t as int * amt <= vm(last) * (dr as int),
                    t > 0;
            assert(sum_by(prefix, vm) * (dr as int) + vm(last) * (dr as int)
                == sum_by(ds, vm) * (dr as int)) by (nonlinear_arith)
                requires sum_by(prefix, vm) + vm(last) == sum_by(ds, vm);
        }
    }
}

/// One validator's payout never mints more than it takes from the pool:
/// the credits plus the new remainder stay within the old remainder.
proof fn lemma_one_validator_payout_bounded(
    v: AccountId,
    exp: Exposure,
    rep: u64,
    era_reward: u64,
    total_stake: u64,
    rem: u64,
)
    requires
        exposure_wf(exp),
    ensures
        ({
            let step = one_validator_payout(v, exp, rep, era_reward, total_stake, rem);
            sum_credits(step.0) + step.1 <= rem && step.1 <= rem && sum_credits(step.0) >= 0
        }),
{
    let step = one_validator_payout(v, exp, rep, era_reward, total_stake, rem);
    let vr = share(exp.total, total_stake, era_reward) as u64;
    lemma_ratio_parts_bounds(exp.total, total_stake);
    lemma_parts_of_bounds(ratio_parts(exp.total, total_stake) as u64, era_reward);
    if vr == 0 {
        assert(sum_credits(step.0) == 0);
    } else {
        let bonus_parts = parts_of(TEN_PERCENT, ratio_parts(rep, 100) as u64) as u64;
        let adjusted = sat_add(vr, parts_of(bonus_parts, vr) as u64);
        let actual: u64 = if adjusted > rem {
            rem
        } else {
            adjusted
        };
        let rem2 = (rem - actual) as u64;
        let commission = parts_of(TEN_PERCENT, actual) as u64;
        lemma_parts_of_bounds(TEN_PERCENT, actual);
        let dr = (actual - commission) as u64;
        let own_r = share(exp.own, exp.total, dr) as u64;
        lemma_ratio_parts_bounds(exp.own, exp.total);
        lemma_parts_of_bounds(ratio_parts(exp.own, exp.total) as u64, dr);
        let vtotal = (own_r + commission) as u64;
        // The share toward the validator's reward was positive, so the
        // exposure's whole is positive too.
        assert(exp.total > 0) by {
            if exp.total == 0 {
                assert(ratio_parts(exp.total, total_stake) == 0) by {
                    let d: int = if total_stake == 0 { 1 } else { total_stake as int };
                    assert(0int * (SCALE as int) / d == 0) by (nonlinear_arith)
                        requires d >= 1;
                }
                assert(parts_of(0, era_reward) == 0) by (nonlinear_arith);
            }
        }
        let vm = |x: IndividualExposure| exposure_value(x);
        assert(forall|i: int| 0 <= i < exp.delegations@.len()
            ==> vm(#[trigger] exp.delegations@[i]) >= 0);
        lemma_sum_by_nonneg(exp.delegations@, vm);
        assert(exp.own <= exp.total);
        let dsum = sum_by(exp.delegations@, vm);
        let dcs: Seq<Credit> = if dr != 0 && exp.delegations@.len() > 0 {
            delegation_credits(exp.delegations@, exp.total, dr)
        } else {
            Seq::empty()
        };
        assert(sum_credits(Seq::<Credit>::empty()) == 0);
        if dr != 0 && exp.delegations@.len() > 0 {
            assert forall|i: int| 0 <= i < exp.delegations@.len()
                implies (#[trigger] exp.delegations@[i]).value <= exp.total by {
                lemma_sum_by_element_bound(exp.delegations@, i, vm);
            }
            lemma_delegation_credits_bounded(exp.delegations@, exp.total, dr);
            // own_r + delegator credits stay within the delegators' reward.
            lemma_proportional_share_bound(exp.own, exp.total, dr);
            assert(exp.total as int * (own_r as int + sum_credits(dcs))
                <= exp.own as int * (dr as int) + dsum * (dr as int)) by (nonlinear_arith)
                requires
                    exp.total as int * (own_r as int) <= exp.own as int * (dr as int),
                    exp.total as int * sum_credits(dcs) <= dsum * (dr as int);
            assert(exp.own as int * (dr as int) + dsum * (dr as int)
                == exp.total as int * (dr as int)) by (nonlinear_arith)
                requires exp.own as int + dsum == exp.total as int;
            assert(own_r as int + sum_credits(dcs) <= dr as int) by (nonlinear_arith)
                requires
                    exp.total as int * (own_r as int + sum_credits(dcs))
                        <= exp.total as int * (dr as int),
                    exp.total > 0;
        } else {
            assert(own_r as int <= dr as int);
        }
        let base: Seq<Credit> = if vtotal == 0 {
            Seq::empty()
        } else {
            seq![Credit { who: v, amount: vtotal }]
        };
        assert(sum_credits(base) == vtotal as int) by {
            if vtotal != 0 {
                assert(base.drop_last() =~= Seq::<Credit>::empty());
                assert(base.last() == (Credit { who: v, amount: vtotal }));
            } else {
                assert(own_r == 0 && commission == 0);
            }
        }
        assert(sum_credits(base + dcs) == sum_credits(base) + sum_credits(dcs)) by {
            lemma_sum_credits_concat(base, dcs);
        }
        assert(sum_credits(dcs) >= 0) by {
            if dr != 0 && exp.delegations@.len() > 0 {
            }
        }
        assert(sum_credits(step.0) + step.1 <= rem);
    }
}

/// Credits concatenate; their totals add.
proof fn lemma_sum_credits_concat(a: Seq<Credit>, b: Seq<Credit>)
    ensures
        sum_credits(a + b) == sum_credits(a) + sum_credits(b),
    decreases b.len(),
{
    if b.len() == 0 {
        assert(a + b =~= a);
    } else {
        lemma_sum_credits_concat(a, b.drop_last());
        assert((a + b).drop_last() =~= a + b.drop_last());
        assert((a + b).last() == b.last());
    }
}

/// Whether a payout call for `era` does nothing: no validator list was
/// recorded, it is empty, or the recorded total stake is missing or zero.
pub open spec fn payout_is_noop(s: Pallet, era: EraIndex) -> bool {
    ||| !s.eras_validator_list@.dom().contains(era)
    ||| s.eras_validator_list@[era]@.len() == 0
    ||| !s.eras_total_stake@.dom().contains(era)
    ||| s.eras_total_stake@[era] == 0
}

/// The frozen exposures recorded for an era, or none.
pub open spec fn era_exposures(s: Pallet, era: EraIndex) -> Map<AccountId, Exposure> {
    if s.eras_stakers@.dom().contains(era) {
        s.eras_stakers@[era]@
    } else {
        Map::empty()
    }
}

/// The whole payout an era's distribution performs: the credits minted and
/// the undistributed remainder, starting from the full recorded pool.
pub open spec fn era_payout(s: Pallet, era: EraIndex) -> (Seq<Credit>, u64) {
    era_credits_from(
        s.eras_validator_list@[era]@,
        0,
        era_exposures(s, era),
        s.validators@,
        s.eras_reward@[era],
        s.eras_total_stake@[era],
        s.eras_reward@[era],
    )
}

/// Everything one payout call for `era` does. A missing pool is the one
/// error and leaves everything unchanged; a recorded pool with no selected
/// validators or no stake is consumed by nobody and nothing changes; a
/// proper payout mints exactly the era's credits, never more than the pool,
/// logs the amount paid, and consumes the pool.
pub open spec fn distribution_post(
    pre: Pallet,
    post: Pallet,
    era: EraIndex,
    r: Result<(), Error>,
) -> bool {
    &&& (r is Err <==> !pre.eras_reward@.dom().contains(era))
    &&& (r is Err ==> r == Result::<(), Error>::Err(Error::NoRewardsForEra) && post == pre)
    &&& (r is Ok && payout_is_noop(pre, era) ==> post == pre)
    &&& (r is Ok && !payout_is_noop(pre, era) ==> {
        let reward = pre.eras_reward@[era];
        let payout = era_payout(pre, era);
        &&& post.credits@ == pre.credits@ + payout.0
        &&& sum_credits(payout.0) <= reward
        &&& post.events@ == pre.events@.push(Event::RewardsPaid(era, (reward - payout.1) as u64))
        &&& post.eras_reward@ == pre.eras_reward@.remove(era)
        &&& post.validators == pre.validators
        &&& post.statuses == pre.statuses
        &&& post.delegators == pre.delegators
        &&& post.validator_locks == pre.validator_locks
        &&& post.delegator_locks == pre.delegator_locks
        &&& post.validator_count == pre.validator_count
        &&& post.current_era == pre.current_era
        &&& post.era_start == pre.era_start
        &&& post.eras_stakers == pre.eras_stakers
        &&& post.eras_validator_list == pre.eras_validator_list
        &&& post.eras_total_stake == pre.eras_total_stake
        &&& post.config == pre.config
    })
}

impl Pallet {
    /// Pays out the recorded reward pool of an era across that era's
    /// selected validators, each in proportion to its frozen exposure with
    /// a reputation bonus, a fixed ten-percent commission, and the rest
    /// split among its delegators in proportion to their frozen stake;
    /// every credit mints new balance. What rounding leaves over stays
    /// undistributed, and the pool is never over-spent.
    ///
    /// Fails with `NoRewardsForEra` when no pool is recorded for the era —
    /// in particular on any second call for one era, since a completed
    /// payout consumes the pool. Returns successfully without touching
    /// anything when the era has no selected validators or no recorded
    /// stake.
    pub fn distribute_rewards(&mut self, era: EraIndex) -> (r: Result<(), Error>)
        requires
            old(self).inv(),
        ensures
            final(self).inv(),
            distribution_post(*old(self), *final(self), era, r),
    {
        let era_reward = match self.eras_reward.get(era) {
            None => {
                return Err(Error::NoRewardsForEra);
            },
            Some(x) => *x,
        };
        let list = match self.eras_validator_list.get(era) {
            None => {
                return Ok(());
            },
            Some(l) => l,
        };
        if list.len() == 0 {
            return Ok(());
        }
        let total_stake = match self.eras_total_stake.get(era) {
            None => {
                return Ok(());
            },
            Some(t) => *t,
        };
        if total_stake == 0 {
            return Ok(());
        }

        let ghost glist = list@;
        let ghost exps = era_exposures(*old(self), era);
        let ghost vals = old(self).validators@;
        let table_opt = self.eras_stakers.get(era);
        proof {
            if self.eras_stakers@.dom().contains(era) {
                let jt = index_of_key(self.eras_stakers.entries(), era);
                lemma_index_of_key(self.eras_stakers.entries(), era);
                assert(self.eras_stakers.entries()[jt].1.wf());
                assert(self.eras_stakers.entries()[jt].1 == self.eras_stakers@[era]);
                assert forall|v: AccountId| exps.dom().contains(v)
                    implies exposure_wf(#[trigger] exps[v]) by {
                    let inner = self.eras_stakers.entries()[jt].1.entries();
                    let ji = index_of_key(inner, v);
                    lemma_index_of_key(inner, v);
                    assert(exposure_wf(self.eras_stakers.entries()[jt].1.entries()[ji].1));
                }
            }
        }
        let ghost table_wf = match table_opt {
            Some(t) => t.wf(),
            None => true,
        };

        let mut payouts: Vec<Credit> = Vec::new();
        let mut remainder = era_reward;
        let n = list.len();
        let mut i: usize = 0;
        while i < n
            invariant
                self.inv(),
                self == old(self),
                i <= n,
                n == glist.len(),
                glist == list@,
                match table_opt {
                    Some(t) => t.wf() && t@ == exps,
                    None => exps == Map::<AccountId, Exposure>::empty(),
                },
                vals == self.validators@,
                era_credits_from(glist, 0, exps, vals, era_reward, total_stake, era_reward).0
                    == payouts@ + era_credits_from(
                        glist, i as int, exps, vals, era_reward, total_stake, remainder).0,
                era_credits_from(glist, 0, exps, vals, era_reward, total_stake, era_reward).1
                    == era_credits_from(
                        glist, i as int, exps, vals, era_reward, total_stake, remainder).1,
            decreases n - i,
        {
            let v = list[i];
            let ghost rem0 = remainder;
            let ghost prev_payouts = payouts@;
            let exp_opt: Option<&Exposure> = match table_opt {
                None => None,
                Some(t) => t.get(v),
            };
            match exp_opt {
                None => {
                    proof {
                        assert(!exps.dom().contains(v));
                        assert(era_credits_from(
                            glist, i as int, exps, vals, era_reward, total_stake, rem0)
                            == era_credits_from(
                                glist, i + 1, exps, vals, era_reward, total_stake, rem0));
                    }
                },
                Some(exp) => {
                    let ghost step = one_validator_payout(
                        v, exps[v],
                        if vals.dom().contains(v) { vals[v].reputation.score } else { 0u64 },
                        era_reward, total_stake, rem0);
                    let vr = fraction_mul(
                        fraction_from_rational(exp.total, total_stake), era_reward);
                    if vr == 0 {
                        proof {
                            assert(step == (Seq::<Credit>::empty(), rem0));
                            assert(era_credits_from(
                                glist, i as int, exps, vals, era_reward, total_stake, rem0).0
                                =~= step.0 + era_credits_from(
                                    glist, i + 1, exps, vals, era_reward, total_stake, rem0).0);
                            assert(step.0 + era_credits_from(
                                glist, i + 1, exps, vals, era_reward, total_stake, rem0).0
                                =~= era_credits_from(
                                    glist, i + 1, exps, vals, era_reward, total_stake, rem0).0);
                        }
                    } else {
                        let rep = match self.validators.get(v) {
                            Some(rec) => rec.reputation.score,
                            None => 0,
                        };
                        let rep_factor = fraction_from_rational(rep, 100);
                        let bonus_parts = fraction_mul(TEN_PERCENT, rep_factor);
                        let bonus = fraction_mul(bonus_parts, vr);
                        let adjusted = vr.saturating_add(bonus);
                        let actual = if adjusted > remainder {
                            remainder
                        } else {
                            adjusted
                        };
                        remainder = remainder - actual;
                        let commission = fraction_mul(TEN_PERCENT, actual);
                        let dr = actual - commission;
                        let own_r = fraction_mul(
                            fraction_from_rational(exp.own, exp.total), dr);
                        let vtotal = own_r + commission;
                        let ghost before_v = payouts@;
                        if vtotal != 0 {
                            payouts.push(Credit { who: v, amount: vtotal });
                        }
                        let ghost after_base = payouts@;
                        let ghost base: Seq<Credit> = if vtotal == 0 {
                            Seq::empty()
                        } else {
                            seq![Credit { who: v, amount: vtotal }]
                        };
                        proof {
                            assert(after_base =~= before_v + base);
                        }
                        if dr != 0 && exp.delegations.len() > 0 {
                            let m = exp.delegations.len();
                            let mut j: usize = 0;
                            proof {
                                assert(exp.delegations@.take(0)
                                    =~= Seq::<IndividualExposure>::empty());
                            }
                            while j < m
                                invariant
                                    j <= m,
                                    m == exp.delegations@.len(),
                                    dr != 0,
                                    payouts@ == after_base + delegation_credits(
                                        exp.delegations@.take(j as int), exp.total, dr),
                                decreases m - j,
                            {
                                let d = exp.delegations[j];
                                let amt = fraction_mul(
                                    fraction_from_rational(d.value, exp.total), dr);
                                if amt != 0 {
                                    payouts.push(Credit { who: d.who, amount: amt });
                                }
                                proof {
                                    assert(exp.delegations@.take(j as int + 1).drop_last()
                                        =~= exp.delegations@.take(j as int));
                                    assert(exp.delegations@.take(j as int + 1).last()
                                        == exp.delegations@[j as int]);
                                }
                                j = j + 1;
                            }
                            proof {
                                assert(exp.delegations@.take(m as int) =~= exp.delegations@);
                            }
                        }
                        proof {
                            assert(payouts@ =~= prev_payouts + step.0);
                            assert(remainder == step.1);
                        }
                    }
                    proof {
                        assert(era_credits_from(
                            glist, i as int, exps, vals, era_reward, total_stake, rem0).0
                            == step.0 + era_credits_from(
                                glist, i + 1, exps, vals, era_reward, total_stake, step.1).0);
                    }
                },
            }
            proof {
                assert(era_credits_from(
                    glist, 0, exps, vals, era_reward, total_stake, era_reward).0
                    =~= payouts@ + era_credits_from(
                        glist, i + 1, exps, vals, era_reward, total_stake, remainder).0);
            }
            i = i + 1;
        }

        proof {
            assert(era_credits_from(
                glist, n as int, exps, vals, era_reward, total_stake, remainder)
                == (Seq::<Credit>::empty(), remainder));
            assert(era_credits_from(
                glist, 0, exps, vals, era_reward, total_stake, era_reward).0
                =~= payouts@);
            assert forall|v: AccountId| exps.dom().contains(v)
                implies exposure_wf(#[trigger] exps[v]) by {
                let jt = index_of_key(old(self).eras_stakers.entries(), era);
                lemma_index_of_key(old(self).eras_stakers.entries(), era);
                let inner = old(self).eras_stakers.entries()[jt].1.entries();
                let ji = index_of_key(inner, v);
                lemma_index_of_key(inner, v);
                assert(exposure_wf(
                    old(self).eras_stakers.entries()[jt].1.entries()[ji].1));
            }
            lemma_era_payout_bounded(
                glist, 0, exps, vals, era_reward, total_stake, era_reward);
        }
        let paid = era_reward - remainder;
        self.events.push(Event::RewardsPaid(era, paid));
        self.eras_reward.remove(era);
        self.credits.append(&mut payouts);
        proof {
            assert(final(self).credits@ == old(self).credits@ + era_payout(*old(self), era).0);
        }
        Ok(())
    }

    /// Records an era's reward pool. The block-production collaborator
    /// funds the pool; it stays recorded until payout consumes it.
    pub fn record_era_reward(&mut self, era: EraIndex, amount: Balance)
        requires
            old(self).inv(),
        ensures
            final(self).inv(),
            final(self).eras_reward@ == old(self).eras_reward@.insert(era, amount),
            final(self).validators == old(self).validators,
            final(self).statuses == old(self).statuses,
            final(self).delegators == old(self).delegators,
            final(self).validator_locks == old(self).validator_locks,
            final(self).delegator_locks == old(self).delegator_locks,
            final(self).validator_count == old(self).validator_count,
            final(self).current_era == old(self).current_era,
            final(self).era_start == old(self).era_start,
            final(self).eras_stakers == old(self).eras_stakers,
            final(self).eras_validator_list == old(self).eras_validator_list,
            final(self).eras_total_stake == old(self).eras_total_stake,
            final(self).events == old(self).events,
            final(self).credits == old(self).credits,
            final(self).config == old(self).config,
    {
        self.eras_reward.insert(era, amount);
    }

    /// Freezes one validator's exposure for an era: the stake snapshot
    /// that reward distribution reads. The exposure must add up.
    pub fn record_exposure(&mut self, era: EraIndex, validator: AccountId, exposure: Exposure)
        requires
            old(self).inv(),
            exposure_wf(exposure),
        ensures
            final(self).inv(),
            final(self).eras_stakers@.dom().contains(era),
            final(self).eras_stakers@[era]@ == ({
                if old(self).eras_stakers@.dom().contains(era) {
                    old(self).eras_stakers@[era]@.insert(validator, exposure)
                } else {
                    Map::<u64, Exposure>::empty().insert(validator, exposure)
                }
            }),
            final(self).eras_stakers@ == old(self).eras_stakers@.insert(
                era,
                final(self).eras_stakers@[era],
            ),
            final(self).validators == old(self).validators,
            final(self).statuses == old(self).statuses,
            final(self).delegators == old(self).delegators,
            final(self).validator_locks == old(self).validator_locks,
            final(self).delegator_locks == old(self).delegator_locks,
            final(self).validator_count == old(self).validator_count,
            final(self).current_era == old(self).current_era,
            final(self).era_start == old(self).era_start,
            final(self).eras_validator_list == old(self).eras_validator_list,
            final(self).eras_total_stake == old(self).eras_total_stake,
            final(self).eras_reward == old(self).eras_reward,
            final(self).events == old(self).events,
            final(self).credits == old(self).credits,
            final(self).config == old(self).config,
    {
        let ghost old_outer = self.eras_stakers.entries();
        let ghost rt = index_of_key(old_outer, era);
        proof {
            lemma_index_of_key(old_outer, era);
        }
        let mut table: crate::store::StoreMap<Exposure> = match self.eras_stakers.take(era) {
            Some(t) => t,
            None => crate::store::StoreMap::new(),
        };
        let ghost old_inner = table.entries();
        let ghost had_table = old(self).eras_stakers@.dom().contains(era);
        proof {
            if had_table {
                assert(old_outer[rt].1 == old(self).eras_stakers@[era]);
                assert(old_outer[rt].1.wf());
            }
        }
        table.insert(validator, exposure);
        let ghost mid_outer = self.eras_stakers.entries();
        self.eras_stakers.insert(era, table);
        proof {
            assert(final(self).eras_stakers@
                == old(self).eras_stakers@.remove(era).insert(era, table)) by {
                assert(old(self).eras_stakers@.remove(era).insert(era, table)
                    =~= old(self).eras_stakers@.insert(era, table));
            }
            let pos = crate::store::count_below(mid_outer, era);
            crate::store::lemma_count_below_sorted(mid_outer, era);
            let new_outer = self.eras_stakers.entries();
            assert(new_outer == mid_outer.insert(pos, (era, table)));
            mid_outer.insert_ensures(pos, (era, table));
            // The inner table is well formed and each frozen exposure in it
            // adds up.
            let vi = index_of_key(old_inner, validator);
            lemma_index_of_key(old_inner, validator);
            assert forall|j: int| 0 <= j < table.entries().len()
                implies exposure_wf((#[trigger] table.entries()[j]).1) by {
                if old_inner.len() > 0 || had_table {
                }
                if table.entries()[j] == (validator, exposure) {
                } else {
                    if vi >= 0 && table.entries() == old_inner.update(vi, (validator, exposure)) {
                        if j != vi {
                            assert(table.entries()[j] == old_inner[j]);
                            assert(old_outer[rt].1.entries()[j] == old_inner[j]);
                        }
                    } else {
                        let cb = crate::store::count_below(old_inner, validator);
                        crate::store::lemma_count_below_sorted(old_inner, validator);
                        old_inner.insert_ensures(cb, (validator, exposure));
                        if j < cb {
                            assert(table.entries()[j] == old_inner[j]);
                            assert(old_outer[rt].1.entries()[j] == old_inner[j]);
                        } else if j > cb {
                            assert(table.entries()[j] == old_inner[j - 1]);
                            assert(old_outer[rt].1.entries()[j - 1] == old_inner[j - 1]);
                        }
                    }
                }
            }
            // Every outer entry still holds a well-formed table of
            // well-formed exposures.
            assert forall|i: int| 0 <= i < new_outer.len()
                implies (#[trigger] new_outer[i]).1.wf() by {
                if i < pos {
                    assert(new_outer[i] == mid_outer[i]);
                    lemma_taken_entry(old_outer, mid_outer, rt, i, had_table);
                } else if i > pos {
                    assert(new_outer[i] == mid_outer[i - 1]);
                    lemma_taken_entry(old_outer, mid_outer, rt, i - 1, had_table);
                }
            }
            assert forall|i: int, j: int|
                0 <= i < new_outer.len() && 0 <= j < new_outer[i].1.entries().len()
                implies exposure_wf((#[trigger] new_outer[i].1.entries()[j]).1) by {
                if i < pos {
                    assert(new_outer[i] == mid_outer[i]);
                    lemma_taken_entry(old_outer, mid_outer, rt, i, had_table);
                } else if i > pos {
                    assert(new_outer[i] == mid_outer[i - 1]);
                    lemma_taken_entry(old_outer, mid_outer, rt, i - 1, had_table);
                }
            }
            assert(final(self).inv());
        }
    }
}

/// After the entry at `rt` was taken out of a sorted store's entries, every
/// remaining entry is one of the old ones.
proof fn lemma_taken_entry(
    old_outer: Seq<(u64, crate::store::StoreMap<Exposure>)>,
    mid_outer: Seq<(u64, crate::store::StoreMap<Exposure>)>,
    rt: int,
    i: int,
    had: bool,
)
    requires
        0 <= i < mid_outer.len(),
        had ==> 0 <= rt < old_outer.len() && mid_outer == old_outer.remove(rt),
        !had ==> mid_outer == old_outer,
    ensures
        exists|i0: int| 0 <= i0 < old_outer.len() && mid_outer[i] == #[trigger] old_outer[i0],
{
    if had {
        if i < rt {
            assert(mid_outer[i] == old_outer[i]);
        } else {
            assert(mid_outer[i] == old_outer[i + 1]);
        }
    } else {
        assert(mid_outer[i] == old_outer[i]);
    }
}

/// An era payout never mints more than the pool it starts from: the
/// credits plus the final remainder stay within the starting remainder.
pub proof fn lemma_era_payout_bounded(
    list: Seq<AccountId>,
    i: int,
    exps: Map<AccountId, Exposure>,
    vals: Map<AccountId, crate::types::Validator>,
    era_reward: u64,
    total_stake: u64,
    rem: u64,
)
    requires
        0 <= i <= list.len(),
        forall|v: AccountId| exps.dom().contains(v) ==> exposure_wf(#[trigger] exps[v]),
    ensures
        ({
            let out = era_credits_from(list, i, exps, vals, era_reward, total_stake, rem);
            sum_credits(out.0) + out.1 <= rem && out.1 <= rem && sum_credits(out.0) >= 0
        }),
    decreases list.len() - i,
{
    if i < list.len() {
        let v = list[i];
        if exps.dom().contains(v) {
            let rep: u64 = if vals.dom().contains(v) {
                vals[v].reputation.score
            } else {
                0
            };
            let step = one_validator_payout(v, exps[v], rep, era_reward, total_stake, rem);
            lemma_one_validator_payout_bounded(v, exps[v], rep, era_reward, total_stake, rem);
            lemma_era_payout_bounded(list, i + 1, exps, vals, era_reward, total_stake, step.1);
            let rest = era_credits_from(list, i + 1, exps, vals, era_reward, total_stake, step.1);
            lemma_sum_credits_concat(step.0, rest.0);
        } else {
            lemma_era_payout_bounded(list, i + 1, exps, vals, era_reward, total_stake, rem);
        }
    }
}

} // verus!
