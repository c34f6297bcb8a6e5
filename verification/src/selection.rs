//! Scoring and selection: once per era boundary, every active validator is
//! scored by a fixed blend of stake and reputation, and the highest-scoring
//! accounts are selected. Ties are broken by ascending account, so the
//! outcome is deterministic across nodes.

use vstd::prelude::*;

verus! {

use crate::AccountId;
use crate::Balance;
use crate::arith::SCALE;
use crate::arith::fraction_mul;
use crate::arith::parts_of;
use crate::ledger::Pallet;
use crate::sum::sum_by;
use crate::types::Config;
use crate::types::clamped;
use crate::types::Validator;
use crate::types::ValidatorStatus;

/// One scored candidate for selection.
#[derive(Clone, Copy, PartialEq, Eq, Structural, Debug)]
pub struct Candidate {
    /// The candidate's account.
    pub account: AccountId,
    /// The blended selection score.
    pub score: u128,
    /// The candidate's total stake when it was scored.
    pub stake: Balance,
}

/// The selection score: the stake weight applied to the total stake plus
/// the reputation weight applied to the raw reputation score. The two
/// quantities are blended without normalizing their units, as the chain's
/// economics define.
pub open spec fn spec_score(c: Config, v: Validator) -> int {
    parts_of((SCALE - c.reputation_weight) as u64, v.total_stake)
        + parts_of(c.reputation_weight, v.reputation.score)
}

/// Whether account `a` is eligible for selection: its record is active and
/// its status entry says so too.
pub open spec fn is_candidate(s: Pallet, a: AccountId) -> bool {
    &&& s.validators@.dom().contains(a)
    &&& s.validators@[a].is_active
    &&& s.statuses@.dom().contains(a)
    &&& s.statuses@[a] == ValidatorStatus::Active
}

/// The scored candidate that account `a` makes in state `s`.
pub open spec fn cand_of(s: Pallet, a: AccountId) -> Candidate {
    Candidate {
        account: a,
        score: spec_score(s.config, s.validators@[a]) as u128,
        stake: s.validators@[a].total_stake,
    }
}

/// The strict selection order: higher score first, ties broken by
/// ascending account.
pub open spec fn cand_before(a: Candidate, b: Candidate) -> bool {
    a.score > b.score || (a.score == b.score && a.account < b.account)
}

/// One account's total stake in state `s`.
pub open spec fn stake_of(s: Pallet, a: AccountId) -> int {
    s.validators@[a].total_stake as int
}

/// The exact sum of the selected accounts' total stakes.
pub open spec fn stakes_of(s: Pallet, accts: Seq<AccountId>) -> int {
    sum_by(accts, |a: AccountId| stake_of(s, a))
}

/// Computes a validator's selection score.
fn score_of(config: &Config, v: &Validator) -> (r: u128)
    requires
        config.wf(),
    ensures
        r as int == spec_score(*config, *v),
{
    let stake_weight = SCALE - config.reputation_weight;
    let a = fraction_mul(stake_weight, v.total_stake);
    let b = fraction_mul(config.reputation_weight, v.reputation.score);
    (a as u128) + (b as u128)
}

/// Decides the selection order between two candidates.
fn comes_before(a: &Candidate, b: &Candidate) -> (r: bool)
    ensures
        r == cand_before(*a, *b),
{
    a.score > b.score || (a.score == b.score && a.account < b.account)
}

/// Everything one selection run does: the outcome list `sel` holds at most
/// `validators_count` accounts, every one an eligible candidate, in strictly
/// descending score order with ties broken by ascending account; every
/// eligible account left out lost to the whole list; the list and the
/// clamped sum of its stakes are stored under the current era; and nothing
/// else changes.
pub open spec fn selection_post(pre: Pallet, post: Pallet, sel: Seq<AccountId>) -> bool {
    &&& sel.len() <= pre.config.validators_count
    &&& forall|i: int| 0 <= i < sel.len() ==> is_candidate(pre, #[trigger] sel[i])
    &&& forall|i: int, j: int| 0 <= i < j < sel.len()
        ==> cand_before(cand_of(pre, sel[i]), cand_of(pre, sel[j]))
    &&& forall|i: int, j: int| 0 <= i < j < sel.len() ==> sel[i] != sel[j]
    &&& forall|a: AccountId| is_candidate(pre, a) && !sel.contains(a)
        ==> sel.len() == pre.config.validators_count
            && (sel.len() > 0 ==> cand_before(cand_of(pre, sel.last()), cand_of(pre, a)))
    &&& post.eras_validator_list@.dom().contains(pre.current_era)
    &&& post.eras_validator_list@[pre.current_era]@ == sel
    &&& post.eras_validator_list@ == pre.eras_validator_list@.insert(
        pre.current_era,
        post.eras_validator_list@[pre.current_era],
    )
    &&& post.eras_total_stake@ == pre.eras_total_stake@.insert(
        pre.current_era,
        clamped(stakes_of(pre, sel)),
    )
    &&& post.validators == pre.validators
    &&& post.statuses == pre.statuses
    &&& post.delegators == pre.delegators
    &&& post.validator_locks == pre.validator_locks
    &&& post.delegator_locks == pre.delegator_locks
    &&& post.validator_count == pre.validator_count
    &&& post.current_era == pre.current_era
    &&& post.era_start == pre.era_start
    &&& post.eras_stakers == pre.eras_stakers
    &&& post.eras_reward == pre.eras_reward
    &&& post.events == pre.events
    &&& post.credits == pre.credits
    &&& post.config == pre.config
}

impl Pallet {
    /// Walks the validator store in ascending account order and scores
    /// every eligible account.
    #[verifier::rlimit(80)]
    fn gather_candidates(&self) -> (r: Vec<Candidate>)
        requires
            self.inv(),
        ensures
            forall|p: int| 0 <= p < r@.len() ==> {
                &&& is_candidate(*self, (#[trigger] r@[p]).account)
                &&& r@[p] == cand_of(*self, r@[p].account)
            },
            forall|p: int, q: int| 0 <= p < q < r@.len() ==> r@[p].account < r@[q].account,
            forall|a: AccountId| is_candidate(*self, a)
                ==> exists|p: int| 0 <= p < r@.len() && (#[trigger] r@[p]).account == a,
    {
        let entries_len = self.validators.len();
        let mut cands: Vec<Candidate> = Vec::new();
        let mut i: usize = 0;
        while i < entries_len
            invariant
                self.inv(),
                i <= entries_len,
                entries_len == self.validators.entries().len(),
                forall|p: int| 0 <= p < cands@.len() ==> {
                    &&& is_candidate(*self, (#[trigger] cands@[p]).account)
                    &&& cands@[p] == cand_of(*self, cands@[p].account)
                    &&& exists|j: int| 0 <= j < i
                        && cands@[p].account == self.validators.entries()[j].0
                },
                forall|p: int, q: int| 0 <= p < q < cands@.len()
                    ==> cands@[p].account < cands@[q].account,
                forall|j: int| 0 <= j < i && is_candidate(*self, self.validators.entries()[j].0)
                    ==> exists|p: int| 0 <= p < cands@.len()
                        && (#[trigger] cands@[p]).account == self.validators.entries()[j].0,
            decreases entries_len - i,
        {
            let account = self.validators.key_at(i);
            let ghost prev_cands = cands@;
            let record = *self.validators.val_at(i);
            if record.is_active {
                let status_active = match self.statuses.get(account) {
                    Some(s) => match s {
                        ValidatorStatus::Active => true,
                        _ => false,
                    },
                    None => false,
                };
                if status_active {
                    let score = score_of(&self.config, &record);
                    let cand = Candidate { account, score, stake: record.total_stake };
                    proof {
                        assert(is_candidate(*self, account));
                        assert(cand == cand_of(*self, account));
                        assert forall|p: int| 0 <= p < prev_cands.len()
                            implies (#[trigger] prev_cands[p]).account < account by {
                            let j = choose|j: int| 0 <= j < i
                                && prev_cands[p].account == self.validators.entries()[j].0;
                            assert(self.validators.entries()[j].0
                                < self.validators.entries()[i as int].0);
                        }
                    }
                    cands.push(cand);
                }
            }
            proof {
                assert forall|j: int|
                    0 <= j < i + 1 && is_candidate(*self, self.validators.entries()[j].0)
                    implies exists|p: int| 0 <= p < cands@.len()
                        && (#[trigger] cands@[p]).account == self.validators.entries()[j].0 by {
                    if j < i {
                        let p = choose|p: int| 0 <= p < prev_cands.len()
                            && (#[trigger] prev_cands[p]).account
                                == self.validators.entries()[j].0;
                        assert(cands@[p].account == self.validators.entries()[j].0);
                    } else {
                        let k = self.validators.entries()[i as int].0;
                        if is_candidate(*self, k) {
                            assert(self.validators@[k] == record);
                            assert(cands@[cands@.len() - 1].account == k);
                        }
                    }
                }
            }
            i = i + 1;
        }
        proof {
            assert forall|a: AccountId| is_candidate(*self, a)
                implies exists|p: int| 0 <= p < cands@.len()
                    && (#[trigger] cands@[p]).account == a by {
                let entries = self.validators.entries();
                crate::store::lemma_index_of_key(entries, a);
                let j = crate::store::index_of_key(entries, a);
                assert(entries[j].0 == a);
                assert(is_candidate(*self, entries[j].0));
            }
        }
        cands
    }

    /// Selects the validators for the current era: every account that is
    /// active and in Active status is scored, the candidates are ordered
    /// by descending score with ties broken by ascending account, and the
    /// top `validators_count` accounts are taken. The selected list and
    /// the clamped sum of their total stakes are stored under the current
    /// era; nothing else changes.
    #[verifier::rlimit(90)]
    pub fn select_validators(&mut self) -> (r: Vec<AccountId>)
        requires
            old(self).inv(),
        ensures
            final(self).inv(),
            selection_post(*old(self), *final(self), r@),
    {
        let ghost pre = *old(self);
        let cands = self.gather_candidates();
        let ghost gcands = cands@;
        let ordered = order_candidates(cands);
        proof {
            assert forall|p: int| 0 <= p < ordered@.len()
                implies is_candidate(*self, (#[trigger] ordered@[p]).account)
                    && ordered@[p] == cand_of(*self, ordered@[p].account) by {
                assert(gcands.contains(ordered@[p]));
                let q = choose|q: int| 0 <= q < gcands.len() && gcands[q] == ordered@[p];
                assert(is_candidate(*self, gcands[q].account));
            }
        }

        // Take the top of the order, summing their stakes as we go.
        let count = self.config.validators_count;
        let mut selected: Vec<AccountId> = Vec::new();
        let mut total: u64 = 0;
        let mut n: usize = 0;
        while n < ordered.len() && (n as u64) < count
            invariant_except_break
                n <= ordered@.len(),
                n as u64 <= count,
                selected@.len() == n,
                self.inv(),
                self == old(self),
                forall|p: int| 0 <= p < n ==> #[trigger] selected@[p] == ordered@[p].account,
                forall|p: int| 0 <= p < ordered@.len() ==> {
                    &&& is_candidate(*self, (#[trigger] ordered@[p]).account)
                    &&& ordered@[p] == cand_of(*self, ordered@[p].account)
                },
                total == clamped(stakes_of(*self, selected@)),
                stakes_of(*self, selected@) >= 0,
            ensures
                n <= ordered@.len(),
                n as u64 <= count,
                selected@.len() == n,
                self == old(self),
                n == ordered@.len() || n as u64 == count,
                forall|p: int| 0 <= p < n ==> #[trigger] selected@[p] == ordered@[p].account,
                total == clamped(stakes_of(*self, selected@)),
            decreases ordered@.len() - n,
        {
            let c = ordered[n];
            let ghost prev_sel = selected@;
            selected.push(c.account);
            total = total.saturating_add(c.stake);
            proof {
                assert(selected@.drop_last() =~= prev_sel);
                assert(stakes_of(*self, selected@)
                    == stakes_of(*self, prev_sel) + stake_of(*self, c.account));
                assert(c.stake as int == stake_of(*self, c.account));
            }
            n = n + 1;
        }

        let era = self.current_era;
        let stored = copy_accounts(&selected);
        self.eras_validator_list.insert(era, stored);
        self.eras_total_stake.insert(era, total);

        proof {
            // What the loop established, phrased over the returned list.
            assert forall|p: int, q: int| 0 <= p < q < selected@.len()
                implies cand_before(cand_of(pre, selected@[p]), cand_of(pre, selected@[q]))
                    && selected@[p] != selected@[q] by {
                assert(cand_before(ordered@[p], ordered@[q]));
            }
            assert forall|a: AccountId| is_candidate(pre, a) && !selected@.contains(a)
                implies selected@.len() == pre.config.validators_count
                    && (selected@.len() > 0 ==> cand_before(
                        cand_of(pre, selected@.last()),
                        cand_of(pre, a),
                    )) by {
                // Every candidate is among the gathered ones, hence in the
                // ordering; an excluded one can only sit past the cut.
                let p0 = choose|p: int| 0 <= p < gcands.len()
                    && (#[trigger] gcands[p]).account == a;
                assert(ordered@.contains(gcands[p0]));
                let p1 = choose|p: int| 0 <= p < ordered@.len()
                    && ordered@[p] == gcands[p0];
                assert(ordered@[p1].account == a);
                if p1 < selected@.len() {
                    assert(selected@[p1] == a);
                    assert(false);
                }
                assert(selected@.len() < ordered@.len());
                assert(selected@.len() == pre.config.validators_count);
                if selected@.len() > 0 {
                    let lastp = selected@.len() - 1;
                    assert(cand_before(ordered@[lastp], ordered@[p1]));
                    assert(ordered@[lastp] == cand_of(pre, selected@.last()));
                    assert(ordered@[p1] == cand_of(pre, a));
                }
            }
        }
        selected
    }
}

/// Candidates stand in selection order: highest score first, ties broken
/// by ascending account.
pub open spec fn sorted_cands(s: Seq<Candidate>) -> bool {
    forall|p: int, q: int| 0 <= p < q < s.len()
        ==> cand_before(#[trigger] s[p], #[trigger] s[q])
}

/// Puts one candidate where it keeps the list in selection order, and
/// says where it went in.
fn insert_in_order(ordered: &mut Vec<Candidate>, c: Candidate) -> (pos: usize)
    requires
        sorted_cands(old(ordered)@),
        forall|p: int| 0 <= p < old(ordered)@.len()
            ==> (#[trigger] old(ordered)@[p]).account != c.account,
    ensures
        pos <= old(ordered)@.len(),
        final(ordered)@ == old(ordered)@.insert(pos as int, c),
        sorted_cands(final(ordered)@),
{
    let mut pos: usize = 0;
    while pos < ordered.len() && !comes_before(&c, &ordered[pos])
        invariant_except_break
            pos <= ordered@.len(),
            ordered@ == old(ordered)@,
            forall|p: int| 0 <= p < ordered@.len()
                ==> (#[trigger] ordered@[p]).account != c.account,
            forall|q: int| 0 <= q < pos ==> cand_before(#[trigger] ordered@[q], c),
        ensures
            pos <= ordered@.len(),
            ordered@ == old(ordered)@,
            forall|q: int| 0 <= q < pos ==> cand_before(#[trigger] ordered@[q], c),
            pos < ordered@.len() ==> cand_before(c, ordered@[pos as int]),
        decreases ordered@.len() - pos,
    {
        pos = pos + 1;
    }
    let ghost prev = ordered@;
    ordered.insert(pos, c);
    proof {
        prev.insert_ensures(pos as int, c);
        assert forall|p: int, q: int| 0 <= p < q < ordered@.len()
            implies cand_before(#[trigger] ordered@[p], #[trigger] ordered@[q]) by {
            if p == pos && q > pos {
                assert(cand_before(c, prev[pos as int]));
                assert(cand_before(prev[pos as int], prev[q - 1]) || pos as int == q - 1);
            } else if p < pos && q == pos {
                assert(cand_before(prev[p], c));
            } else if p < pos && q > pos {
                assert(cand_before(prev[p], c));
                assert(cand_before(c, prev[q - 1]) || pos as int == q - 1);
            }
        }
    }
    pos
}

/// Orders candidates for selection: highest score first, ties broken by
/// ascending account. The result holds exactly the given candidates.
#[verifier::rlimit(100)]
fn order_candidates(cands: Vec<Candidate>) -> (r: Vec<Candidate>)
    requires
        forall|p: int, q: int| 0 <= p < q < cands@.len()
            ==> cands@[p].account < cands@[q].account,
    ensures
        r@.len() == cands@.len(),
        sorted_cands(r@),
        forall|p: int| 0 <= p < r@.len() ==> cands@.contains(#[trigger] r@[p]),
        forall|q: int| 0 <= q < cands@.len() ==> r@.contains(#[trigger] cands@[q]),
{
    let cands_len = cands.len();
    let mut ordered: Vec<Candidate> = Vec::new();
    let mut t: usize = 0;
    while t < cands_len
        invariant
            t <= cands_len,
            cands_len == cands@.len(),
            ordered@.len() == t,
            forall|p: int, q: int| 0 <= p < q < cands@.len()
                ==> cands@[p].account < cands@[q].account,
            sorted_cands(ordered@),
            forall|p: int| 0 <= p < ordered@.len()
                ==> cands@.take(t as int).contains(#[trigger] ordered@[p]),
            forall|q: int| 0 <= q < t ==> ordered@.contains(#[trigger] cands@[q]),
        decreases cands_len - t,
    {
        let c = cands[t];
        proof {
            // The incoming candidate's account is fresh in the order so far.
            assert forall|p: int| 0 <= p < ordered@.len()
                implies (#[trigger] ordered@[p]).account != c.account by {
                let taken = cands@.take(t as int);
                assert(taken.contains(ordered@[p]));
                let q = choose|q: int| 0 <= q < taken.len() && taken[q] == ordered@[p];
                assert(cands@[q] == ordered@[p]);
                assert(cands@[q].account != cands@[t as int].account);
            }
        }
        let ghost prev = ordered@;
        let pos = insert_in_order(&mut ordered, c);
        proof {
            prev.insert_ensures(pos as int, c);
            let taken = cands@.take(t as int);
            let taken1 = cands@.take(t + 1int);
            assert forall|p: int| 0 <= p < ordered@.len()
                implies taken1.contains(#[trigger] ordered@[p]) by {
                if p == pos {
                    assert(taken1[t as int] == ordered@[p]);
                } else {
                    let p0: int = if p < pos { p } else { p - 1 };
                    assert(ordered@[p] == prev[p0]);
                    assert(taken.contains(prev[p0]));
                    let q = choose|q: int| 0 <= q < taken.len() && taken[q] == prev[p0];
                    assert(taken1[q] == taken[q]);
                    assert(taken1[q] == ordered@[p]);
                }
            }
            assert forall|q: int| 0 <= q < t + 1
                implies ordered@.contains(#[trigger] cands@[q]) by {
                if q < t {
                    assert(prev.contains(cands@[q]));
                    let p = choose|p: int| 0 <= p < prev.len() && prev[p] == cands@[q];
                    let p1: int = if p < pos { p } else { p + 1 };
                    assert(ordered@[p1] == prev[p]);
                    assert(ordered@[p1] == cands@[q]);
                } else {
                    assert(ordered@[pos as int] == cands@[q]);
                }
            }
        }
        t = t + 1;
    }
    proof {
        assert(cands@.take(cands@.len() as int) =~= cands@);
    }
    ordered
}

/// Copies an account list element by element.
fn copy_accounts(accts: &Vec<AccountId>) -> (r: Vec<AccountId>)
    ensures
        r@ == accts@,
{
    let mut out: Vec<AccountId> = Vec::new();
    let n = accts.len();
    let mut i: usize = 0;
    while i < n
        invariant
            i <= n,
            n == accts@.len(),
            out@ == accts@.take(i as int),
        decreases n - i,
    {
        let a = accts[i];
        out.push(a);
        proof {
            assert(accts@.take(i as int).push(accts@[i as int]) =~= accts@.take(i as int + 1));
        }
        i = i + 1;
    }
    proof {
        assert(accts@.take(accts@.len() as int) =~= accts@);
    }
    out
}

} // verus!
