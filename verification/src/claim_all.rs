use vstd::prelude::*;

use crate::Contract;
use crate::buckets::claimable_from;
use crate::claim::{TransferRequest, count_ts, drained_details, refs_distinct, was_drained};
use crate::sum::sum_details;
use crate::types::{
    AccountId, AccrualIndex, Asset, ClaimAllResultView, ClaimResultView, ContractError,
    TokensAmount, UnixTimestamp, default_asset, spec_default_asset, spec_is_within_period,
};

verus! {

/// The drained entries of one asset inside a claim over all assets.
pub struct ClaimDetails {
    pub accruals: Vec<(UnixTimestamp, TokensAmount)>,
    pub total: TokensAmount,
}

/// One claim unit of a claim over all assets: an asset together with the
/// entries drained for it.
pub struct Claim {
    pub asset: Asset,
    pub details: ClaimDetails,
}

impl Claim {
    pub fn new(asset: Asset, details: ClaimDetails) -> (r: Self)
        ensures
            r.asset == asset,
            r.details == details,
    {
        Self { asset, details }
    }
}

/// The continuation state of a claim over all assets: the unit whose external
/// transfer is in flight, the units still to be settled, and the results
/// accumulated so far.
pub struct ClaimAllPending {
    pub now: UnixTimestamp,
    pub account_id: AccountId,
    pub head: Claim,
    pub tail: Vec<Claim>,
    pub result: ClaimAllResultView,
}

/// What a claim over all assets returns: either a settled list of results,
/// or the first unit of a continuation chain driven by `on_asset_transfer`.
pub enum ClaimAllOutcome {
    Settled(ClaimAllResultView),
    Pending(ClaimAllPending),
}

/// Whether some asset name in `s` has the view `a`.
pub open spec fn names_contain(s: Seq<Asset>, a: Seq<char>) -> bool {
    exists|i: int| 0 <= i < s.len() && (#[trigger] s[i])@ == a
}

pub proof fn lemma_names_contain_take_step(s: Seq<Asset>, a: Seq<char>, k: int)
    requires
        0 <= k < s.len(),
    ensures
        names_contain(s.take(k + 1), a) == (names_contain(s.take(k), a) || s[k]@ == a),
{
    if names_contain(s.take(k + 1), a) {
        let i = choose|i: int| 0 <= i < s.take(k + 1).len() && (#[trigger] s.take(k + 1)[i])@ == a;
        if i < k {
            assert(s.take(k)[i]@ == a);
        } else {
            assert(s[k]@ == a);
        }
    }
    if names_contain(s.take(k), a) {
        let i = choose|i: int| 0 <= i < s.take(k).len() && (#[trigger] s.take(k)[i])@ == a;
        assert(s.take(k + 1)[i]@ == a);
    }
    if s[k]@ == a {
        assert(s.take(k + 1)[k]@ == a);
    }
}

/// What one claim unit must say of the state the claim started from: its
/// asset is registered, its total is the sum of its entries, and — when the
/// account's references are pairwise distinct — its entries are exactly the
/// entries a drain of that asset collects, their total being the claimable
/// balance.
pub open spec fn spec_unit_sound(pre: Contract, caller: Seq<char>, u: Claim, now: UnixTimestamp) -> bool {
    let a = u.asset@;
    let refs0 = pre.spec_account(caller).spec_refs(a);
    let m0 = pre.spec_buckets(a);
    &&& pre.spec_registered(a)
    &&& sum_details(u.details.accruals@) == u.details.total
    &&& u.details.accruals@.len() > 0
    &&& forall|j: int|
        0 <= j < u.details.accruals@.len() ==> spec_is_within_period(
            (#[trigger] u.details.accruals@[j]).0,
            now,
            pre.burn_period,
        ) && u.details.accruals@[j].0 <= now
    &&& (refs_distinct(refs0) ==> u.details.accruals@ == drained_details(
        refs0,
        m0,
        now,
        pre.burn_period,
    ) && u.details.total == claimable_from(refs0, m0, now, pre.burn_period))
}

impl Contract {
    /// The names of the registered extra assets, in registry order.
    fn extra_asset_names(&self) -> (r: Vec<Asset>)
        ensures
            r@.len() == self.extra_accruals@.len(),
            forall|i: int| 0 <= i < r@.len() ==> (#[trigger] r@[i])@ == self.extra_accruals@[i].0@,
    {
        let n = self.extra_accruals.len();
        let mut out: Vec<Asset> = Vec::new();
        let mut k: usize = 0;
        while k < n
            invariant
                n == self.extra_accruals@.len(),
                k <= n,
                out@.len() == k,
                forall|i: int|
                    0 <= i < k ==> (#[trigger] out@[i])@ == self.extra_accruals@[i].0@,
            decreases n - k,
        {
            out.push(self.extra_accruals[k].0.clone());
            k = k + 1;
        }
        out
    }

    /// Claims over every asset at once: checks eligibility once, drains each
    /// registered asset the caller has claimable entries in, and hands the
    /// drained units back as a continuation chain that `on_asset_transfer`
    /// settles one external transfer at a time. All reference lists are
    /// cleared before any external call is issued.
    #[verifier::rlimit(100)]
    pub fn claim_all(&mut self, caller: &AccountId, now: UnixTimestamp) -> (r: Result<
        ClaimAllOutcome,
        ContractError,
    >)
        requires
            old(self).wf(),
            old(self).times_le(now),
            forall|a: Seq<char>|
                old(self).spec_registered(a) ==> #[trigger] old(self).spec_buckets(a).map_total()
                    <= u128::MAX,
        ensures
            final(self).wf(),
            final(self).times_le(now),
            !old(self).spec_claim_available(caller@, now) ==> r == Err::<
                ClaimAllOutcome,
                ContractError,
            >(ContractError::ClaimNotAvailable) && *final(self) == *old(self),
            old(self).spec_claim_available(caller@, now) ==> ({
                let bp = old(self).burn_period;
                let rec0 = old(self).spec_account(caller@);
                let rec1 = final(self).spec_account(caller@);
                &&& r is Ok
                &&& forall|a: Seq<char>|
                    old(self).spec_registered(a) ==> #[trigger] final(self).claimable(
                        caller@,
                        a,
                        now,
                    ) == 0
                &&& forall|a: Seq<char>|
                    old(self).spec_registered(a) ==> #[trigger] rec1.spec_refs(a).len() == 0
                &&& rec1.claim_period_refreshed_at == rec0.claim_period_refreshed_at
                &&& rec1.is_locked == rec0.is_locked
                &&& forall|id: Seq<char>|
                    #[trigger] final(self).spec_has_account(id) == old(self).spec_has_account(id)
                &&& forall|id: Seq<char>|
                    id != caller@ && old(self).spec_has_account(id) ==> #[trigger] final(
                    self).spec_account(id) == old(self).spec_account(id)
                &&& forall|a: Seq<char>|
                    #[trigger] final(self).spec_has_extra(a) == old(self).spec_has_extra(a)
                &&& forall|a: Seq<char>, u: UnixTimestamp|
                    old(self).spec_registered(a) ==> #[trigger] final(self).spec_buckets(
                        a,
                    ).spec_has(u) == old(self).spec_buckets(a).spec_has(u)
                &&& forall|a: Seq<char>, u: UnixTimestamp, i: AccrualIndex|
                    old(self).spec_registered(a) ==> #[trigger] final(self).spec_buckets(
                        a,
                    ).spec_amount(u, i) == (if was_drained(
                        rec0.spec_refs(a),
                        u,
                        i,
                        now,
                        bp,
                    ) && old(self).spec_buckets(a).spec_amount(u, i) is Some {
                        Some(0u128)
                    } else {
                        old(self).spec_buckets(a).spec_amount(u, i)
                    })
                &&& match r {
                    Ok(ClaimAllOutcome::Settled(v)) => v.0@.len() == 0,
                    Ok(ClaimAllOutcome::Pending(p)) => {
                        &&& p.now == now
                        &&& p.account_id@ == caller@
                        &&& p.result.0@.len() == 0
                        &&& spec_unit_sound(*old(self), caller@, p.head, now)
                        &&& forall|j: int|
                            0 <= j < p.tail@.len() ==> spec_unit_sound(
                                *old(self),
                                caller@,
                                #[trigger] p.tail@[j],
                                now,
                            )
                    },
                    Err(_) => false,
                }
            }),
            final(self).owner_id == old(self).owner_id,
            final(self).token_account_id == old(self).token_account_id,
            final(self).assets == old(self).assets,
            final(self).oracles == old(self).oracles,
            final(self).claim_period == old(self).claim_period,
            final(self).burn_period == old(self).burn_period,
            final(self).accounts_legacy == old(self).accounts_legacy,
            final(self).is_service_call_running == old(self).is_service_call_running,
    {
        let available = match self.find_account(caller) {
            None => false,
            Some(j) => {
                proof {
                    self.lemma_account_entry(j as int);
                    assert(self.accounts@[j as int].1.spec_record().times_le(now));
                }
                let refreshed = match &self.accounts[j].1 {
                    crate::account::AccountRecordVersioned::V1(rec) => rec.claim_period_refreshed_at,
                };
                now - refreshed > self.claim_period
            },
        };
        if !available {
            return Err(ContractError::ClaimNotAvailable);
        }
        let ghost bp = old(self).burn_period;
        let ghost rec0 = old(self).spec_account(caller@);
        let names = self.extra_asset_names();
        let mut targets: Vec<Asset> = Vec::new();
        targets.push(default_asset());
        let mut ni: usize = 0;
        let nn = names.len();
        while ni < nn
            invariant
                nn == names@.len(),
                ni <= nn,
                targets@.len() == 1 + ni,
                targets@[0]@ == spec_default_asset(),
                forall|i: int| 0 <= i < ni ==> (#[trigger] targets@[i + 1])@ == names@[i]@,
                forall|i: int| 0 <= i < nn ==> (#[trigger] names@[i])@ == self.extra_accruals@[i].0@,
            decreases nn - ni,
        {
            targets.push(names[ni].clone());
            proof {
                assert(targets@[ni as int + 1]@ == names@[ni as int]@);
            }
            ni = ni + 1;
        }
        proof {
            assert forall|a: Seq<char>| old(self).spec_registered(a) implies names_contain(
                targets@,
                a,
            ) by {
                if a == spec_default_asset() {
                    assert(targets@[0]@ == a);
                } else {
                    let i = old(self).spec_extra_index_of(a);
                    assert(old(self).extra_accruals@[i].0@ == a);
                    assert(targets@[i + 1]@ == a);
                }
            };
            assert forall|i: int| 0 <= i < targets@.len() implies old(self).spec_registered(
                (#[trigger] targets@[i])@,
            ) by {
                if i > 0 {
                    assert(targets@[(i - 1) + 1]@ == names@[i - 1]@);
                    old(self).lemma_extra_entry(i - 1);
                }
            };
        }
        let tn = targets.len();
        let mut units: Vec<Claim> = Vec::new();
        let mut k: usize = 0;
        while k < tn
            invariant
                old(self).wf(),
                old(self).times_le(now),
                self.wf(),
                self.times_le(now),
                tn == targets@.len(),
                k <= tn,
                bp == old(self).burn_period,
                rec0 == old(self).spec_account(caller@),
                forall|a: Seq<char>|
                    old(self).spec_registered(a) ==> #[trigger] old(self).spec_buckets(
                        a,
                    ).map_total() <= u128::MAX,
                forall|a: Seq<char>|
                    old(self).spec_registered(a) ==> #[trigger] self.spec_buckets(a).map_total()
                        <= old(self).spec_buckets(a).map_total(),
                forall|i: int|
                    0 <= i < tn ==> old(self).spec_registered((#[trigger] targets@[i])@),
                forall|a: Seq<char>| old(self).spec_registered(a) ==> names_contain(targets@, a),
                self.spec_has_account(caller@),
                old(self).spec_has_account(caller@),
                forall|id: Seq<char>|
                    #[trigger] self.spec_has_account(id) == old(self).spec_has_account(id),
                forall|id: Seq<char>|
                    id != caller@ && old(self).spec_has_account(id) ==> #[trigger] self
                        .spec_account(id) == old(self).spec_account(id),
                forall|a: Seq<char>|
                    #[trigger] self.spec_has_extra(a) == old(self).spec_has_extra(a),
                self.spec_account(caller@).claim_period_refreshed_at
                    == rec0.claim_period_refreshed_at,
                self.spec_account(caller@).is_locked == rec0.is_locked,
                self.spec_account(caller@).is_enabled == rec0.is_enabled,
                forall|a: Seq<char>|
                    old(self).spec_registered(a) && !names_contain(
                        targets@.take(k as int),
                        a,
                    ) ==> #[trigger] self.spec_buckets(a) == old(self).spec_buckets(a),
                forall|a: Seq<char>|
                    !names_contain(targets@.take(k as int), a) ==> #[trigger] self.spec_account(
                        caller@,
                    ).spec_refs(a) == rec0.spec_refs(a),
                forall|a: Seq<char>|
                    old(self).spec_registered(a) && names_contain(targets@.take(k as int), a)
                        ==> #[trigger] self.spec_account(caller@).spec_refs(a).len() == 0,
                forall|a: Seq<char>, u: UnixTimestamp|
                    old(self).spec_registered(a) ==> #[trigger] self.spec_buckets(a).spec_has(u)
                        == old(self).spec_buckets(a).spec_has(u),
                forall|a: Seq<char>, u: UnixTimestamp, i: AccrualIndex|
                    old(self).spec_registered(a) && names_contain(targets@.take(k as int), a)
                        ==> #[trigger] self.spec_buckets(a).spec_amount(u, i) == (if was_drained(
                        rec0.spec_refs(a),
                        u,
                        i,
                        now,
                        bp,
                    ) && old(self).spec_buckets(a).spec_amount(u, i) is Some {
                        Some(0u128)
                    } else {
                        old(self).spec_buckets(a).spec_amount(u, i)
                    }),
                forall|j: int|
                    0 <= j < units@.len() ==> spec_unit_sound(
                        *old(self),
                        caller@,
                        #[trigger] units@[j],
                        now,
                    ),
                self.owner_id == old(self).owner_id,
                self.token_account_id == old(self).token_account_id,
                self.assets == old(self).assets,
                self.oracles == old(self).oracles,
                self.claim_period == old(self).claim_period,
                self.burn_period == old(self).burn_period,
                self.accounts_legacy == old(self).accounts_legacy,
                self.is_service_call_running == old(self).is_service_call_running,
            decreases tn - k,
        {
            let ghost pre = *self;
            let target = &targets[k];
            let ghost a_k = targets@[k as int]@;
            proof {
                assert(old(self).spec_registered(a_k));
                assert(self.spec_buckets(a_k).map_total() <= old(self).spec_buckets(
                    a_k,
                ).map_total());
            }
            let (details, total) = self.drain_asset(caller, now, target);
            proof {
                lemma_names_contain_take_step(targets@, a_k, k as int);
            }
            if details.len() > 0 {
                proof {
                    // the drained asset was untouched by the earlier rounds,
                    // so the drain speaks of the state the claim started from
                    if names_contain(targets@.take(k as int), a_k) {
                        assert(pre.spec_account(caller@).spec_refs(a_k).len() == 0);
                        assert(drained_details(
                            pre.spec_account(caller@).spec_refs(a_k),
                            pre.spec_buckets(a_k),
                            now,
                            bp,
                        ) =~= Seq::<(UnixTimestamp, TokensAmount)>::empty());
                        assert(refs_distinct(pre.spec_account(caller@).spec_refs(a_k)));
                        assert(false);
                    }
                    assert(pre.spec_buckets(a_k) == old(self).spec_buckets(a_k));
                    assert(pre.spec_account(caller@).spec_refs(a_k) == rec0.spec_refs(a_k));
                }
                units.push(Claim::new(target.clone(), ClaimDetails { accruals: details, total }));
            }
            proof {
                let take1 = targets@.take(k as int + 1);
                let take0 = targets@.take(k as int);
                assert forall|a: Seq<char>|
                    old(self).spec_registered(a) && !names_contain(take1, a) implies #[trigger] self
                    .spec_buckets(a) == old(self).spec_buckets(a) by {
                    lemma_names_contain_take_step(targets@, a, k as int);
                    assert(pre.spec_buckets(a) == old(self).spec_buckets(a));
                };
                assert forall|a: Seq<char>| !names_contain(take1, a) implies #[trigger] self
                    .spec_account(caller@).spec_refs(a) == rec0.spec_refs(a) by {
                    lemma_names_contain_take_step(targets@, a, k as int);
                };
                assert forall|a: Seq<char>|
                    old(self).spec_registered(a) && names_contain(take1, a) implies #[trigger] self
                    .spec_account(caller@).spec_refs(a).len() == 0 by {
                    lemma_names_contain_take_step(targets@, a, k as int);
                    if a != a_k && names_contain(take0, a) {
                        assert(pre.spec_account(caller@).spec_refs(a).len() == 0);
                    }
                };
                assert forall|a: Seq<char>, u: UnixTimestamp, i: AccrualIndex|
                    old(self).spec_registered(a) && names_contain(take1, a) implies #[trigger] self
                    .spec_buckets(a).spec_amount(u, i) == (if was_drained(
                    rec0.spec_refs(a),
                    u,
                    i,
                    now,
                    bp,
                ) && old(self).spec_buckets(a).spec_amount(u, i) is Some {
                    Some(0u128)
                } else {
                    old(self).spec_buckets(a).spec_amount(u, i)
                }) by {
                    lemma_names_contain_take_step(targets@, a, k as int);
                    if a == a_k {
                        if names_contain(take0, a) {
                            assert(pre.spec_buckets(a).spec_amount(u, i) == self.spec_buckets(
                                a,
                            ).spec_amount(u, i)) by {
                                assert(pre.spec_account(caller@).spec_refs(a_k).len() == 0);
                            };
                        } else {
                            assert(pre.spec_buckets(a) == old(self).spec_buckets(a));
                            assert(pre.spec_account(caller@).spec_refs(a) == rec0.spec_refs(a));
                        }
                    } else {
                        assert(names_contain(take0, a));
                        assert(pre.spec_buckets(a).spec_amount(u, i) == self.spec_buckets(
                            a,
                        ).spec_amount(u, i));
                    }
                };
                assert forall|a: Seq<char>|
                    old(self).spec_registered(a) implies #[trigger] self.spec_buckets(
                    a,
                ).map_total() <= old(self).spec_buckets(a).map_total() by {
                    if a != a_k {
                        assert(self.spec_buckets(a) == pre.spec_buckets(a));
                    }
                };
            }
            k = k + 1;
        }
        proof {
            assert forall|a: Seq<char>| old(self).spec_registered(a) implies #[trigger] self
                .spec_account(caller@).spec_refs(a).len() == 0 by {
                assert(targets@.take(tn as int) =~= targets@);
            };
            assert forall|a: Seq<char>, u: UnixTimestamp, i: AccrualIndex|
                old(self).spec_registered(a) implies #[trigger] self.spec_buckets(a).spec_amount(
                u,
                i,
            ) == (if was_drained(rec0.spec_refs(a), u, i, now, bp) && old(self).spec_buckets(
                a,
            ).spec_amount(u, i) is Some {
                Some(0u128)
            } else {
                old(self).spec_buckets(a).spec_amount(u, i)
            }) by {
                assert(targets@.take(tn as int) =~= targets@);
                assert(names_contain(targets@, a));
            };
            assert forall|a: Seq<char>| old(self).spec_registered(a) implies #[trigger] final(self)
                .claimable(caller@, a, now) == 0 by {
                assert(self.spec_account(caller@).spec_refs(a).len() == 0);
                assert(self.spec_account(caller@).spec_refs(a) =~= Seq::<(
                    UnixTimestamp,
                    AccrualIndex,
                )>::empty());
            };
        }
        if units.len() == 0 {
            Ok(ClaimAllOutcome::Settled(ClaimAllResultView::default()))
        } else {
            let head = units.remove(0);
            Ok(
                ClaimAllOutcome::Pending(
                    ClaimAllPending {
                        now,
                        account_id: caller.clone(),
                        head,
                        tail: units,
                        result: ClaimAllResultView::default(),
                    },
                ),
            )
        }
    }

    /// Settles one step of a claim over all assets: confirms the head unit's
    /// external transfer through `on_transfer`, appends the per-asset result,
    /// and either returns the accumulated results or hands back the next
    /// unit of the chain.
    pub fn on_asset_transfer(
        &mut self,
        now: UnixTimestamp,
        account_id: AccountId,
        head: Claim,
        tail: Vec<Claim>,
        result: ClaimAllResultView,
        is_success: bool,
    ) -> (r: ClaimAllOutcome)
        requires
            old(self).wf(),
            old(self).times_le(now),
            old(self).spec_has_account(account_id@),
            old(self).spec_registered(head.asset@),
            sum_details(head.details.accruals@) == head.details.total,
            forall|j: int|
                0 <= j < head.details.accruals@.len() ==> (
                #[trigger] head.details.accruals@[j]).0 <= now,
            old(self).spec_buckets(head.asset@).map_total() + head.details.total <= u128::MAX,
            head.details.accruals@.len() <= u32::MAX,
            forall|u: UnixTimestamp|
                old(self).spec_buckets(head.asset@).spec_has(u) ==> #[trigger] old(
                self).spec_buckets(head.asset@).spec_bucket(u).amounts@.len()
                    + head.details.accruals@.len() <= u32::MAX,
        ensures
            final(self).wf(),
            final(self).times_le(now),
            forall|id: Seq<char>|
                #[trigger] final(self).spec_has_account(id) == old(self).spec_has_account(id),
            forall|id: Seq<char>|
                id != account_id@ && old(self).spec_has_account(id) ==> #[trigger] final(
                self).spec_account(id) == old(self).spec_account(id),
            is_success ==> final(self).accruals == old(self).accruals && final(self).extra_accruals
                == old(self).extra_accruals && final(self).spec_account(
                account_id@,
            ).claim_period_refreshed_at == now,
            !is_success ==> ({
                let t = head.asset@;
                let m0 = old(self).spec_buckets(t);
                let m1 = final(self).spec_buckets(t);
                &&& m1.map_total() == m0.map_total() + head.details.total
                &&& final(self).spec_account(account_id@).spec_refs(t) == old(self).spec_account(
                    account_id@,
                ).spec_refs(t) + crate::claim::rollback_refs(head.details.accruals@, m0)
                &&& forall|u: UnixTimestamp|
                    #[trigger] m1.spec_has(u) == (m0.spec_has(u) || count_ts(
                        head.details.accruals@,
                        u,
                    ) > 0)
            }),
            ({
                let step_results = result.0@.push(
                    ClaimResultView {
                        asset: head.asset,
                        success: is_success,
                        total: crate::types::U128(
                            if is_success {
                                head.details.total
                            } else {
                                0
                            },
                        ),
                    },
                );
                match r {
                    ClaimAllOutcome::Settled(v) => tail@.len() == 0 && v.0@.len()
                        == step_results.len() && (forall|j: int|
                        0 <= j < v.0@.len() ==> (#[trigger] v.0@[j]).asset@ == step_results[j].asset@
                            && v.0@[j].success == step_results[j].success && v.0@[j].total
                            == step_results[j].total),
                    ClaimAllOutcome::Pending(p) => {
                        &&& tail@.len() > 0
                        &&& p.now == now
                        &&& p.account_id@ == account_id@
                        &&& p.head == tail@[0]
                        &&& p.tail@ == tail@.drop_first()
                        &&& p.result.0@.len() == step_results.len()
                        &&& forall|j: int|
                            0 <= j < p.result.0@.len() ==> (#[trigger] p.result.0@[j]).asset@
                                == step_results[j].asset@ && p.result.0@[j].success
                                == step_results[j].success && p.result.0@[j].total
                                == step_results[j].total
                    },
                }
            }),
            final(self).owner_id == old(self).owner_id,
            final(self).token_account_id == old(self).token_account_id,
            final(self).assets == old(self).assets,
            final(self).oracles == old(self).oracles,
            final(self).claim_period == old(self).claim_period,
            final(self).burn_period == old(self).burn_period,
            final(self).accounts_legacy == old(self).accounts_legacy,
            final(self).is_service_call_running == old(self).is_service_call_running,
    {
        let total = head.details.total;
        let step = self.on_transfer(
            TransferRequest {
                now,
                account_id: account_id.clone(),
                total,
                asset: head.asset,
                details: head.details.accruals,
            },
            is_success,
        );
        let mut result = result;
        result.0.push(step);
        if tail.len() == 0 {
            ClaimAllOutcome::Settled(result)
        } else {
            let mut tail = tail;
            let next = tail.remove(0);
            ClaimAllOutcome::Pending(
                ClaimAllPending { now, account_id, head: next, tail, result },
            )
        }
    }
}

} // verus!
