use vstd::prelude::*;

use crate::Contract;
use crate::account::AccountRecordVersioned;
use crate::buckets::{BucketMap, claimable_from, ref_amount};
use crate::record::spec_target_asset;
use crate::sum::{sum_details, lemma_sum_details_push};
use crate::types::{
    AccountId, AccrualIndex, Asset, ClaimResultView, ContractError, Duration, TokensAmount,
    UnixTimestamp, asset_eq, default_asset, is_within_period, spec_default_asset,
    spec_is_within_period,
};

verus! {

/// The continuation payload of a claim whose external transfer is in flight:
/// everything the callback needs to commit or to roll back.
pub struct TransferRequest {
    /// The time the claim was drained at.
    pub now: UnixTimestamp,
    /// The claiming participant.
    pub account_id: AccountId,
    /// The drained total, which the external transfer carries.
    pub total: TokensAmount,
    /// The asset being settled.
    pub asset: Asset,
    /// The drained `(timestamp, amount)` pairs, for rollback.
    pub details: Vec<(UnixTimestamp, TokensAmount)>,
}

/// What a claim returns: either a settled result, or a request whose external
/// transfer must be confirmed through `on_transfer`.
pub enum ClaimOutcome {
    Settled(ClaimResultView),
    Pending(TransferRequest),
}

/// Whether the drain of `refs` at `now` zeroes position `(u, i)`.
pub open spec fn was_drained(
    refs: Seq<(UnixTimestamp, AccrualIndex)>,
    u: UnixTimestamp,
    i: AccrualIndex,
    now: UnixTimestamp,
    period: Duration,
) -> bool {
    spec_is_within_period(u, now, period) && exists|j: int|
        0 <= j < refs.len() && #[trigger] refs[j] == (u, i)
}

/// The `(timestamp, amount)` pairs a drain of `refs` against `m` collects.
pub open spec fn drained_details(
    refs: Seq<(UnixTimestamp, AccrualIndex)>,
    m: BucketMap,
    now: UnixTimestamp,
    period: Duration,
) -> Seq<(UnixTimestamp, TokensAmount)>
    decreases refs.len(),
{
    if refs.len() == 0 {
        Seq::empty()
    } else {
        drained_details(refs.drop_last(), m, now, period) + (if spec_is_within_period(
            refs.last().0,
            now,
            period,
        ) {
            match m.spec_amount(refs.last().0, refs.last().1) {
                Some(a) => seq![(refs.last().0, a)],
                None => Seq::empty(),
            }
        } else {
            Seq::empty()
        })
    }
}

/// No reference occurs twice in the list.
pub open spec fn refs_distinct(refs: Seq<(UnixTimestamp, AccrualIndex)>) -> bool {
    forall|j1: int, j2: int| 0 <= j1 < j2 < refs.len() ==> refs[j1] != refs[j2]
}

pub proof fn lemma_claimable_take_step(
    refs: Seq<(UnixTimestamp, AccrualIndex)>,
    m: BucketMap,
    now: UnixTimestamp,
    period: Duration,
    k: int,
)
    requires
        0 <= k < refs.len(),
    ensures
        claimable_from(refs.take(k + 1), m, now, period) == claimable_from(
            refs.take(k),
            m,
            now,
            period,
        ) + ref_amount(m, refs[k], now, period),
{
    assert(refs.take(k + 1).drop_last() =~= refs.take(k));
}

pub proof fn lemma_drained_details_take_step(
    refs: Seq<(UnixTimestamp, AccrualIndex)>,
    m: BucketMap,
    now: UnixTimestamp,
    period: Duration,
    k: int,
)
    requires
        0 <= k < refs.len(),
    ensures
        drained_details(refs.take(k + 1), m, now, period) == drained_details(
            refs.take(k),
            m,
            now,
            period,
        ) + (if spec_is_within_period(refs[k].0, now, period) {
            match m.spec_amount(refs[k].0, refs[k].1) {
                Some(a) => seq![(refs[k].0, a)],
                None => Seq::<(UnixTimestamp, TokensAmount)>::empty(),
            }
        } else {
            Seq::<(UnixTimestamp, TokensAmount)>::empty()
        }),
{
    assert(refs.take(k + 1).drop_last() =~= refs.take(k));
}

pub proof fn lemma_was_drained_take_step(
    refs: Seq<(UnixTimestamp, AccrualIndex)>,
    u: UnixTimestamp,
    i: AccrualIndex,
    now: UnixTimestamp,
    period: Duration,
    k: int,
)
    requires
        0 <= k < refs.len(),
    ensures
        was_drained(refs.take(k + 1), u, i, now, period) == (was_drained(
            refs.take(k),
            u,
            i,
            now,
            period,
        ) || (refs[k] == (u, i) && spec_is_within_period(u, now, period))),
{
    if was_drained(refs.take(k + 1), u, i, now, period) {
        let j = choose|j: int| 0 <= j < refs.take(k + 1).len() && #[trigger] refs.take(k + 1)[j] == (u, i);
        if j < k {
            assert(refs.take(k)[j] == (u, i));
        } else {
            assert(refs[k] == (u, i));
        }
    }
    if was_drained(refs.take(k), u, i, now, period) {
        let j = choose|j: int| 0 <= j < refs.take(k).len() && #[trigger] refs.take(k)[j] == (u, i);
        assert(refs.take(k + 1)[j] == (u, i));
    }
    if refs[k] == (u, i) && spec_is_within_period(u, now, period) {
        assert(refs.take(k + 1)[k] == (u, i));
    }
}

impl Contract {
    /// Sets or clears the re-entrancy flag of an existing account's record.
    pub(crate) fn account_set_locked(&mut self, account_id: &AccountId, locked: bool)
        requires
            old(self).wf(),
            old(self).spec_has_account(account_id@),
        ensures
            final(self).wf(),
            forall|id: Seq<char>|
                #[trigger] final(self).spec_has_account(id) == old(self).spec_has_account(id),
            forall|id: Seq<char>|
                id != account_id@ && old(self).spec_has_account(id) ==> #[trigger] final(
                self).spec_account(id) == old(self).spec_account(id),
            ({
                let r0 = old(self).spec_account(account_id@);
                let r1 = final(self).spec_account(account_id@);
                &&& r1.is_locked == locked
                &&& r1.accruals == r0.accruals
                &&& r1.claim_period_refreshed_at == r0.claim_period_refreshed_at
                &&& r1.is_enabled == r0.is_enabled
            }),
            final(self).owner_id == old(self).owner_id,
            final(self).token_account_id == old(self).token_account_id,
            final(self).assets == old(self).assets,
            final(self).oracles == old(self).oracles,
            final(self).claim_period == old(self).claim_period,
            final(self).burn_period == old(self).burn_period,
            final(self).accruals == old(self).accruals,
            final(self).extra_accruals == old(self).extra_accruals,
            final(self).accounts_legacy == old(self).accounts_legacy,
            final(self).is_service_call_running == old(self).is_service_call_running,
            forall|n: UnixTimestamp|
                old(self).times_le(n) ==> #[trigger] final(self).times_le(n),
    {
        match self.find_account(account_id) {
            Some(j) => {
                proof {
                    old(self).lemma_account_entry(j as int);
                }
                match &mut self.accounts[j].1 {
                    AccountRecordVersioned::V1(rec) => {
                        rec.is_locked = locked;
                    },
                }
                proof {
                    let s_old = old(self).accounts@;
                    let s_new = self.accounts@;
                    assert(s_new =~= s_old.update(j as int, (s_old[j as int].0, self.accounts@[j as int].1)));
                    assert forall|i: int, m: int| 0 <= i < m < s_new.len() implies (
                    #[trigger] s_new[i]).0@ != (#[trigger] s_new[m]).0@ by {
                        assert(s_new[i].0 == s_old[i].0 && s_new[m].0 == s_old[m].0);
                    };
                    assert forall|i: int, m: int|
                        0 <= i < s_new.len() && 0 <= m < self.accounts_legacy@.len() implies (
                    #[trigger] s_new[i]).0@ != (#[trigger] self.accounts_legacy@[m]).0@ by {
                        assert(s_new[i].0 == s_old[i].0);
                    };
                    assert forall|i: int| 0 <= i < s_new.len() implies (
                    #[trigger] s_new[i]).1.spec_record().wf() by {
                        if i != j {
                            assert(s_new[i] == s_old[i]);
                        }
                    };
                    self.lemma_account_entry(j as int);
                    assert forall|id: Seq<char>| #[trigger] final(self).spec_has_account(id) == old(
                        self).spec_has_account(id) by {
                        if self.spec_has_account(id) {
                            let i = self.spec_account_index_of(id);
                            assert(s_old[i].0@ == id);
                        }
                        if old(self).spec_has_account(id) {
                            let i = old(self).spec_account_index_of(id);
                            assert(s_new[i].0@ == id);
                        }
                    };
                    assert forall|id: Seq<char>|
                        id != account_id@ && old(self).spec_has_account(id) implies #[trigger] final(self)
                        .spec_account(id) == old(self).spec_account(id) by {
                        let i = old(self).spec_account_index_of(id);
                        assert(s_old[i].0@ == id);
                        assert(s_new[i] == s_old[i]);
                        self.lemma_account_entry(i);
                        old(self).lemma_account_entry(i);
                    };
                    assert forall|n: UnixTimestamp| old(self).times_le(n) implies #[trigger] final(self)
                        .times_le(n) by {
                        assert(s_old[j as int].1.spec_record().times_le(n));
                        assert forall|i: int| 0 <= i < s_new.len() implies (
                        #[trigger] s_new[i]).1.spec_record().times_le(n) by {
                            if i != j {
                                assert(s_new[i] == s_old[i]);
                            }
                        };
                    };
                }
            },
            None => vstd::pervasive::unreached(),
        }
    }

    /// Removes and returns the whole reference list an existing account holds
    /// for `asset`, leaving an empty list behind.
    pub(crate) fn account_take_refs(&mut self, account_id: &AccountId, asset: &Asset) -> (refs: Vec<
        (UnixTimestamp, AccrualIndex),
    >)
        requires
            old(self).wf(),
            old(self).spec_has_account(account_id@),
        ensures
            final(self).wf(),
            refs@ == old(self).spec_account(account_id@).spec_refs(asset@),
            forall|id: Seq<char>|
                #[trigger] final(self).spec_has_account(id) == old(self).spec_has_account(id),
            forall|id: Seq<char>|
                id != account_id@ && old(self).spec_has_account(id) ==> #[trigger] final(
                self).spec_account(id) == old(self).spec_account(id),
            ({
                let r0 = old(self).spec_account(account_id@);
                let r1 = final(self).spec_account(account_id@);
                &&& r1.spec_refs(asset@) =~= Seq::<(UnixTimestamp, AccrualIndex)>::empty()
                &&& forall|a: Seq<char>|
                    a != asset@ ==> #[trigger] r1.spec_refs(a) == r0.spec_refs(a)
                &&& r1.claim_period_refreshed_at == r0.claim_period_refreshed_at
                &&& r1.is_locked == r0.is_locked
                &&& r1.is_enabled == r0.is_enabled
            }),
            final(self).owner_id == old(self).owner_id,
            final(self).token_account_id == old(self).token_account_id,
            final(self).assets == old(self).assets,
            final(self).oracles == old(self).oracles,
            final(self).claim_period == old(self).claim_period,
            final(self).burn_period == old(self).burn_period,
            final(self).accruals == old(self).accruals,
            final(self).extra_accruals == old(self).extra_accruals,
            final(self).accounts_legacy == old(self).accounts_legacy,
            final(self).is_service_call_running == old(self).is_service_call_running,
            forall|n: UnixTimestamp|
                old(self).times_le(n) ==> #[trigger] final(self).times_le(n),
    {
        match self.find_account(account_id) {
            Some(j) => {
                proof {
                    old(self).lemma_account_entry(j as int);
                }
                let refs = match &mut self.accounts[j].1 {
                    AccountRecordVersioned::V1(rec) => rec.take_refs(asset),
                };
                proof {
                    let s_old = old(self).accounts@;
                    let s_new = self.accounts@;
                    assert(s_new =~= s_old.update(j as int, (s_old[j as int].0, self.accounts@[j as int].1)));
                    assert forall|i: int, m: int| 0 <= i < m < s_new.len() implies (
                    #[trigger] s_new[i]).0@ != (#[trigger] s_new[m]).0@ by {
                        assert(s_new[i].0 == s_old[i].0 && s_new[m].0 == s_old[m].0);
                    };
                    assert forall|i: int, m: int|
                        0 <= i < s_new.len() && 0 <= m < self.accounts_legacy@.len() implies (
                    #[trigger] s_new[i]).0@ != (#[trigger] self.accounts_legacy@[m]).0@ by {
                        assert(s_new[i].0 == s_old[i].0);
                    };
                    assert forall|i: int| 0 <= i < s_new.len() implies (
                    #[trigger] s_new[i]).1.spec_record().wf() by {
                        if i != j {
                            assert(s_new[i] == s_old[i]);
                        }
                    };
                    self.lemma_account_entry(j as int);
                    assert forall|id: Seq<char>| #[trigger] final(self).spec_has_account(id) == old(
                        self).spec_has_account(id) by {
                        if self.spec_has_account(id) {
                            let i = self.spec_account_index_of(id);
                            assert(s_old[i].0@ == id);
                        }
                        if old(self).spec_has_account(id) {
                            let i = old(self).spec_account_index_of(id);
                            assert(s_new[i].0@ == id);
                        }
                    };
                    assert forall|id: Seq<char>|
                        id != account_id@ && old(self).spec_has_account(id) implies #[trigger] final(self)
                        .spec_account(id) == old(self).spec_account(id) by {
                        let i = old(self).spec_account_index_of(id);
                        assert(s_old[i].0@ == id);
                        assert(s_new[i] == s_old[i]);
                        self.lemma_account_entry(i);
                        old(self).lemma_account_entry(i);
                    };
                    assert forall|n: UnixTimestamp| old(self).times_le(n) implies #[trigger] final(self)
                        .times_le(n) by {
                        assert(s_old[j as int].1.spec_record().times_le(n));
                        assert(self.accounts@[j as int].1.spec_record().times_le(n));
                        assert forall|i: int| 0 <= i < s_new.len() implies (
                        #[trigger] s_new[i]).1.spec_record().times_le(n) by {
                            if i != j {
                                assert(s_new[i] == s_old[i]);
                            }
                        };
                    };
                }
                refs
            },
            None => vstd::pervasive::unreached(),
        }
    }

    /// Zeroes the amount one reference of the registered asset `asset` points
    /// at, returning the previous value, as `BucketMap::zero_amount` does.
    pub(crate) fn zero_bucket_amount(
        &mut self,
        asset: &Asset,
        t: UnixTimestamp,
        i: AccrualIndex,
    ) -> (r: Option<TokensAmount>)
        requires
            old(self).wf(),
            old(self).spec_registered(asset@),
        ensures
            final(self).wf(),
            r == old(self).spec_buckets(asset@).spec_amount(t, i),
            forall|a: Seq<char>|
                #[trigger] final(self).spec_has_extra(a) == old(self).spec_has_extra(a),
            forall|a: Seq<char>|
                a != asset@ && old(self).spec_registered(a) ==> #[trigger] final(self).spec_buckets(
                    a,
                ) == old(self).spec_buckets(a),
            ({
                let m0 = old(self).spec_buckets(asset@);
                let m1 = final(self).spec_buckets(asset@);
                &&& forall|u: UnixTimestamp| #[trigger] m1.spec_has(u) == m0.spec_has(u)
                &&& match r {
                    Some(a) => {
                        &&& m1.spec_bucket(t).amounts@ == m0.spec_bucket(t).amounts@.update(
                            i as int,
                            0u128,
                        )
                        &&& m1.spec_bucket(t).total == m0.spec_bucket(t).total - a
                        &&& forall|u: UnixTimestamp|
                            u != t && m0.spec_has(u) ==> #[trigger] m1.spec_bucket(u)
                                == m0.spec_bucket(u)
                        &&& m1.map_total() == m0.map_total() - a
                    },
                    None => m1 == m0,
                }
            }),
            final(self).owner_id == old(self).owner_id,
            final(self).token_account_id == old(self).token_account_id,
            final(self).assets == old(self).assets,
            final(self).oracles == old(self).oracles,
            final(self).claim_period == old(self).claim_period,
            final(self).burn_period == old(self).burn_period,
            final(self).accounts_legacy == old(self).accounts_legacy,
            final(self).accounts == old(self).accounts,
            final(self).is_service_call_running == old(self).is_service_call_running,
            asset@ != spec_default_asset() ==> final(self).accruals == old(self).accruals,
            forall|n: UnixTimestamp|
                old(self).times_le(n) ==> #[trigger] final(self).times_le(n),
    {
        let def = default_asset();
        if asset_eq(asset, &def) {
            let r = self.accruals.zero_amount(t, i);
            proof {
                assert forall|a: Seq<char>| #[trigger] self.spec_has_extra(a) == old(
                    self).spec_has_extra(a) by {
                    if self.spec_has_extra(a) {
                        let i2 = self.spec_extra_index_of(a);
                        assert(old(self).extra_accruals@[i2].0@ == a);
                    }
                    if old(self).spec_has_extra(a) {
                        let i2 = old(self).spec_extra_index_of(a);
                        assert(self.extra_accruals@[i2].0@ == a);
                    }
                };
                assert forall|a: Seq<char>|
                    a != asset@ && old(self).spec_registered(a) implies #[trigger] self.spec_buckets(
                    a,
                ) == old(self).spec_buckets(a) by {
                    if a != spec_default_asset() {
                        let i2 = old(self).spec_extra_index_of(a);
                        assert(old(self).extra_accruals@[i2].0@ == a);
                        assert(self.extra_accruals@[i2].0@ == a);
                        self.lemma_extra_entry(i2);
                        old(self).lemma_extra_entry(i2);
                    }
                };
            }
            r
        } else {
            match self.find_extra(asset) {
                Some(j) => {
                    proof {
                        old(self).lemma_extra_entry(j as int);
                    }
                    let m = &mut self.extra_accruals[j].1;
                    let r = m.zero_amount(t, i);
                    proof {
                        let s_old = old(self).extra_accruals@;
                        let s_new = self.extra_accruals@;
                        assert(s_new =~= s_old.update(j as int, (s_old[j as int].0, self.extra_accruals@[j as int].1)));
                        assert forall|i2: int, m2: int| 0 <= i2 < m2 < s_new.len() implies (
                        #[trigger] s_new[i2]).0@ != (#[trigger] s_new[m2]).0@ by {
                            assert(s_new[i2].0 == s_old[i2].0 && s_new[m2].0 == s_old[m2].0);
                        };
                        assert forall|i2: int| 0 <= i2 < s_new.len() implies (#[trigger] s_new[i2]).1.wf() by {
                            if i2 != j {
                                assert(s_new[i2] == s_old[i2]);
                            }
                        };
                        self.lemma_extra_entry(j as int);
                        assert forall|a: Seq<char>| #[trigger] self.spec_has_extra(a) == old(
                            self).spec_has_extra(a) by {
                            if self.spec_has_extra(a) {
                                let i2 = self.spec_extra_index_of(a);
                                assert(s_old[i2].0@ == a);
                            }
                            if old(self).spec_has_extra(a) {
                                let i2 = old(self).spec_extra_index_of(a);
                                assert(s_new[i2].0@ == a);
                            }
                        };
                        assert forall|a: Seq<char>|
                            a != asset@ && old(self).spec_registered(a) implies #[trigger] self
                            .spec_buckets(a) == old(self).spec_buckets(a) by {
                            if a != spec_default_asset() {
                                let i2 = old(self).spec_extra_index_of(a);
                                assert(s_old[i2].0@ == a);
                                assert(s_new[i2] == s_old[i2]);
                                self.lemma_extra_entry(i2);
                                old(self).lemma_extra_entry(i2);
                            }
                        };
                        assert forall|n: UnixTimestamp|
                            old(self).times_le(n) implies #[trigger] final(self).times_le(n) by {
                            assert(s_old[j as int].1.times_le(n));
                            assert forall|i2: int| 0 <= i2 < s_new.len() implies (
                            #[trigger] s_new[i2]).1.times_le(n) by {
                                if i2 != j {
                                    assert(s_new[i2] == s_old[i2]);
                                }
                            };
                        };
                    }
                    r
                },
                None => vstd::pervasive::unreached(),
            }
        }
    }
}


impl Contract {
    /// Whether `id` may claim at `now`: the account exists and its claim
    /// period has elapsed since the last refresh.
    pub open spec fn spec_claim_available(self, id: Seq<char>, now: UnixTimestamp) -> bool {
        self.spec_has_account(id) && now - self.spec_account(id).claim_period_refreshed_at
            > self.claim_period
    }

    /// Settles a claim for one asset: checks eligibility, drains every
    /// claimable reference the caller holds for the asset (zeroing the
    /// referenced amounts), and either returns a settled zero result or a
    /// transfer request carrying the drained total, to be confirmed through
    /// `on_transfer`. Entries older than the burn period are dropped without
    /// being drained.
    #[verifier::rlimit(100)]
    pub fn claim(&mut self, caller: &AccountId, now: UnixTimestamp, asset: Option<Asset>) -> (r:
        Result<ClaimOutcome, ContractError>)
        requires
            old(self).wf(),
            old(self).times_le(now),
            old(self).spec_registered(spec_target_asset(asset)) ==> old(self).spec_buckets(
                spec_target_asset(asset),
            ).map_total() <= u128::MAX,
        ensures
            final(self).wf(),
            final(self).times_le(now),
            !old(self).spec_claim_available(caller@, now) ==> r == Err::<
                ClaimOutcome,
                ContractError,
            >(ContractError::ClaimNotAvailable) && *final(self) == *old(self),
            old(self).spec_claim_available(caller@, now) && !old(self).spec_registered(
                spec_target_asset(asset),
            ) ==> r == Err::<ClaimOutcome, ContractError>(ContractError::NotFound) && *final(self)
                == *old(self),
            old(self).spec_claim_available(caller@, now) && old(self).spec_registered(
                spec_target_asset(asset),
            ) ==> ({
                let t = spec_target_asset(asset);
                let bp = old(self).burn_period;
                let m0 = old(self).spec_buckets(t);
                let m1 = final(self).spec_buckets(t);
                let refs0 = old(self).spec_account(caller@).spec_refs(t);
                let rec0 = old(self).spec_account(caller@);
                let rec1 = final(self).spec_account(caller@);
                &&& r is Ok
                &&& rec1.spec_refs(t) =~= Seq::<(UnixTimestamp, AccrualIndex)>::empty()
                &&& forall|a: Seq<char>| a != t ==> #[trigger] rec1.spec_refs(a) == rec0.spec_refs(a)
                &&& rec1.claim_period_refreshed_at == rec0.claim_period_refreshed_at
                &&& forall|id: Seq<char>|
                    #[trigger] final(self).spec_has_account(id) == old(self).spec_has_account(id)
                &&& forall|id: Seq<char>|
                    id != caller@ && old(self).spec_has_account(id) ==> #[trigger] final(
                    self).spec_account(id) == old(self).spec_account(id)
                &&& forall|a: Seq<char>|
                    #[trigger] final(self).spec_has_extra(a) == old(self).spec_has_extra(a)
                &&& forall|a: Seq<char>|
                    a != t && old(self).spec_registered(a) ==> #[trigger] final(self).spec_buckets(
                        a,
                    ) == old(self).spec_buckets(a)
                &&& forall|u: UnixTimestamp| #[trigger] m1.spec_has(u) == m0.spec_has(u)
                &&& forall|u: UnixTimestamp|
                    m0.spec_has(u) ==> #[trigger] m1.spec_bucket(u).amounts@.len()
                        == m0.spec_bucket(u).amounts@.len()
                &&& forall|u: UnixTimestamp, i: AccrualIndex|
                    #[trigger] m1.spec_amount(u, i) == (if was_drained(refs0, u, i, now, bp)
                        && m0.spec_amount(u, i) is Some {
                        Some(0u128)
                    } else {
                        m0.spec_amount(u, i)
                    })
                &&& final(self).claimable(caller@, t, now) == 0
                &&& match r {
                    Ok(o) => match o {
                        ClaimOutcome::Settled(v) => {
                            &&& v.asset@ == t
                            &&& v.success
                            &&& v.total.0 == 0
                            &&& !rec1.is_locked
                            &&& m1.map_total() == m0.map_total()
                            &&& (refs_distinct(refs0) ==> claimable_from(refs0, m0, now, bp) == 0)
                        },
                        ClaimOutcome::Pending(req) => {
                            &&& req.now == now
                            &&& req.account_id@ == caller@
                            &&& req.asset@ == t
                            &&& req.total > 0
                            &&& sum_details(req.details@) == req.total
                            &&& m1.map_total() == m0.map_total() - req.total
                            &&& rec1.is_locked
                            &&& forall|j: int|
                                0 <= j < req.details@.len() ==> spec_is_within_period(
                                    (#[trigger] req.details@[j]).0,
                                    now,
                                    bp,
                                ) && req.details@[j].0 <= now
                            &&& (refs_distinct(refs0) ==> req.total == claimable_from(
                                refs0,
                                m0,
                                now,
                                bp,
                            ) && req.details@ == drained_details(refs0, m0, now, bp))
                        },
                    },
                    Err(_) => false,
                }
            }),
            final(self).owner_id == old(self).owner_id,
            final(self).token_account_id == old(self).token_account_id,
            final(self).assets == old(self).assets,
            final(self).oracles == old(self).oracles,
            final(self).claim_period == old(self).claim_period,
            final(self).burn_period == old(self).burn_period,
            final(self).accounts_legacy == old(self).accounts_legacy,
            final(self).is_service_call_running == old(self).is_service_call_running,
    {
        let available = match self.find_account(caller) {
            None => false,
            Some(j) => {
                proof {
                    self.lemma_account_entry(j as int);
                    assert(self.accounts@[j as int].1.spec_record().times_le(now));
                }
                let refreshed = match &self.accounts[j].1 {
                    AccountRecordVersioned::V1(rec) => rec.claim_period_refreshed_at,
                };
                now - refreshed > self.claim_period
            },
        };
        if !available {
            return Err(ContractError::ClaimNotAvailable);
        }
        let ghost t = spec_target_asset(asset);
        let def = default_asset();
        let target: Asset = match asset {
            Some(a) => a,
            None => def,
        };
        let registered = if asset_eq(&target, &default_asset()) {
            true
        } else {
            match self.find_extra(&target) {
                Some(j) => {
                    proof {
                        self.lemma_extra_entry(j as int);
                    }
                    true
                },
                None => false,
            }
        };
        if !registered {
            return Err(ContractError::NotFound);
        }
        let ghost rec0 = old(self).spec_account(caller@);
        self.account_set_locked(caller, true);
        let ghost s1 = *self;
        proof {
            crate::account::AccountRecord::lemma_refs_transport(rec0, s1.spec_account(caller@));
            Contract::lemma_buckets_transport(*old(self), s1);
        }
        let (details, total) = self.drain_asset(caller, now, &target);
        if total > 0 {
            let req = TransferRequest {
                now,
                account_id: caller.clone(),
                total,
                asset: target,
                details,
            };
            Ok(ClaimOutcome::Pending(req))
        } else {
            let ghost s_drained = *self;
            self.account_set_locked(caller, false);
            proof {
                crate::account::AccountRecord::lemma_refs_transport(
                    s_drained.spec_account(caller@),
                    self.spec_account(caller@),
                );
                Contract::lemma_buckets_transport(s_drained, *self);
            }
            Ok(ClaimOutcome::Settled(ClaimResultView::new(target, true, 0)))
        }
    }

    /// Drains one asset for one account: removes the account's reference
    /// list for the asset and zeroes every referenced amount that is still
    /// within the burn period, returning the drained `(timestamp, amount)`
    /// pairs and their total. References older than the burn period, or no
    /// longer resolving, are dropped without draining anything.
    #[verifier::rlimit(100)]
    pub fn drain_asset(&mut self, account_id: &AccountId, now: UnixTimestamp, asset: &Asset) -> (r:
        (Vec<(UnixTimestamp, TokensAmount)>, TokensAmount))
        requires
            old(self).wf(),
            old(self).times_le(now),
            old(self).spec_has_account(account_id@),
            old(self).spec_registered(asset@),
            old(self).spec_buckets(asset@).map_total() <= u128::MAX,
        ensures
            final(self).wf(),
            final(self).times_le(now),
            ({
                let t = asset@;
                let bp = old(self).burn_period;
                let m0 = old(self).spec_buckets(t);
                let m1 = final(self).spec_buckets(t);
                let refs0 = old(self).spec_account(account_id@).spec_refs(t);
                let rec0 = old(self).spec_account(account_id@);
                let rec1 = final(self).spec_account(account_id@);
                &&& rec1.spec_refs(t) =~= Seq::<(UnixTimestamp, AccrualIndex)>::empty()
                &&& forall|a: Seq<char>| a != t ==> #[trigger] rec1.spec_refs(a) == rec0.spec_refs(a)
                &&& rec1.claim_period_refreshed_at == rec0.claim_period_refreshed_at
                &&& rec1.is_locked == rec0.is_locked
                &&& rec1.is_enabled == rec0.is_enabled
                &&& forall|id: Seq<char>|
                    #[trigger] final(self).spec_has_account(id) == old(self).spec_has_account(id)
                &&& forall|id: Seq<char>|
                    id != account_id@ && old(self).spec_has_account(id) ==> #[trigger] final(
                    self).spec_account(id) == old(self).spec_account(id)
                &&& forall|a: Seq<char>|
                    #[trigger] final(self).spec_has_extra(a) == old(self).spec_has_extra(a)
                &&& forall|a: Seq<char>|
                    a != t && old(self).spec_registered(a) ==> #[trigger] final(self).spec_buckets(
                        a,
                    ) == old(self).spec_buckets(a)
                &&& forall|u: UnixTimestamp| #[trigger] m1.spec_has(u) == m0.spec_has(u)
                &&& forall|u: UnixTimestamp|
                    m0.spec_has(u) ==> #[trigger] m1.spec_bucket(u).amounts@.len()
                        == m0.spec_bucket(u).amounts@.len()
                &&& forall|u: UnixTimestamp, i: AccrualIndex|
                    #[trigger] m1.spec_amount(u, i) == (if was_drained(refs0, u, i, now, bp)
                        && m0.spec_amount(u, i) is Some {
                        Some(0u128)
                    } else {
                        m0.spec_amount(u, i)
                    })
                &&& m1.map_total() == m0.map_total() - r.1
                &&& sum_details(r.0@) == r.1
                &&& forall|j: int|
                    0 <= j < r.0@.len() ==> spec_is_within_period((#[trigger] r.0@[j]).0, now, bp)
                        && r.0@[j].0 <= now
                &&& (refs_distinct(refs0) ==> r.1 == claimable_from(refs0, m0, now, bp) && r.0@
                    == drained_details(refs0, m0, now, bp))
                &&& final(self).claimable(account_id@, t, now) == 0
                &&& (r.0@.len() == 0 ==> r.1 == 0)
            }),
            final(self).owner_id == old(self).owner_id,
            final(self).token_account_id == old(self).token_account_id,
            final(self).assets == old(self).assets,
            final(self).oracles == old(self).oracles,
            final(self).claim_period == old(self).claim_period,
            final(self).burn_period == old(self).burn_period,
            final(self).accounts_legacy == old(self).accounts_legacy,
            final(self).is_service_call_running == old(self).is_service_call_running,
    {
        let ghost t = asset@;
        let ghost bp = old(self).burn_period;
        let ghost m0 = old(self).spec_buckets(t);
        let ghost rec0 = old(self).spec_account(account_id@);
        let refs = self.account_take_refs(account_id, asset);
        let ghost s0 = *self;
        proof {
            assert(refs@ == rec0.spec_refs(t));
            Contract::lemma_buckets_transport(*old(self), s0);
            assert(s0.spec_buckets(t) == m0);
            m0.lemma_map_total_nonneg();
        }
        let rn = refs.len();
        let mut total: TokensAmount = 0;
        let mut details: Vec<(UnixTimestamp, TokensAmount)> = Vec::new();
        let mut k: usize = 0;
        proof {
            assert(s0.spec_has_account(account_id@));
            let gi = s0.spec_account_index_of(account_id@);
            assert(s0.accounts@[gi].0@ == account_id@);
            assert(s0.accounts@[gi].1.spec_record().wf());
            Contract::lemma_accounts_transport(s0, *self);
            assert(refs@.take(0) =~= Seq::<(UnixTimestamp, AccrualIndex)>::empty());
            assert(drained_details(refs@.take(0), m0, now, bp) =~= Seq::<(
                UnixTimestamp,
                TokensAmount,
            )>::empty());
        }
        while k < rn
            invariant
                old(self).wf(),
                old(self).times_le(now),
                self.wf(),
                self.times_le(now),
                rn == refs@.len(),
                k <= rn,
                asset@ == t,
                bp == old(self).burn_period,
                old(self).spec_registered(t),
                self.spec_registered(t),
                m0 == old(self).spec_buckets(t),
                m0.map_total() <= u128::MAX,
                forall|j: int| 0 <= j < rn ==> (#[trigger] refs@[j]).0 <= now,
                self.accounts == s0.accounts,
                self.spec_has_account(account_id@),
                self.spec_account(account_id@) == s0.spec_account(account_id@),
                forall|id: Seq<char>|
                    #[trigger] self.spec_has_account(id) == s0.spec_has_account(id),
                forall|id: Seq<char>|
                    s0.spec_has_account(id) ==> #[trigger] self.spec_account(id)
                        == s0.spec_account(id),
                self.accounts_legacy == old(self).accounts_legacy,
                self.owner_id == old(self).owner_id,
                self.token_account_id == old(self).token_account_id,
                self.assets == old(self).assets,
                self.oracles == old(self).oracles,
                self.claim_period == old(self).claim_period,
                self.burn_period == old(self).burn_period,
                self.is_service_call_running == old(self).is_service_call_running,
                forall|a: Seq<char>|
                    #[trigger] self.spec_has_extra(a) == old(self).spec_has_extra(a),
                forall|a: Seq<char>|
                    a != t && old(self).spec_registered(a) ==> #[trigger] self.spec_buckets(a)
                        == old(self).spec_buckets(a),
                forall|u: UnixTimestamp|
                    #[trigger] self.spec_buckets(t).spec_has(u) == m0.spec_has(u),
                forall|u: UnixTimestamp|
                    m0.spec_has(u) ==> #[trigger] self.spec_buckets(t).spec_bucket(
                        u,
                    ).amounts@.len() == m0.spec_bucket(u).amounts@.len(),
                forall|u: UnixTimestamp, i: AccrualIndex|
                    #[trigger] self.spec_buckets(t).spec_amount(u, i) == (if was_drained(
                        refs@.take(k as int),
                        u,
                        i,
                        now,
                        bp,
                    ) && m0.spec_amount(u, i) is Some {
                        Some(0u128)
                    } else {
                        m0.spec_amount(u, i)
                    }),
                self.spec_buckets(t).map_total() == m0.map_total() - total,
                sum_details(details@) == total,
                details@.len() == 0 ==> total == 0,
                forall|j: int|
                    0 <= j < details@.len() ==> spec_is_within_period(
                        (#[trigger] details@[j]).0,
                        now,
                        bp,
                    ) && details@[j].0 <= now,
                refs_distinct(refs@) ==> total == claimable_from(refs@.take(k as int), m0, now, bp)
                    && details@ == drained_details(refs@.take(k as int), m0, now, bp),
            decreases rn - k,
        {
            let ghost pre = *self;
            let (ts, idx) = refs[k];
            proof {
                lemma_claimable_take_step(refs@, m0, now, bp, k as int);
                lemma_drained_details_take_step(refs@, m0, now, bp, k as int);
            }
            if is_within_period(ts, now, self.burn_period) {
                match self.zero_bucket_amount(asset, ts, idx) {
                    Some(a) => {
                        proof {
                            pre.spec_buckets(t).lemma_map_total_nonneg();
                            self.spec_buckets(t).lemma_map_total_nonneg();
                            lemma_sum_details_push(details@, (ts, a));
                        }
                        details.push((ts, a));
                        total = total + a;
                    },
                    None => {},
                }
            }
            proof {
                Contract::lemma_accounts_transport(pre, *self);
                let take1 = refs@.take(k as int + 1);
                let take0 = refs@.take(k as int);
                assert forall|u: UnixTimestamp, i: AccrualIndex|
                    #[trigger] self.spec_buckets(t).spec_amount(u, i) == (if was_drained(
                        take1,
                        u,
                        i,
                        now,
                        bp,
                    ) && m0.spec_amount(u, i) is Some {
                        Some(0u128)
                    } else {
                        m0.spec_amount(u, i)
                    }) by {
                    lemma_was_drained_take_step(refs@, u, i, now, bp, k as int);
                    assert(pre.spec_buckets(t).spec_amount(u, i) == (if was_drained(
                        take0,
                        u,
                        i,
                        now,
                        bp,
                    ) && m0.spec_amount(u, i) is Some {
                        Some(0u128)
                    } else {
                        m0.spec_amount(u, i)
                    }));
                };
                if refs_distinct(refs@) {
                    assert(!was_drained(take0, refs@[k as int].0, refs@[k as int].1, now, bp)) by {
                        if was_drained(take0, refs@[k as int].0, refs@[k as int].1, now, bp) {
                            let j = choose|j: int|
                                0 <= j < take0.len() && #[trigger] take0[j] == (
                                refs@[k as int].0,
                                refs@[k as int].1,
                                );
                            assert(refs@[j] == refs@[k as int]);
                        }
                    };
                    assert(details@ == drained_details(take1, m0, now, bp));
                }
            }
            k = k + 1;
        }
        proof {
            assert(refs@.take(rn as int) =~= refs@);
        }
        (details, total)
    }
}


/// How many details in `s` carry timestamp `u`.
pub open spec fn count_ts(s: Seq<(UnixTimestamp, TokensAmount)>, u: UnixTimestamp) -> int
    decreases s.len(),
{
    if s.len() == 0 {
        0
    } else {
        count_ts(s.drop_last(), u) + (if s.last().0 == u {
            1int
        } else {
            0int
        })
    }
}

pub proof fn lemma_count_ts_take_step(s: Seq<(UnixTimestamp, TokensAmount)>, u: UnixTimestamp, k: int)
    requires
        0 <= k < s.len(),
    ensures
        count_ts(s.take(k + 1), u) == count_ts(s.take(k), u) + (if s[k].0 == u {
            1int
        } else {
            0int
        }),
{
    assert(s.take(k + 1).drop_last() =~= s.take(k));
}

pub proof fn lemma_count_ts_bounds(s: Seq<(UnixTimestamp, TokensAmount)>, u: UnixTimestamp)
    ensures
        0 <= count_ts(s, u) <= s.len(),
    decreases s.len(),
{
    if s.len() > 0 {
        lemma_count_ts_bounds(s.drop_last(), u);
    }
}

/// The amounts of the details in `s` recorded at timestamp `u`, in order.
pub open spec fn details_amounts_for(
    s: Seq<(UnixTimestamp, TokensAmount)>,
    u: UnixTimestamp,
) -> Seq<TokensAmount>
    decreases s.len(),
{
    if s.len() == 0 {
        Seq::empty()
    } else {
        details_amounts_for(s.drop_last(), u) + (if s.last().0 == u {
            seq![s.last().1]
        } else {
            Seq::empty()
        })
    }
}

pub proof fn lemma_details_amounts_take_step(
    s: Seq<(UnixTimestamp, TokensAmount)>,
    u: UnixTimestamp,
    k: int,
)
    requires
        0 <= k < s.len(),
    ensures
        details_amounts_for(s.take(k + 1), u) == details_amounts_for(s.take(k), u) + (if s[k].0
            == u {
            seq![s[k].1]
        } else {
            Seq::<TokensAmount>::empty()
        }),
{
    assert(s.take(k + 1).drop_last() =~= s.take(k));
}

/// A rollback appends exactly `count_ts` amounts to the bucket at `u`.
pub proof fn lemma_details_amounts_len(s: Seq<(UnixTimestamp, TokensAmount)>, u: UnixTimestamp)
    ensures
        details_amounts_for(s, u).len() == count_ts(s, u),
    decreases s.len(),
{
    if s.len() > 0 {
        lemma_details_amounts_len(s.drop_last(), u);
    }
}

/// The length a bucket of `m` at `u` had, or zero if it did not exist.
pub open spec fn base_len(m: BucketMap, u: UnixTimestamp) -> int {
    if m.spec_has(u) {
        m.spec_bucket(u).amounts@.len() as int
    } else {
        0
    }
}

/// The references a rollback of `details` against the buckets `m0` appends:
/// one reference per detail, pointing at the freshly appended position of the
/// bucket at the detail's timestamp.
pub open spec fn rollback_refs(
    details: Seq<(UnixTimestamp, TokensAmount)>,
    m0: BucketMap,
) -> Seq<(UnixTimestamp, AccrualIndex)>
    decreases details.len(),
{
    if details.len() == 0 {
        Seq::empty()
    } else {
        rollback_refs(details.drop_last(), m0) + seq![
            (
                details.last().0,
                (base_len(m0, details.last().0) + count_ts(
                    details.drop_last(),
                    details.last().0,
                )) as AccrualIndex,
            ),
        ]
    }
}

pub proof fn lemma_rollback_refs_take_step(
    details: Seq<(UnixTimestamp, TokensAmount)>,
    m0: BucketMap,
    k: int,
)
    requires
        0 <= k < details.len(),
    ensures
        rollback_refs(details.take(k + 1), m0) == rollback_refs(details.take(k), m0) + seq![
            (
                details[k].0,
                (base_len(m0, details[k].0) + count_ts(details.take(k), details[k].0)) as AccrualIndex,
            ),
        ],
{
    assert(details.take(k + 1).drop_last() =~= details.take(k));
}

impl Contract {
    /// Sets the claim-period refresh timestamp of an existing account.
    pub(crate) fn account_set_refreshed(&mut self, account_id: &AccountId, ts: UnixTimestamp)
        requires
            old(self).wf(),
            old(self).spec_has_account(account_id@),
        ensures
            final(self).wf(),
            forall|id: Seq<char>|
                #[trigger] final(self).spec_has_account(id) == old(self).spec_has_account(id),
            forall|id: Seq<char>|
                id != account_id@ && old(self).spec_has_account(id) ==> #[trigger] final(
                self).spec_account(id) == old(self).spec_account(id),
            ({
                let r0 = old(self).spec_account(account_id@);
                let r1 = final(self).spec_account(account_id@);
                &&& r1.claim_period_refreshed_at == ts
                &&& r1.accruals == r0.accruals
                &&& r1.is_locked == r0.is_locked
                &&& r1.is_enabled == r0.is_enabled
            }),
            final(self).owner_id == old(self).owner_id,
            final(self).token_account_id == old(self).token_account_id,
            final(self).assets == old(self).assets,
            final(self).oracles == old(self).oracles,
            final(self).claim_period == old(self).claim_period,
            final(self).burn_period == old(self).burn_period,
            final(self).accruals == old(self).accruals,
            final(self).extra_accruals == old(self).extra_accruals,
            final(self).accounts_legacy == old(self).accounts_legacy,
            final(self).is_service_call_running == old(self).is_service_call_running,
            forall|n: UnixTimestamp|
                old(self).times_le(n) && ts <= n ==> #[trigger] final(self).times_le(n),
    {
        match self.find_account(account_id) {
            Some(j) => {
                proof {
                    old(self).lemma_account_entry(j as int);
                }
                match &mut self.accounts[j].1 {
                    AccountRecordVersioned::V1(rec) => {
                        rec.claim_period_refreshed_at = ts;
                    },
                }
                proof {
                    let s_old = old(self).accounts@;
                    let s_new = self.accounts@;
                    assert(s_new =~= s_old.update(j as int, (s_old[j as int].0, self.accounts@[j as int].1)));
                    assert forall|i: int, m: int| 0 <= i < m < s_new.len() implies (
                    #[trigger] s_new[i]).0@ != (#[trigger] s_new[m]).0@ by {
                        assert(s_new[i].0 == s_old[i].0 && s_new[m].0 == s_old[m].0);
                    };
                    assert forall|i: int, m: int|
                        0 <= i < s_new.len() && 0 <= m < self.accounts_legacy@.len() implies (
                    #[trigger] s_new[i]).0@ != (#[trigger] self.accounts_legacy@[m]).0@ by {
                        assert(s_new[i].0 == s_old[i].0);
                    };
                    assert forall|i: int| 0 <= i < s_new.len() implies (
                    #[trigger] s_new[i]).1.spec_record().wf() by {
                        if i != j {
                            assert(s_new[i] == s_old[i]);
                        }
                    };
                    self.lemma_account_entry(j as int);
                    assert forall|id: Seq<char>| #[trigger] final(self).spec_has_account(id) == old(
                        self).spec_has_account(id) by {
                        if self.spec_has_account(id) {
                            let i = self.spec_account_index_of(id);
                            assert(s_old[i].0@ == id);
                        }
                        if old(self).spec_has_account(id) {
                            let i = old(self).spec_account_index_of(id);
                            assert(s_new[i].0@ == id);
                        }
                    };
                    assert forall|id: Seq<char>|
                        id != account_id@ && old(self).spec_has_account(id) implies #[trigger] final(self)
                        .spec_account(id) == old(self).spec_account(id) by {
                        let i = old(self).spec_account_index_of(id);
                        assert(s_old[i].0@ == id);
                        assert(s_new[i] == s_old[i]);
                        self.lemma_account_entry(i);
                        old(self).lemma_account_entry(i);
                    };
                    assert forall|n: UnixTimestamp|
                        old(self).times_le(n) && ts <= n implies #[trigger] final(self).times_le(n) by {
                        assert(s_old[j as int].1.spec_record().times_le(n));
                        assert forall|i: int| 0 <= i < s_new.len() implies (
                        #[trigger] s_new[i]).1.spec_record().times_le(n) by {
                            if i != j {
                                assert(s_new[i] == s_old[i]);
                            }
                        };
                    };
                }
            },
            None => vstd::pervasive::unreached(),
        }
    }
}


impl Contract {
    /// Settles the callback of a claim's external transfer. On success the
    /// claim period is refreshed and the drained amounts stay settled; on
    /// failure every drained amount is re-appended to its bucket (recreating
    /// swept buckets if need be) and the participant receives fresh
    /// references to the restored entries.
    #[verifier::rlimit(100)]
    pub fn on_transfer(&mut self, req: TransferRequest, is_success: bool) -> (r: ClaimResultView)
        requires
            old(self).wf(),
            old(self).times_le(req.now),
            old(self).spec_has_account(req.account_id@),
            old(self).spec_registered(req.asset@),
            sum_details(req.details@) == req.total,
            forall|j: int| 0 <= j < req.details@.len() ==> (#[trigger] req.details@[j]).0 <= req.now,
            old(self).spec_buckets(req.asset@).map_total() + req.total <= u128::MAX,
            req.details@.len() <= u32::MAX,
            forall|u: UnixTimestamp|
                old(self).spec_buckets(req.asset@).spec_has(u) ==> #[trigger] old(
                self).spec_buckets(req.asset@).spec_bucket(u).amounts@.len() + req.details@.len()
                    <= u32::MAX,
        ensures
            final(self).wf(),
            final(self).times_le(req.now),
            r.asset == req.asset,
            r.success == is_success,
            forall|id: Seq<char>|
                #[trigger] final(self).spec_has_account(id) == old(self).spec_has_account(id),
            forall|id: Seq<char>|
                id != req.account_id@ && old(self).spec_has_account(id) ==> #[trigger] final(
                self).spec_account(id) == old(self).spec_account(id),
            forall|a: Seq<char>|
                #[trigger] final(self).spec_has_extra(a) == old(self).spec_has_extra(a),
            forall|a: Seq<char>|
                a != req.asset@ && old(self).spec_registered(a) ==> #[trigger] final(
                self).spec_buckets(a) == old(self).spec_buckets(a),
            !final(self).spec_account(req.account_id@).is_locked,
            final(self).spec_account(req.account_id@).is_enabled == old(self).spec_account(
                req.account_id@,
            ).is_enabled,
            is_success ==> ({
                let rec0 = old(self).spec_account(req.account_id@);
                let rec1 = final(self).spec_account(req.account_id@);
                &&& final(self).accruals == old(self).accruals
                &&& final(self).extra_accruals == old(self).extra_accruals
                &&& rec1.accruals == rec0.accruals
                &&& rec1.claim_period_refreshed_at == req.now
                &&& r.total.0 == req.total
            }),
            !is_success ==> ({
                let t = req.asset@;
                let m0 = old(self).spec_buckets(t);
                let m1 = final(self).spec_buckets(t);
                let rec0 = old(self).spec_account(req.account_id@);
                let rec1 = final(self).spec_account(req.account_id@);
                &&& r.total.0 == 0
                &&& rec1.claim_period_refreshed_at == rec0.claim_period_refreshed_at
                &&& forall|u: UnixTimestamp|
                    #[trigger] m1.spec_has(u) == (m0.spec_has(u) || count_ts(req.details@, u) > 0)
                &&& forall|u: UnixTimestamp|
                    m0.spec_has(u) || count_ts(req.details@, u) > 0 ==> #[trigger] m1.spec_bucket(
                        u,
                    ).amounts@ =~= (if m0.spec_has(u) {
                        m0.spec_bucket(u).amounts@
                    } else {
                        Seq::<TokensAmount>::empty()
                    }) + details_amounts_for(req.details@, u)
                &&& forall|u: UnixTimestamp|
                    m0.spec_has(u) && count_ts(req.details@, u) == 0 ==> #[trigger] m1.spec_bucket(
                        u,
                    ) == m0.spec_bucket(u)
                &&& m1.map_total() == m0.map_total() + req.total
                &&& rec1.spec_refs(t) == rec0.spec_refs(t) + rollback_refs(req.details@, m0)
                &&& forall|a: Seq<char>|
                    a != t ==> #[trigger] rec1.spec_refs(a) == rec0.spec_refs(a)
            }),
            final(self).owner_id == old(self).owner_id,
            final(self).token_account_id == old(self).token_account_id,
            final(self).assets == old(self).assets,
            final(self).oracles == old(self).oracles,
            final(self).claim_period == old(self).claim_period,
            final(self).burn_period == old(self).burn_period,
            final(self).accounts_legacy == old(self).accounts_legacy,
            final(self).is_service_call_running == old(self).is_service_call_running,
    {
        let ghost t = req.asset@;
        let ghost m0 = old(self).spec_buckets(t);
        let ghost rec0 = old(self).spec_account(req.account_id@);
        self.account_set_locked(&req.account_id, false);
        let ghost s0 = *self;
        proof {
            Contract::lemma_buckets_transport(*old(self), s0);
            assert(s0.spec_has_account(req.account_id@));
            let gi = s0.spec_account_index_of(req.account_id@);
            assert(s0.accounts@[gi].0@ == req.account_id@);
            assert(s0.accounts@[gi].1.spec_record().wf());
            crate::account::AccountRecord::lemma_refs_transport(
                rec0,
                s0.spec_account(req.account_id@),
            );
        }
        if is_success {
            self.account_set_refreshed(&req.account_id, req.now);
            proof {
                Contract::lemma_buckets_transport(s0, *self);
                crate::account::AccountRecord::lemma_refs_transport(
                    s0.spec_account(req.account_id@),
                    self.spec_account(req.account_id@),
                );
            }
            ClaimResultView::new(req.asset, true, req.total)
        } else {
            let dn = req.details.len();
            let mut k: usize = 0;
            proof {
                assert(req.details@.take(0) =~= Seq::<(UnixTimestamp, TokensAmount)>::empty());
                m0.lemma_map_total_nonneg();
                assert forall|u: UnixTimestamp|
                    count_ts(req.details@.take(0), u) == 0 && details_amounts_for(
                        req.details@.take(0),
                        u,
                    ) =~= Seq::<TokensAmount>::empty() && rollback_refs(req.details@.take(0), m0)
                        =~= Seq::<(UnixTimestamp, AccrualIndex)>::empty() by {};
            }
            while k < dn
                invariant
                    old(self).wf(),
                    old(self).times_le(req.now),
                    self.wf(),
                    self.times_le(req.now),
                    dn == req.details@.len(),
                    k <= dn,
                    dn <= u32::MAX,
                    sum_details(req.details@) == req.total,
                    forall|j: int|
                        0 <= j < dn ==> (#[trigger] req.details@[j]).0 <= req.now,
                    old(self).spec_registered(t),
                    self.spec_registered(t),
                    t == req.asset@,
                    m0 == old(self).spec_buckets(t),
                    m0.map_total() + req.total <= u128::MAX,
                    forall|u: UnixTimestamp|
                        m0.spec_has(u) ==> #[trigger] m0.spec_bucket(u).amounts@.len() + dn
                            <= u32::MAX,
                    self.spec_has_account(req.account_id@),
                    forall|id: Seq<char>|
                        #[trigger] self.spec_has_account(id) == old(self).spec_has_account(id),
                    forall|id: Seq<char>|
                        id != req.account_id@ && old(self).spec_has_account(id) ==> #[trigger] self
                            .spec_account(id) == old(self).spec_account(id),
                    forall|a: Seq<char>|
                        #[trigger] self.spec_has_extra(a) == old(self).spec_has_extra(a),
                    forall|a: Seq<char>|
                        a != t && old(self).spec_registered(a) ==> #[trigger] self.spec_buckets(a)
                            == old(self).spec_buckets(a),
                    forall|u: UnixTimestamp|
                        #[trigger] self.spec_buckets(t).spec_has(u) == (m0.spec_has(u) || count_ts(
                            req.details@.take(k as int),
                            u,
                        ) > 0),
                    forall|u: UnixTimestamp|
                        m0.spec_has(u) || count_ts(req.details@.take(k as int), u) > 0
                            ==> #[trigger] self.spec_buckets(t).spec_bucket(u).amounts@ =~= (if m0.spec_has(
                            u,
                        ) {
                            m0.spec_bucket(u).amounts@
                        } else {
                            Seq::<TokensAmount>::empty()
                        }) + details_amounts_for(req.details@.take(k as int), u),
                    forall|u: UnixTimestamp|
                        m0.spec_has(u) && count_ts(req.details@.take(k as int), u) == 0
                            ==> #[trigger] self.spec_buckets(t).spec_bucket(u) == m0.spec_bucket(u),
                    self.spec_buckets(t).map_total() == m0.map_total() + sum_details(
                        req.details@.take(k as int),
                    ),
                    ({
                        let rc = self.spec_account(req.account_id@);
                        &&& rc.spec_refs(t) == s0.spec_account(req.account_id@).spec_refs(t)
                            + rollback_refs(req.details@.take(k as int), m0)
                        &&& forall|a: Seq<char>|
                            a != t ==> #[trigger] rc.spec_refs(a) == s0.spec_account(
                                req.account_id@,
                            ).spec_refs(a)
                        &&& rc.claim_period_refreshed_at == s0.spec_account(
                            req.account_id@,
                        ).claim_period_refreshed_at
                        &&& rc.is_locked == s0.spec_account(req.account_id@).is_locked
                        &&& rc.is_enabled == s0.spec_account(req.account_id@).is_enabled
                    }),
                    self.owner_id == old(self).owner_id,
                    self.token_account_id == old(self).token_account_id,
                    self.assets == old(self).assets,
                    self.oracles == old(self).oracles,
                    self.claim_period == old(self).claim_period,
                    self.burn_period == old(self).burn_period,
                    self.accounts_legacy == old(self).accounts_legacy,
                    self.is_service_call_running == old(self).is_service_call_running,
                decreases dn - k,
            {
                let ghost pre = *self;
                let (ts, amount) = req.details[k];
                let ghost take0 = req.details@.take(k as int);
                let ghost take1 = req.details@.take(k as int + 1);
                proof {
                    crate::sum::lemma_sum_details_take_step(req.details@, k as int);
                    crate::sum::lemma_sum_details_prefix_le(req.details@, k as int + 1);
                    lemma_count_ts_bounds(take0, ts);
                    lemma_count_ts_take_step(req.details@, ts, k as int);
                    lemma_details_amounts_len(take0, ts);
                    // headroom for this push
                    if pre.spec_buckets(t).spec_has(ts) {
                        let mj = pre.spec_buckets(t).spec_index_of(ts);
                        crate::buckets::BucketMap::lemma_total_bounds_entry(
                            pre.spec_buckets(t).entries@,
                            mj,
                        );
                        crate::sum::lemma_sum_details_nonneg(take0);
                        pre.spec_buckets(t).lemma_map_total_nonneg();
                        lemma_count_ts_bounds(req.details@, ts);
                        assert(pre.spec_buckets(t).spec_bucket(ts).amounts@.len() == base_len(
                            m0,
                            ts,
                        ) + count_ts(take0, ts));
                        assert(pre.spec_buckets(t).spec_bucket(ts).amounts@.len() < u32::MAX);
                    }
                }
                let idx = self.push_bucket_amount(&req.asset, ts, amount);
                let ghost s2 = *self;
                proof {
                    Contract::lemma_accounts_transport(pre, s2);
                    assert(idx == base_len(m0, ts) + count_ts(take0, ts));
                }
                self.account_push_ref(&req.account_id, &req.asset, (ts, idx));
                proof {
                    Contract::lemma_buckets_transport(s2, *self);
                    lemma_rollback_refs_take_step(req.details@, m0, k as int);
                    assert(self.spec_account(req.account_id@).spec_refs(t) == s2.spec_account(
                        req.account_id@,
                    ).spec_refs(t).push((ts, idx)));
                    assert(s0.spec_account(req.account_id@).spec_refs(t) + rollback_refs(
                        take1,
                        m0,
                    ) =~= (s0.spec_account(req.account_id@).spec_refs(t) + rollback_refs(
                        take0,
                        m0,
                    )).push((ts, idx)));
                    assert forall|u: UnixTimestamp|
                        #[trigger] self.spec_buckets(t).spec_has(u) == (m0.spec_has(u) || count_ts(
                            take1,
                            u,
                        ) > 0) by {
                        lemma_count_ts_take_step(req.details@, u, k as int);
                        lemma_count_ts_bounds(take0, u);
                    };
                    assert forall|u: UnixTimestamp|
                        m0.spec_has(u) || count_ts(take1, u) > 0 implies #[trigger] self.spec_buckets(
                        t,
                    ).spec_bucket(u).amounts@ =~= (if m0.spec_has(u) {
                        m0.spec_bucket(u).amounts@
                    } else {
                        Seq::<TokensAmount>::empty()
                    }) + details_amounts_for(take1, u) by {
                        lemma_count_ts_take_step(req.details@, u, k as int);
                        lemma_details_amounts_take_step(req.details@, u, k as int);
                        lemma_count_ts_bounds(take0, u);
                        if u == ts {
                            assert(s2.spec_buckets(t).spec_bucket(u).amounts@ == (if pre.spec_buckets(
                                t,
                            ).spec_has(u) {
                                pre.spec_buckets(t).spec_bucket(u).amounts@
                            } else {
                                Seq::<TokensAmount>::empty()
                            }).push(amount));
                        } else {
                            if m0.spec_has(u) || count_ts(take0, u) > 0 {
                                assert(s2.spec_buckets(t).spec_bucket(u) == pre.spec_buckets(
                                    t,
                                ).spec_bucket(u));
                            }
                        }
                    };
                    assert forall|u: UnixTimestamp|
                        m0.spec_has(u) && count_ts(take1, u) == 0 implies #[trigger] self.spec_buckets(
                        t,
                    ).spec_bucket(u) == m0.spec_bucket(u) by {
                        lemma_count_ts_take_step(req.details@, u, k as int);
                        lemma_count_ts_bounds(take0, u);
                        assert(u != ts);
                        assert(s2.spec_buckets(t).spec_bucket(u) == pre.spec_buckets(
                            t,
                        ).spec_bucket(u));
                    };
                }
                k = k + 1;
            }
            proof {
                assert(req.details@.take(dn as int) =~= req.details@);
            }
            ClaimResultView::new(req.asset, false, 0)
        }
    }
}


/// How many references in `refs` are still within the burn period at `now`.
pub open spec fn count_claimable(
    refs: Seq<(UnixTimestamp, AccrualIndex)>,
    now: UnixTimestamp,
    period: Duration,
) -> int
    decreases refs.len(),
{
    if refs.len() == 0 {
        0
    } else {
        count_claimable(refs.drop_last(), now, period) + (if spec_is_within_period(
            refs.last().0,
            now,
            period,
        ) {
            1int
        } else {
            0int
        })
    }
}

pub proof fn lemma_count_claimable_take_step(
    refs: Seq<(UnixTimestamp, AccrualIndex)>,
    now: UnixTimestamp,
    period: Duration,
    k: int,
)
    requires
        0 <= k < refs.len(),
    ensures
        count_claimable(refs.take(k + 1), now, period) == count_claimable(refs.take(k), now, period)
            + (if spec_is_within_period(refs[k].0, now, period) {
            1int
        } else {
            0int
        }),
{
    assert(refs.take(k + 1).drop_last() =~= refs.take(k));
}

pub proof fn lemma_count_claimable_bounds(
    refs: Seq<(UnixTimestamp, AccrualIndex)>,
    now: UnixTimestamp,
    period: Duration,
)
    ensures
        0 <= count_claimable(refs, now, period) <= refs.len(),
    decreases refs.len(),
{
    if refs.len() > 0 {
        lemma_count_claimable_bounds(refs.drop_last(), now, period);
    }
}

/// A prefix of the claimable sum never exceeds the whole.
pub proof fn lemma_claimable_prefix_le(
    refs: Seq<(UnixTimestamp, AccrualIndex)>,
    m: BucketMap,
    now: UnixTimestamp,
    period: Duration,
    k: int,
)
    requires
        0 <= k <= refs.len(),
    ensures
        claimable_from(refs.take(k), m, now, period) <= claimable_from(refs, m, now, period),
    decreases refs.len() - k,
{
    if k == refs.len() {
        assert(refs.take(k) =~= refs);
    } else {
        lemma_claimable_take_step(refs, m, now, period, k);
        lemma_claimable_prefix_le(refs, m, now, period, k + 1);
    }
}

impl Contract {
    /// The total `account_id` could claim of the given asset right now:
    /// the sum of the amounts its references resolve to, with entries older
    /// than the burn period excluded.
    pub fn get_claimable_balance_for_account(
        &self,
        account_id: &AccountId,
        now: UnixTimestamp,
        asset: Option<Asset>,
    ) -> (r: crate::types::U128)
        requires
            self.wf(),
            self.times_le(now),
            self.claimable(account_id@, spec_target_asset(asset), now) <= u128::MAX,
        ensures
            r.0 == self.claimable(account_id@, spec_target_asset(asset), now),
    {
        let ghost t = spec_target_asset(asset);
        let def = default_asset();
        let target: Asset = match asset {
            Some(a) => a,
            None => def,
        };
        let j = match self.find_account(account_id) {
            None => {
                return crate::types::U128(0);
            },
            Some(j) => j,
        };
        proof {
            self.lemma_account_entry(j as int);
        }
        let rec = match &self.accounts[j].1 {
            AccountRecordVersioned::V1(rec) => rec,
        };
        let m: &BucketMap = if asset_eq(&target, &default_asset()) {
            &self.accruals
        } else {
            match self.find_extra(&target) {
                Some(je) => {
                    proof {
                        self.lemma_extra_entry(je as int);
                    }
                    &self.extra_accruals[je].1
                },
                None => {
                    return crate::types::U128(0);
                },
            }
        };
        proof {
            assert(*m == self.spec_buckets(t));
        }
        let ja = match rec.find_asset(&target) {
            None => {
                proof {
                    assert(rec.spec_refs(t) =~= Seq::<(UnixTimestamp, AccrualIndex)>::empty());
                }
                return crate::types::U128(0);
            },
            Some(ja) => ja,
        };
        proof {
            rec.lemma_entry(ja as int);
        }
        let refs = &rec.accruals[ja].1;
        let ghost refs_seq = rec.spec_refs(t);
        let rn = refs.len();
        let mut total: TokensAmount = 0;
        let mut k: usize = 0;
        proof {
            assert(refs_seq.take(0) =~= Seq::<(UnixTimestamp, AccrualIndex)>::empty());
            assert(self.accounts@[j as int].1.spec_record().times_le(now));
        }
        while k < rn
            invariant
                self.wf(),
                rn == refs@.len(),
                refs@ == refs_seq,
                k <= rn,
                *m == self.spec_buckets(t),
                m.wf(),
                self.spec_registered(t),
                self.spec_has_account(account_id@),
                refs_seq == self.spec_account(account_id@).spec_refs(t),
                self.claimable(account_id@, t, now) <= u128::MAX,
                self.claimable(account_id@, t, now) == claimable_from(
                    refs_seq,
                    *m,
                    now,
                    self.burn_period,
                ),
                forall|i: int| 0 <= i < rn ==> (#[trigger] refs@[i]).0 <= now,
                total == claimable_from(refs_seq.take(k as int), *m, now, self.burn_period),
            decreases rn - k,
        {
            let (ts, idx) = refs[k];
            proof {
                lemma_claimable_take_step(refs_seq, *m, now, self.burn_period, k as int);
                lemma_claimable_prefix_le(refs_seq, *m, now, self.burn_period, k as int + 1);
                crate::buckets::lemma_claimable_nonneg(refs_seq, *m, now, self.burn_period);
            }
            if is_within_period(ts, now, self.burn_period) {
                match m.amount_of(ts, idx) {
                    Some(a) => {
                        total = total + a;
                    },
                    None => {},
                }
            }
            k = k + 1;
        }
        proof {
            assert(refs_seq.take(rn as int) =~= refs_seq);
        }
        crate::types::U128(total)
    }

    /// Whether `account_id` may claim at `now`. `Available` carries the
    /// number of default-asset references that are still young enough to
    /// claim; `Unavailable` carries the last refresh and the configured claim
    /// period.
    pub fn is_claim_available(&self, account_id: &AccountId, now: UnixTimestamp) -> (r:
        crate::types::ClaimAvailabilityView)
        requires
            self.wf(),
            self.times_le(now),
        ensures
            !self.spec_has_account(account_id@) ==> r
                == crate::types::ClaimAvailabilityView::Unregistered,
            self.spec_has_account(account_id@) && !self.spec_claim_available(account_id@, now)
                ==> r == crate::types::ClaimAvailabilityView::Unavailable(
                self.spec_account(account_id@).claim_period_refreshed_at,
                self.claim_period,
            ),
            self.spec_claim_available(account_id@, now) ==> r
                == crate::types::ClaimAvailabilityView::Available(
                count_claimable(
                    self.spec_account(account_id@).spec_refs(spec_default_asset()),
                    now,
                    self.burn_period,
                ) as usize,
            ),
    {
        let j = match self.find_account(account_id) {
            None => {
                return crate::types::ClaimAvailabilityView::Unregistered;
            },
            Some(j) => j,
        };
        proof {
            self.lemma_account_entry(j as int);
            assert(self.accounts@[j as int].1.spec_record().times_le(now));
        }
        let rec = match &self.accounts[j].1 {
            AccountRecordVersioned::V1(rec) => rec,
        };
        let refreshed = rec.claim_period_refreshed_at;
        if !(now - refreshed > self.claim_period) {
            return crate::types::ClaimAvailabilityView::Unavailable(refreshed, self.claim_period);
        }
        let ghost t = spec_default_asset();
        let ja = match rec.find_asset(&default_asset()) {
            None => {
                proof {
                    assert(rec.spec_refs(t) =~= Seq::<(UnixTimestamp, AccrualIndex)>::empty());
                }
                return crate::types::ClaimAvailabilityView::Available(0);
            },
            Some(ja) => ja,
        };
        proof {
            rec.lemma_entry(ja as int);
        }
        let refs = &rec.accruals[ja].1;
        let ghost refs_seq = rec.spec_refs(t);
        let rn = refs.len();
        let mut count: usize = 0;
        let mut k: usize = 0;
        proof {
            assert(refs_seq.take(0) =~= Seq::<(UnixTimestamp, AccrualIndex)>::empty());
        }
        while k < rn
            invariant
                rn == refs@.len(),
                refs@ == refs_seq,
                k <= rn,
                count == count_claimable(refs_seq.take(k as int), now, self.burn_period),
                count <= k,
                forall|i: int| 0 <= i < rn ==> (#[trigger] refs@[i]).0 <= now,
            decreases rn - k,
        {
            proof {
                lemma_count_claimable_take_step(refs_seq, now, self.burn_period, k as int);
            }
            let (ts, _idx) = refs[k];
            if is_within_period(ts, now, self.burn_period) {
                count = count + 1;
            }
            k = k + 1;
        }
        proof {
            assert(refs_seq.take(rn as int) =~= refs_seq);
        }
        crate::types::ClaimAvailabilityView::Available(count)
    }
}

} // verus!
