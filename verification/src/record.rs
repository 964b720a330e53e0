use vstd::prelude::*;

use crate::Contract;
use crate::account::{AccountRecord, AccountRecordVersioned};
use crate::types::{
    AccountId, AccrualIndex, Asset, ContractError, TokensAmount, U128, UnixTimestamp, asset_eq,
    default_asset,
    spec_default_asset,
};

verus! {

/// The asset a call with an optional asset argument addresses.
pub open spec fn spec_target_asset(asset: Option<Asset>) -> Seq<char> {
    match asset {
        Some(a) => a@,
        None => spec_default_asset(),
    }
}

/// Sum of the amounts of a recording batch.
pub open spec fn sum_batch(s: Seq<(AccountId, U128)>) -> int
    decreases s.len(),
{
    if s.len() == 0 {
        0
    } else {
        sum_batch(s.drop_last()) + s.last().1.0
    }
}

pub proof fn lemma_sum_batch_nonneg(s: Seq<(AccountId, U128)>)
    ensures
        sum_batch(s) >= 0,
    decreases s.len(),
{
    if s.len() > 0 {
        lemma_sum_batch_nonneg(s.drop_last());
    }
}

pub proof fn lemma_sum_batch_take_step(s: Seq<(AccountId, U128)>, k: int)
    requires
        0 <= k < s.len(),
    ensures
        sum_batch(s.take(k + 1)) == sum_batch(s.take(k)) + s[k].1.0,
{
    assert(s.take(k + 1).drop_last() =~= s.take(k));
}

/// A prefix sum never exceeds the sum of the whole batch.
pub proof fn lemma_sum_batch_prefix_le(s: Seq<(AccountId, U128)>, k: int)
    requires
        0 <= k <= s.len(),
    ensures
        sum_batch(s.take(k)) <= sum_batch(s),
    decreases s.len() - k,
{
    if k == s.len() {
        assert(s.take(k) =~= s);
    } else {
        lemma_sum_batch_take_step(s, k);
        lemma_sum_batch_prefix_le(s, k + 1);
    }
}

/// Whether the batch names the account `id`.
pub open spec fn batch_contains(s: Seq<(AccountId, U128)>, id: Seq<char>) -> bool {
    exists|i: int| 0 <= i < s.len() && (#[trigger] s[i]).0@ == id
}

pub proof fn lemma_batch_contains_take_step(s: Seq<(AccountId, U128)>, k: int, id: Seq<char>)
    requires
        0 <= k < s.len(),
    ensures
        batch_contains(s.take(k + 1), id) == (batch_contains(s.take(k), id) || s[k].0@ == id),
{
    if batch_contains(s.take(k + 1), id) {
        let i = choose|i: int| 0 <= i < s.take(k + 1).len() && (#[trigger] s.take(k + 1)[i]).0@ == id;
        if i < k {
            assert(s.take(k)[i].0@ == id);
        } else {
            assert(s[k].0@ == id);
        }
    }
    if batch_contains(s.take(k), id) {
        let i = choose|i: int| 0 <= i < s.take(k).len() && (#[trigger] s.take(k)[i]).0@ == id;
        assert(s.take(k + 1)[i].0@ == id);
    }
    if s[k].0@ == id {
        assert(s.take(k + 1)[k].0@ == id);
    }
}

/// The references a recording batch appends for account `id`: one reference
/// per batch entry of that account, pointing at the bucket position the
/// entry's amount was stored at. `base` is the length of the bucket before
/// the batch.
pub open spec fn appended_refs(
    batch: Seq<(AccountId, U128)>,
    id: Seq<char>,
    now: UnixTimestamp,
    base: int,
) -> Seq<(UnixTimestamp, AccrualIndex)>
    decreases batch.len(),
{
    if batch.len() == 0 {
        Seq::empty()
    } else {
        appended_refs(batch.drop_last(), id, now, base) + (if batch.last().0@ == id {
            seq![(now, (base + batch.len() - 1) as AccrualIndex)]
        } else {
            Seq::empty()
        })
    }
}

pub proof fn lemma_appended_refs_take_step(
    batch: Seq<(AccountId, U128)>,
    id: Seq<char>,
    now: UnixTimestamp,
    base: int,
    k: int,
)
    requires
        0 <= k < batch.len(),
    ensures
        appended_refs(batch.take(k + 1), id, now, base) == appended_refs(
            batch.take(k),
            id,
            now,
            base,
        ) + (if batch[k].0@ == id {
            seq![(now, (base + k) as AccrualIndex)]
        } else {
            Seq::<(UnixTimestamp, AccrualIndex)>::empty()
        }),
{
    assert(batch.take(k + 1).drop_last() =~= batch.take(k));
}

/// A batch that does not name `id` appends nothing for it.
pub proof fn lemma_appended_refs_absent(
    batch: Seq<(AccountId, U128)>,
    id: Seq<char>,
    now: UnixTimestamp,
    base: int,
)
    requires
        !batch_contains(batch, id),
    ensures
        appended_refs(batch, id, now, base) =~= Seq::<(UnixTimestamp, AccrualIndex)>::empty(),
    decreases batch.len(),
{
    if batch.len() > 0 {
        assert(!batch_contains(batch.drop_last(), id)) by {
            if batch_contains(batch.drop_last(), id) {
                let i = choose|i: int|
                    0 <= i < batch.drop_last().len() && (#[trigger] batch.drop_last()[i]).0@ == id;
                assert(batch[i].0@ == id);
            }
        };
        assert(batch.last().0@ != id) by {
            if batch.last().0@ == id {
                assert(batch[batch.len() - 1].0@ == id);
            }
        };
        lemma_appended_refs_absent(batch.drop_last(), id, now, base);
    }
}

/// The amounts of a recording batch, in batch order.
pub open spec fn batch_amounts(s: Seq<(AccountId, U128)>) -> Seq<TokensAmount> {
    Seq::new(s.len(), |i: int| s[i].1.0)
}


/// The sum of a batch's amounts, or nothing if it exceeds the amount range.
/// Incoming token transfers are checked against this total before they are
/// recorded.
pub fn batch_total(amounts: &Vec<(AccountId, U128)>) -> (r: Option<u128>)
    ensures
        match r {
            Some(s) => s == sum_batch(amounts@),
            None => sum_batch(amounts@) > u128::MAX,
        },
{
    let n = amounts.len();
    let mut total: u128 = 0;
    let mut k: usize = 0;
    proof {
        assert(amounts@.take(0) =~= Seq::<(AccountId, U128)>::empty());
    }
    while k < n
        invariant
            n == amounts@.len(),
            k <= n,
            total == sum_batch(amounts@.take(k as int)),
        decreases n - k,
    {
        let amount = amounts[k].1.0;
        proof {
            lemma_sum_batch_take_step(amounts@, k as int);
        }
        if amount > u128::MAX - total {
            proof {
                lemma_sum_batch_prefix_le(amounts@, k as int + 1);
            }
            return None;
        }
        total = total + amount;
        k = k + 1;
    }
    proof {
        assert(amounts@.take(n as int) =~= amounts@);
    }
    Some(total)
}

/// The references account `id` held for `asset` before an operation, seen
/// through the lazy migration: a record in the current store provides its own
/// list, a legacy record provides its single list for the default asset.
pub open spec fn pre_refs(c: Contract, id: Seq<char>, asset: Seq<char>) -> Seq<(
    UnixTimestamp,
    AccrualIndex,
)> {
    if c.spec_has_account(id) {
        c.spec_account(id).spec_refs(asset)
    } else if c.spec_has_legacy(id) {
        if asset == spec_default_asset() {
            c.spec_legacy(id).accruals@
        } else {
            Seq::empty()
        }
    } else {
        Seq::empty()
    }
}

/// The claim-period refresh timestamp account `id` would carry after its
/// record is touched at `now`: an existing record keeps its own, a legacy
/// record keeps the migrated one, a fresh record starts at `now`.
pub open spec fn pre_refreshed(c: Contract, id: Seq<char>, now: UnixTimestamp) -> UnixTimestamp {
    if c.spec_has_account(id) {
        c.spec_account(id).claim_period_refreshed_at
    } else if c.spec_has_legacy(id) {
        c.spec_legacy(id).claim_period_refreshed_at
    } else {
        now
    }
}

impl Contract {
    /// Upgrades the record of `account_id` from the legacy store into the
    /// current one, if a legacy record exists. Any other account is untouched.
    pub fn migrate_record_if_needed(&mut self, account_id: &AccountId)
        requires
            old(self).wf(),
        ensures
            final(self).wf(),
            !final(self).spec_has_legacy(account_id@),
            old(self).spec_has_legacy(account_id@) ==> {
                &&& final(self).spec_has_account(account_id@)
                &&& final(self).spec_account(account_id@).spec_refs(spec_default_asset()) == old(
                    self,
                ).spec_legacy(account_id@).accruals@
                &&& forall|a: Seq<char>|
                    a != spec_default_asset() ==> #[trigger] final(self).spec_account(
                        account_id@,
                    ).spec_refs(a) =~= Seq::<(UnixTimestamp, AccrualIndex)>::empty()
                &&& final(self).spec_account(account_id@).claim_period_refreshed_at == old(
                    self,
                ).spec_legacy(account_id@).claim_period_refreshed_at
                &&& final(self).spec_account(account_id@).is_locked == old(self).spec_legacy(
                    account_id@,
                ).is_locked
            },
            !old(self).spec_has_legacy(account_id@) ==> *final(self) == *old(self),
            forall|id: Seq<char>|
                id != account_id@ ==> #[trigger] final(self).spec_has_account(id) == old(
                self).spec_has_account(id) && final(self).spec_has_legacy(id) == old(
                self).spec_has_legacy(id),
            forall|id: Seq<char>|
                id != account_id@ && old(self).spec_has_account(id) ==> #[trigger] final(
                self).spec_account(id) == old(self).spec_account(id),
            forall|id: Seq<char>|
                id != account_id@ && old(self).spec_has_legacy(id) ==> #[trigger] final(
                self).spec_legacy(id) == old(self).spec_legacy(id),
            final(self).spec_has_account(account_id@) == (old(self).spec_has_account(account_id@)
                || old(self).spec_has_legacy(account_id@)),
            old(self).spec_has_account(account_id@) ==> final(self).spec_account(account_id@)
                == old(self).spec_account(account_id@),
            final(self).owner_id == old(self).owner_id,
            final(self).token_account_id == old(self).token_account_id,
            final(self).assets == old(self).assets,
            final(self).oracles == old(self).oracles,
            final(self).claim_period == old(self).claim_period,
            final(self).burn_period == old(self).burn_period,
            final(self).accruals == old(self).accruals,
            final(self).extra_accruals == old(self).extra_accruals,
            final(self).is_service_call_running == old(self).is_service_call_running,
            forall|n: UnixTimestamp|
                old(self).times_le(n) ==> #[trigger] final(self).times_le(n),
    {
        match self.find_legacy(account_id) {
            None => {},
            Some(k) => {
                proof {
                    old(self).lemma_legacy_entry(k as int);
                }
                let entry = self.accounts_legacy.remove(k);
                let ghost mid = *self;
                proof {
                    let s_old = old(self).accounts_legacy@;
                    let s_new = self.accounts_legacy@;
                    assert(s_new =~= s_old.remove(k as int));
                    assert forall|i: int, m: int| 0 <= i < m < s_new.len() implies (
                    #[trigger] s_new[i]).0@ != (#[trigger] s_new[m]).0@ by {
                        let i0: int = if i < k { i } else { i + 1 };
                        let m0: int = if m < k { m } else { m + 1 };
                        assert(s_new[i] == s_old[i0] && s_new[m] == s_old[m0]);
                    };
                    assert forall|i: int, m: int|
                        0 <= i < self.accounts@.len() && 0 <= m < s_new.len() implies (
                    #[trigger] self.accounts@[i]).0@ != (#[trigger] s_new[m]).0@ by {
                        let m0: int = if m < k { m } else { m + 1 };
                        assert(s_new[m] == s_old[m0]);
                    };
                    assert(mid.wf());
                    assert(!mid.spec_has_legacy(account_id@)) by {
                        if mid.spec_has_legacy(account_id@) {
                            let i = mid.spec_legacy_index_of(account_id@);
                            let i0: int = if i < k { i } else { i + 1 };
                            assert(s_old[i0].0@ == account_id@);
                            old(self).lemma_legacy_entry(i0);
                        }
                    };
                    assert forall|id: Seq<char>| id != account_id@ implies #[trigger] mid.spec_has_legacy(
                        id,
                    ) == old(self).spec_has_legacy(id) by {
                        if mid.spec_has_legacy(id) {
                            let i = mid.spec_legacy_index_of(id);
                            let i0: int = if i < k { i } else { i + 1 };
                            assert(s_old[i0].0@ == id);
                        }
                        if old(self).spec_has_legacy(id) {
                            let i0 = old(self).spec_legacy_index_of(id);
                            assert(s_old[i0].0@ == id);
                            let i: int = if i0 < k { i0 } else { i0 - 1 };
                            assert(s_new[i].0@ == id);
                        }
                    };
                    assert forall|id: Seq<char>|
                        id != account_id@ && old(self).spec_has_legacy(id) implies #[trigger] mid
                        .spec_legacy(id) == old(self).spec_legacy(id) by {
                        let i0 = old(self).spec_legacy_index_of(id);
                        assert(s_old[i0].0@ == id);
                        let i: int = if i0 < k { i0 } else { i0 - 1 };
                        assert(s_new[i] == s_old[i0]);
                        mid.lemma_legacy_entry(i);
                        old(self).lemma_legacy_entry(i0);
                    };
                }
                let record = entry.1.into_record();
                let versioned = record.into_versioned();
                self.accounts.push((entry.0, versioned));
                proof {
                    let s_old = mid.accounts@;
                    let s_new = self.accounts@;
                    let j = s_new.len() - 1;
                    assert(s_new.drop_last() =~= s_old);
                    assert(s_new[j].0@ == account_id@);
                    assert(!mid.spec_has_account(account_id@)) by {
                        if mid.spec_has_account(account_id@) {
                            let i = mid.spec_account_index_of(account_id@);
                            assert(old(self).accounts@[i].0@ == account_id@);
                            assert(old(self).accounts_legacy@[k as int].0@ == account_id@);
                        }
                    };
                    assert forall|i: int, m: int| 0 <= i < m < s_new.len() implies (
                    #[trigger] s_new[i]).0@ != (#[trigger] s_new[m]).0@ by {
                        if m < j {
                            assert(s_new[i] == s_old[i] && s_new[m] == s_old[m]);
                        } else {
                            assert(s_new[i] == s_old[i]);
                        }
                    };
                    assert forall|i: int, m: int|
                        0 <= i < s_new.len() && 0 <= m < self.accounts_legacy@.len() implies (
                    #[trigger] s_new[i]).0@ != (#[trigger] self.accounts_legacy@[m]).0@ by {
                        if i < j {
                            assert(s_new[i] == s_old[i]);
                        } else {
                            assert(!mid.spec_has_legacy(account_id@));
                            if s_new[i].0@ == self.accounts_legacy@[m].0@ {
                                assert(mid.spec_has_legacy(account_id@));
                            }
                        }
                    };
                    assert forall|i: int| 0 <= i < s_new.len() implies (
                    #[trigger] s_new[i]).1.spec_record().wf() by {
                        if i < j {
                            assert(s_new[i] == s_old[i]);
                        }
                    };
                    self.lemma_account_entry(j);
                    assert forall|id: Seq<char>| id != account_id@ implies #[trigger] final(self)
                        .spec_has_account(id) == old(self).spec_has_account(id) by {
                        if self.spec_has_account(id) {
                            let i = self.spec_account_index_of(id);
                            if i != j {
                                assert(s_old[i].0@ == id);
                            }
                        }
                        if old(self).spec_has_account(id) {
                            let i = old(self).spec_account_index_of(id);
                            assert(s_new[i].0@ == id);
                        }
                    };
                    assert forall|id: Seq<char>|
                        id != account_id@ && old(self).spec_has_account(id) implies #[trigger] final(self)
                        .spec_account(id) == old(self).spec_account(id) by {
                        let i = old(self).spec_account_index_of(id);
                        assert(s_old[i].0@ == id);
                        assert(s_new[i] == s_old[i]);
                        self.lemma_account_entry(i);
                        mid.lemma_account_entry(i);
                    };
                    Contract::lemma_legacy_transport(mid, *self);
                    assert forall|n: UnixTimestamp| old(self).times_le(n) implies #[trigger] final(self)
                        .times_le(n) by {
                        assert(old(self).accounts_legacy@[k as int].1.times_le(n));
                        assert(record.times_le(n));
                        assert forall|i: int| 0 <= i < s_new.len() implies (
                        #[trigger] s_new[i]).1.spec_record().times_le(n) by {
                            if i < j {
                                assert(s_new[i] == s_old[i]);
                            }
                        };
                        assert forall|i: int| 0 <= i < self.accounts_legacy@.len() implies (
                        #[trigger] self.accounts_legacy@[i]).1.times_le(n) by {
                            let i0: int = if i < k { i } else { i + 1 };
                            assert(self.accounts_legacy@[i] == old(self).accounts_legacy@[i0]);
                            assert(old(self).accounts_legacy@[i0].1.times_le(n));
                        };
                    };
                }
            },
        }
    }

    /// Appends `amount` to the bucket of the registered asset `asset` at
    /// timestamp `now`, creating the bucket if absent, and returns the
    /// position the amount was stored at.
    pub fn push_bucket_amount(&mut self, asset: &Asset, now: UnixTimestamp, amount: TokensAmount) -> (idx:
        AccrualIndex)
        requires
            old(self).wf(),
            old(self).spec_registered(asset@),
            old(self).spec_buckets(asset@).spec_has(now) ==> old(self).spec_buckets(
                asset@,
            ).spec_bucket(now).total + amount <= u128::MAX,
            old(self).spec_buckets(asset@).spec_has(now) ==> old(self).spec_buckets(
                asset@,
            ).spec_bucket(now).amounts@.len() < u32::MAX,
        ensures
            final(self).wf(),
            final(self).spec_registered(asset@),
            forall|a: Seq<char>|
                #[trigger] final(self).spec_has_extra(a) == old(self).spec_has_extra(a),
            forall|a: Seq<char>|
                a != asset@ && old(self).spec_registered(a) ==> #[trigger] final(self).spec_buckets(
                    a,
                ) == old(self).spec_buckets(a),
            ({
                let m0 = old(self).spec_buckets(asset@);
                let m1 = final(self).spec_buckets(asset@);
                &&& forall|u: UnixTimestamp| #[trigger] m1.spec_has(u) == (m0.spec_has(u) || u == now)
                &&& forall|u: UnixTimestamp|
                    u != now && m0.spec_has(u) ==> #[trigger] m1.spec_bucket(u) == m0.spec_bucket(u)
                &&& m1.spec_bucket(now).amounts@ == (if m0.spec_has(now) {
                    m0.spec_bucket(now).amounts@
                } else {
                    Seq::<TokensAmount>::empty()
                }).push(amount)
                &&& m1.spec_bucket(now).total == (if m0.spec_has(now) {
                    m0.spec_bucket(now).total as int
                } else {
                    0int
                }) + amount
                &&& idx == (if m0.spec_has(now) {
                    m0.spec_bucket(now).amounts@.len() as int
                } else {
                    0int
                })
                &&& m1.spec_amount(now, idx) == Some(amount)
                &&& forall|u: UnixTimestamp, i: AccrualIndex|
                    !(u == now && i == idx) ==> #[trigger] m1.spec_amount(u, i) == m0.spec_amount(
                        u,
                        i,
                    )
                &&& m1.map_total() == m0.map_total() + amount
                &&& forall|n: UnixTimestamp| m0.times_le(n) && now <= n ==> #[trigger] m1.times_le(n)
            }),
            final(self).owner_id == old(self).owner_id,
            final(self).token_account_id == old(self).token_account_id,
            final(self).assets == old(self).assets,
            final(self).oracles == old(self).oracles,
            final(self).claim_period == old(self).claim_period,
            final(self).burn_period == old(self).burn_period,
            final(self).accounts_legacy == old(self).accounts_legacy,
            final(self).accounts == old(self).accounts,
            final(self).is_service_call_running == old(self).is_service_call_running,
            asset@ != spec_default_asset() ==> final(self).accruals == old(self).accruals,
            forall|n: UnixTimestamp|
                old(self).times_le(n) && now <= n ==> #[trigger] final(self).times_le(n),
    {
        let def = default_asset();
        if asset_eq(asset, &def) {
            let idx = self.accruals.push_amount(now, amount);
            proof {
                assert forall|a: Seq<char>| #[trigger] self.spec_has_extra(a) == old(
                    self).spec_has_extra(a) by {
                    if self.spec_has_extra(a) {
                        let i = self.spec_extra_index_of(a);
                        assert(old(self).extra_accruals@[i].0@ == a);
                    }
                    if old(self).spec_has_extra(a) {
                        let i = old(self).spec_extra_index_of(a);
                        assert(self.extra_accruals@[i].0@ == a);
                    }
                };
                assert forall|a: Seq<char>|
                    a != asset@ && old(self).spec_registered(a) implies #[trigger] self.spec_buckets(
                    a,
                ) == old(self).spec_buckets(a) by {
                    if a != spec_default_asset() {
                        let i = old(self).spec_extra_index_of(a);
                        assert(old(self).extra_accruals@[i].0@ == a);
                        assert(self.extra_accruals@[i].0@ == a);
                        self.lemma_extra_entry(i);
                        old(self).lemma_extra_entry(i);
                    }
                };
                assert forall|n: UnixTimestamp|
                    old(self).times_le(n) && now <= n implies #[trigger] final(self).times_le(n) by {
                    assert(old(self).accruals.times_le(n));
                    assert(self.accruals.times_le(n));
                };
            }
            idx
        } else {
            match self.find_extra(asset) {
                Some(j) => {
                    proof {
                        old(self).lemma_extra_entry(j as int);
                    }
                    let m = &mut self.extra_accruals[j].1;
                    let idx = m.push_amount(now, amount);
                    proof {
                        let s_old = old(self).extra_accruals@;
                        let s_new = self.extra_accruals@;
                        assert(s_new =~= s_old.update(j as int, (s_old[j as int].0, self.extra_accruals@[j as int].1)));
                        assert forall|i: int, m2: int| 0 <= i < m2 < s_new.len() implies (
                        #[trigger] s_new[i]).0@ != (#[trigger] s_new[m2]).0@ by {
                            assert(s_new[i].0 == s_old[i].0 && s_new[m2].0 == s_old[m2].0);
                        };
                        assert forall|i: int| 0 <= i < s_new.len() implies (#[trigger] s_new[i]).1.wf() by {
                            if i != j {
                                assert(s_new[i] == s_old[i]);
                            }
                        };
                        self.lemma_extra_entry(j as int);
                        assert forall|a: Seq<char>| #[trigger] self.spec_has_extra(a) == old(
                            self).spec_has_extra(a) by {
                            if self.spec_has_extra(a) {
                                let i = self.spec_extra_index_of(a);
                                assert(s_old[i].0@ == a);
                            }
                            if old(self).spec_has_extra(a) {
                                let i = old(self).spec_extra_index_of(a);
                                assert(s_new[i].0@ == a);
                            }
                        };
                        assert forall|a: Seq<char>|
                            a != asset@ && old(self).spec_registered(a) implies #[trigger] self
                            .spec_buckets(a) == old(self).spec_buckets(a) by {
                            if a != spec_default_asset() {
                                let i = old(self).spec_extra_index_of(a);
                                assert(s_old[i].0@ == a);
                                assert(s_new[i] == s_old[i]);
                                self.lemma_extra_entry(i);
                                old(self).lemma_extra_entry(i);
                            }
                        };
                        assert forall|n: UnixTimestamp|
                            old(self).times_le(n) && now <= n implies #[trigger] final(self).times_le(
                            n,
                        ) by {
                            assert(s_old[j as int].1.times_le(n));
                            assert forall|i: int| 0 <= i < s_new.len() implies (
                            #[trigger] s_new[i]).1.times_le(n) by {
                                if i != j {
                                    assert(s_new[i] == s_old[i]);
                                }
                            };
                        };
                    }
                    idx
                },
                None => vstd::pervasive::unreached(),
            }
        }
    }

    /// Appends one accrual reference for `asset` to the record of an existing
    /// account.
    pub(crate) fn account_push_ref(
        &mut self,
        account_id: &AccountId,
        asset: &Asset,
        accrual: (UnixTimestamp, AccrualIndex),
    )
        requires
            old(self).wf(),
            old(self).spec_has_account(account_id@),
        ensures
            final(self).wf(),
            forall|id: Seq<char>|
                #[trigger] final(self).spec_has_account(id) == old(self).spec_has_account(id),
            forall|id: Seq<char>|
                id != account_id@ && old(self).spec_has_account(id) ==> #[trigger] final(
                self).spec_account(id) == old(self).spec_account(id),
            ({
                let r0 = old(self).spec_account(account_id@);
                let r1 = final(self).spec_account(account_id@);
                &&& r1.spec_refs(asset@) == r0.spec_refs(asset@).push(accrual)
                &&& forall|a: Seq<char>|
                    a != asset@ ==> #[trigger] r1.spec_refs(a) == r0.spec_refs(a)
                &&& r1.spec_has_asset(asset@)
                &&& forall|a: Seq<char>|
                    a != asset@ ==> #[trigger] r1.spec_has_asset(a) == r0.spec_has_asset(a)
                &&& r1.claim_period_refreshed_at == r0.claim_period_refreshed_at
                &&& r1.is_locked == r0.is_locked
                &&& r1.is_enabled == r0.is_enabled
            }),
            final(self).owner_id == old(self).owner_id,
            final(self).token_account_id == old(self).token_account_id,
            final(self).assets == old(self).assets,
            final(self).oracles == old(self).oracles,
            final(self).claim_period == old(self).claim_period,
            final(self).burn_period == old(self).burn_period,
            final(self).accruals == old(self).accruals,
            final(self).extra_accruals == old(self).extra_accruals,
            final(self).accounts_legacy == old(self).accounts_legacy,
            final(self).is_service_call_running == old(self).is_service_call_running,
            forall|n: UnixTimestamp|
                old(self).times_le(n) && accrual.0 <= n ==> #[trigger] final(self).times_le(n),
    {
        match self.find_account(account_id) {
            Some(j) => {
                proof {
                    old(self).lemma_account_entry(j as int);
                }
                self.accounts[j].1.push(accrual, asset);
                proof {
                    let s_old = old(self).accounts@;
                    let s_new = self.accounts@;
                    assert(s_new =~= s_old.update(j as int, (s_old[j as int].0, self.accounts@[j as int].1)));
                    assert forall|i: int, m: int| 0 <= i < m < s_new.len() implies (
                    #[trigger] s_new[i]).0@ != (#[trigger] s_new[m]).0@ by {
                        assert(s_new[i].0 == s_old[i].0 && s_new[m].0 == s_old[m].0);
                    };
                    assert forall|i: int, m: int|
                        0 <= i < s_new.len() && 0 <= m < self.accounts_legacy@.len() implies (
                    #[trigger] s_new[i]).0@ != (#[trigger] self.accounts_legacy@[m]).0@ by {
                        assert(s_new[i].0 == s_old[i].0);
                    };
                    assert forall|i: int| 0 <= i < s_new.len() implies (
                    #[trigger] s_new[i]).1.spec_record().wf() by {
                        if i != j {
                            assert(s_new[i] == s_old[i]);
                        }
                    };
                    self.lemma_account_entry(j as int);
                    assert forall|id: Seq<char>| #[trigger] final(self).spec_has_account(id) == old(
                        self).spec_has_account(id) by {
                        if self.spec_has_account(id) {
                            let i = self.spec_account_index_of(id);
                            assert(s_old[i].0@ == id);
                        }
                        if old(self).spec_has_account(id) {
                            let i = old(self).spec_account_index_of(id);
                            assert(s_new[i].0@ == id);
                        }
                    };
                    assert forall|id: Seq<char>|
                        id != account_id@ && old(self).spec_has_account(id) implies #[trigger] final(self)
                        .spec_account(id) == old(self).spec_account(id) by {
                        let i = old(self).spec_account_index_of(id);
                        assert(s_old[i].0@ == id);
                        assert(s_new[i] == s_old[i]);
                        self.lemma_account_entry(i);
                        old(self).lemma_account_entry(i);
                    };
                    assert forall|n: UnixTimestamp|
                        old(self).times_le(n) && accrual.0 <= n implies #[trigger] final(self).times_le(
                        n,
                    ) by {
                        assert(s_old[j as int].1.spec_record().times_le(n));
                        assert forall|i: int| 0 <= i < s_new.len() implies (
                        #[trigger] s_new[i]).1.spec_record().times_le(n) by {
                            if i != j {
                                assert(s_new[i] == s_old[i]);
                            }
                        };
                    };
                }
            },
            None => vstd::pervasive::unreached(),
        }
    }

    /// Adds a record for an account that has none yet.
    pub(crate) fn insert_account(&mut self, account_id: AccountId, record: AccountRecord)
        requires
            old(self).wf(),
            !old(self).spec_has_account(account_id@),
            !old(self).spec_has_legacy(account_id@),
            record.wf(),
        ensures
            final(self).wf(),
            final(self).spec_has_account(account_id@),
            final(self).spec_account(account_id@) == record,
            forall|id: Seq<char>|
                id != account_id@ ==> #[trigger] final(self).spec_has_account(id) == old(
                self).spec_has_account(id),
            forall|id: Seq<char>|
                id != account_id@ && old(self).spec_has_account(id) ==> #[trigger] final(
                self).spec_account(id) == old(self).spec_account(id),
            final(self).owner_id == old(self).owner_id,
            final(self).token_account_id == old(self).token_account_id,
            final(self).assets == old(self).assets,
            final(self).oracles == old(self).oracles,
            final(self).claim_period == old(self).claim_period,
            final(self).burn_period == old(self).burn_period,
            final(self).accruals == old(self).accruals,
            final(self).extra_accruals == old(self).extra_accruals,
            final(self).accounts_legacy == old(self).accounts_legacy,
            final(self).is_service_call_running == old(self).is_service_call_running,
            forall|n: UnixTimestamp|
                old(self).times_le(n) && record.times_le(n) ==> #[trigger] final(self).times_le(n),
    {
        let ghost s_old = self.accounts@;
        self.accounts.push((account_id, record.into_versioned()));
        proof {
            let s_new = self.accounts@;
            let j = s_new.len() - 1;
            assert(s_new.drop_last() =~= s_old);
            assert forall|i: int, m: int| 0 <= i < m < s_new.len() implies (
            #[trigger] s_new[i]).0@ != (#[trigger] s_new[m]).0@ by {
                if m < j {
                    assert(s_new[i] == s_old[i] && s_new[m] == s_old[m]);
                } else {
                    assert(s_new[i] == s_old[i]);
                }
            };
            assert forall|i: int, m: int|
                0 <= i < s_new.len() && 0 <= m < self.accounts_legacy@.len() implies (
            #[trigger] s_new[i]).0@ != (#[trigger] self.accounts_legacy@[m]).0@ by {
                if i < j {
                    assert(s_new[i] == s_old[i]);
                } else {
                    if s_new[i].0@ == self.accounts_legacy@[m].0@ {
                        assert(old(self).spec_has_legacy(s_new[j].0@));
                    }
                }
            };
            assert forall|i: int| 0 <= i < s_new.len() implies (
            #[trigger] s_new[i]).1.spec_record().wf() by {
                if i < j {
                    assert(s_new[i] == s_old[i]);
                }
            };
            self.lemma_account_entry(j);
            assert forall|id: Seq<char>| id != s_new[j].0@ implies #[trigger] final(self)
                .spec_has_account(id) == old(self).spec_has_account(id) by {
                if self.spec_has_account(id) {
                    let i = self.spec_account_index_of(id);
                    if i != j {
                        assert(s_old[i].0@ == id);
                    }
                }
                if old(self).spec_has_account(id) {
                    let i = old(self).spec_account_index_of(id);
                    assert(s_new[i].0@ == id);
                }
            };
            assert forall|id: Seq<char>|
                id != s_new[j].0@ && old(self).spec_has_account(id) implies #[trigger] final(self)
                .spec_account(id) == old(self).spec_account(id) by {
                let i = old(self).spec_account_index_of(id);
                assert(s_old[i].0@ == id);
                assert(s_new[i] == s_old[i]);
                self.lemma_account_entry(i);
                old(self).lemma_account_entry(i);
            };
            assert forall|n: UnixTimestamp|
                old(self).times_le(n) && record.times_le(n) implies #[trigger] final(self).times_le(
                n,
            ) by {
                assert forall|i: int| 0 <= i < s_new.len() implies (
                #[trigger] s_new[i]).1.spec_record().times_le(n) by {
                    if i < j {
                        assert(s_new[i] == s_old[i]);
                    }
                };
            };
        }
    }

    /// Records one batch of accruals: every amount is appended to the bucket
    /// of the target asset at `now`, and each named account receives one
    /// reference per entry, its record being created or migrated from the
    /// legacy shape first. Only an oracle may record; an unregistered asset is
    /// refused; a refused call leaves the state untouched.
    pub fn record_batch_for_hold(
        &mut self,
        caller: &AccountId,
        now: UnixTimestamp,
        amounts: Vec<(AccountId, U128)>,
        asset: Option<Asset>,
    ) -> (r: Result<(), ContractError>)
        requires
            old(self).wf(),
            old(self).times_le(now),
            old(self).spec_registered(spec_target_asset(asset)) ==> ({
                let m = old(self).spec_buckets(spec_target_asset(asset));
                let base_total: int = if m.spec_has(now) {
                    m.spec_bucket(now).total as int
                } else {
                    0
                };
                let base_len: int = if m.spec_has(now) {
                    m.spec_bucket(now).amounts@.len() as int
                } else {
                    0
                };
                &&& base_total + sum_batch(amounts@) <= u128::MAX
                &&& base_len + amounts@.len() <= u32::MAX
            }),
        ensures
            final(self).wf(),
            final(self).times_le(now),
            !old(self).spec_is_oracle(caller@) ==> r == Err::<(), ContractError>(
                ContractError::Unauthorized,
            ) && *final(self) == *old(self),
            old(self).spec_is_oracle(caller@) && !old(self).spec_registered(
                spec_target_asset(asset),
            ) ==> r == Err::<(), ContractError>(ContractError::NotFound) && *final(self) == *old(
                self,
            ),
            old(self).spec_is_oracle(caller@) && old(self).spec_registered(
                spec_target_asset(asset),
            ) ==> ({
                let t = spec_target_asset(asset);
                let m0 = old(self).spec_buckets(t);
                let m1 = final(self).spec_buckets(t);
                let base: int = if m0.spec_has(now) {
                    m0.spec_bucket(now).amounts@.len() as int
                } else {
                    0
                };
                &&& r == Ok::<(), ContractError>(())
                &&& forall|u: UnixTimestamp|
                    #[trigger] m1.spec_has(u) == (m0.spec_has(u) || (u == now && amounts@.len()
                        > 0))
                &&& forall|u: UnixTimestamp|
                    u != now && m0.spec_has(u) ==> #[trigger] m1.spec_bucket(u) == m0.spec_bucket(u)
                &&& (m0.spec_has(now) || amounts@.len() > 0) ==> m1.spec_bucket(now).amounts@
                    =~= (if m0.spec_has(now) {
                    m0.spec_bucket(now).amounts@
                } else {
                    Seq::<TokensAmount>::empty()
                }) + batch_amounts(amounts@)
                &&& (m0.spec_has(now) || amounts@.len() > 0) ==> m1.spec_bucket(now).total == (if m0.spec_has(now) {
                    m0.spec_bucket(now).total as int
                } else {
                    0
                }) + sum_batch(amounts@)
                &&& m1.map_total() == m0.map_total() + sum_batch(amounts@)
                &&& forall|a: Seq<char>|
                    #[trigger] final(self).spec_has_extra(a) == old(self).spec_has_extra(a)
                &&& forall|a: Seq<char>|
                    a != t && old(self).spec_registered(a) ==> #[trigger] final(self).spec_buckets(
                        a,
                    ) == old(self).spec_buckets(a)
                &&& forall|id: Seq<char>|
                    #[trigger] final(self).spec_has_account(id) == (old(self).spec_has_account(id)
                        || batch_contains(amounts@, id))
                &&& forall|id: Seq<char>|
                    #[trigger] final(self).spec_has_legacy(id) == (old(self).spec_has_legacy(id)
                        && !batch_contains(amounts@, id))
                &&& forall|id: Seq<char>|
                    !batch_contains(amounts@, id) && old(self).spec_has_account(id)
                        ==> #[trigger] final(self).spec_account(id) == old(self).spec_account(id)
                &&& forall|id: Seq<char>|
                    !batch_contains(amounts@, id) && old(self).spec_has_legacy(id)
                        ==> #[trigger] final(self).spec_legacy(id) == old(self).spec_legacy(id)
                &&& forall|id: Seq<char>|
                    batch_contains(amounts@, id) ==> #[trigger] final(self).spec_account(
                        id,
                    ).spec_refs(t) == pre_refs(*old(self), id, t) + appended_refs(
                        amounts@,
                        id,
                        now,
                        base,
                    )
                &&& forall|id: Seq<char>, a: Seq<char>|
                    batch_contains(amounts@, id) && a != t ==> #[trigger] final(self).spec_account(
                        id,
                    ).spec_refs(a) == pre_refs(*old(self), id, a)
                &&& forall|id: Seq<char>|
                    batch_contains(amounts@, id) ==> #[trigger] final(self).spec_account(
                        id,
                    ).claim_period_refreshed_at == pre_refreshed(*old(self), id, now)
            }),
            final(self).owner_id == old(self).owner_id,
            final(self).token_account_id == old(self).token_account_id,
            final(self).assets == old(self).assets,
            final(self).oracles == old(self).oracles,
            final(self).claim_period == old(self).claim_period,
            final(self).burn_period == old(self).burn_period,
            final(self).is_service_call_running == old(self).is_service_call_running,
    {
        if !self.is_oracle(caller) {
            return Err(ContractError::Unauthorized);
        }
        self.record_batch_for_hold_internal(now, amounts, asset)
    }

    /// The recording itself, with the authorization already settled: used by
    /// the oracle entry point and by incoming transfers from a registered
    /// token contract.
    #[verifier::rlimit(100)]
    pub fn record_batch_for_hold_internal(
        &mut self,
        now: UnixTimestamp,
        amounts: Vec<(AccountId, U128)>,
        asset: Option<Asset>,
    ) -> (r: Result<(), ContractError>)
        requires
            old(self).wf(),
            old(self).times_le(now),
            old(self).spec_registered(spec_target_asset(asset)) ==> ({
                let m = old(self).spec_buckets(spec_target_asset(asset));
                let base_total: int = if m.spec_has(now) {
                    m.spec_bucket(now).total as int
                } else {
                    0
                };
                let base_len: int = if m.spec_has(now) {
                    m.spec_bucket(now).amounts@.len() as int
                } else {
                    0
                };
                &&& base_total + sum_batch(amounts@) <= u128::MAX
                &&& base_len + amounts@.len() <= u32::MAX
            }),
        ensures
            final(self).wf(),
            final(self).times_le(now),
            !old(self).spec_registered(spec_target_asset(asset)) ==> r == Err::<
                (),
                ContractError,
            >(ContractError::NotFound) && *final(self) == *old(self),
            old(self).spec_registered(spec_target_asset(asset)) ==> ({
                let t = spec_target_asset(asset);
                let m0 = old(self).spec_buckets(t);
                let m1 = final(self).spec_buckets(t);
                let base: int = if m0.spec_has(now) {
                    m0.spec_bucket(now).amounts@.len() as int
                } else {
                    0
                };
                &&& r == Ok::<(), ContractError>(())
                &&& forall|u: UnixTimestamp|
                    #[trigger] m1.spec_has(u) == (m0.spec_has(u) || (u == now && amounts@.len()
                        > 0))
                &&& forall|u: UnixTimestamp|
                    u != now && m0.spec_has(u) ==> #[trigger] m1.spec_bucket(u) == m0.spec_bucket(u)
                &&& (m0.spec_has(now) || amounts@.len() > 0) ==> m1.spec_bucket(now).amounts@
                    =~= (if m0.spec_has(now) {
                    m0.spec_bucket(now).amounts@
                } else {
                    Seq::<TokensAmount>::empty()
                }) + batch_amounts(amounts@)
                &&& (m0.spec_has(now) || amounts@.len() > 0) ==> m1.spec_bucket(now).total == (if m0.spec_has(now) {
                    m0.spec_bucket(now).total as int
                } else {
                    0
                }) + sum_batch(amounts@)
                &&& m1.map_total() == m0.map_total() + sum_batch(amounts@)
                &&& forall|a: Seq<char>|
                    #[trigger] final(self).spec_has_extra(a) == old(self).spec_has_extra(a)
                &&& forall|a: Seq<char>|
                    a != t && old(self).spec_registered(a) ==> #[trigger] final(self).spec_buckets(
                        a,
                    ) == old(self).spec_buckets(a)
                &&& forall|id: Seq<char>|
                    #[trigger] final(self).spec_has_account(id) == (old(self).spec_has_account(id)
                        || batch_contains(amounts@, id))
                &&& forall|id: Seq<char>|
                    #[trigger] final(self).spec_has_legacy(id) == (old(self).spec_has_legacy(id)
                        && !batch_contains(amounts@, id))
                &&& forall|id: Seq<char>|
                    !batch_contains(amounts@, id) && old(self).spec_has_account(id)
                        ==> #[trigger] final(self).spec_account(id) == old(self).spec_account(id)
                &&& forall|id: Seq<char>|
                    !batch_contains(amounts@, id) && old(self).spec_has_legacy(id)
                        ==> #[trigger] final(self).spec_legacy(id) == old(self).spec_legacy(id)
                &&& forall|id: Seq<char>|
                    batch_contains(amounts@, id) ==> #[trigger] final(self).spec_account(
                        id,
                    ).spec_refs(t) == pre_refs(*old(self), id, t) + appended_refs(
                        amounts@,
                        id,
                        now,
                        base,
                    )
                &&& forall|id: Seq<char>, a: Seq<char>|
                    batch_contains(amounts@, id) && a != t ==> #[trigger] final(self).spec_account(
                        id,
                    ).spec_refs(a) == pre_refs(*old(self), id, a)
                &&& forall|id: Seq<char>|
                    batch_contains(amounts@, id) ==> #[trigger] final(self).spec_account(
                        id,
                    ).claim_period_refreshed_at == pre_refreshed(*old(self), id, now)
            }),
            final(self).owner_id == old(self).owner_id,
            final(self).token_account_id == old(self).token_account_id,
            final(self).assets == old(self).assets,
            final(self).oracles == old(self).oracles,
            final(self).claim_period == old(self).claim_period,
            final(self).burn_period == old(self).burn_period,
            final(self).is_service_call_running == old(self).is_service_call_running,
    {
        let ghost t = spec_target_asset(asset);
        let def = default_asset();
        let target: Asset = match asset {
            Some(a) => a,
            None => def,
        };
        let registered = if asset_eq(&target, &default_asset()) {
            true
        } else {
            match self.find_extra(&target) {
                Some(j) => {
                    proof {
                        self.lemma_extra_entry(j as int);
                    }
                    true
                },
                None => false,
            }
        };
        if !registered {
            return Err(ContractError::NotFound);
        }
        let ghost m0 = old(self).spec_buckets(t);
        let ghost base: int = if m0.spec_has(now) {
            m0.spec_bucket(now).amounts@.len() as int
        } else {
            0
        };
        let ghost base_amts = if m0.spec_has(now) {
            m0.spec_bucket(now).amounts@
        } else {
            Seq::<TokensAmount>::empty()
        };
        let ghost base_total: int = if m0.spec_has(now) {
            m0.spec_bucket(now).total as int
        } else {
            0
        };
        let n = amounts.len();
        let mut k: usize = 0;
        proof {
            assert(amounts@.take(0) =~= Seq::<(AccountId, U128)>::empty());
            assert(batch_amounts(amounts@.take(0)) =~= Seq::<TokensAmount>::empty());
        }
        while k < n
            invariant
                old(self).wf(),
                old(self).times_le(now),
                old(self).spec_registered(t),
                self.wf(),
                self.times_le(now),
                n == amounts@.len(),
                k <= n,
                target@ == t,
                m0 == old(self).spec_buckets(t),
                base == (if m0.spec_has(now) {
                    m0.spec_bucket(now).amounts@.len() as int
                } else {
                    0
                }),
                base_amts == (if m0.spec_has(now) {
                    m0.spec_bucket(now).amounts@
                } else {
                    Seq::<TokensAmount>::empty()
                }),
                base_total == (if m0.spec_has(now) {
                    m0.spec_bucket(now).total as int
                } else {
                    0
                }),
                base_total + sum_batch(amounts@) <= u128::MAX,
                base + amounts@.len() <= u32::MAX,
                self.spec_registered(t),
                forall|a: Seq<char>|
                    #[trigger] self.spec_has_extra(a) == old(self).spec_has_extra(a),
                forall|a: Seq<char>|
                    a != t && old(self).spec_registered(a) ==> #[trigger] self.spec_buckets(a)
                        == old(self).spec_buckets(a),
                forall|u: UnixTimestamp|
                    #[trigger] self.spec_buckets(t).spec_has(u) == (m0.spec_has(u) || (u == now && k
                        > 0)),
                forall|u: UnixTimestamp|
                    u != now && m0.spec_has(u) ==> #[trigger] self.spec_buckets(t).spec_bucket(u)
                        == m0.spec_bucket(u),
                (m0.spec_has(now) || k > 0) ==> self.spec_buckets(t).spec_bucket(now).amounts@
                    =~= base_amts + batch_amounts(amounts@.take(k as int)),
                (m0.spec_has(now) || k > 0) ==> self.spec_buckets(t).spec_bucket(now).total
                    == base_total + sum_batch(amounts@.take(k as int)),
                self.spec_buckets(t).map_total() == m0.map_total() + sum_batch(
                    amounts@.take(k as int),
                ),
                forall|id: Seq<char>|
                    #[trigger] self.spec_has_account(id) == (old(self).spec_has_account(id)
                        || batch_contains(amounts@.take(k as int), id)),
                forall|id: Seq<char>|
                    #[trigger] self.spec_has_legacy(id) == (old(self).spec_has_legacy(id)
                        && !batch_contains(amounts@.take(k as int), id)),
                forall|id: Seq<char>|
                    !batch_contains(amounts@.take(k as int), id) && old(self).spec_has_account(id)
                        ==> #[trigger] self.spec_account(id) == old(self).spec_account(id),
                forall|id: Seq<char>|
                    !batch_contains(amounts@.take(k as int), id) && old(self).spec_has_legacy(id)
                        ==> #[trigger] self.spec_legacy(id) == old(self).spec_legacy(id),
                forall|id: Seq<char>|
                    batch_contains(amounts@.take(k as int), id) ==> #[trigger] self.spec_account(
                        id,
                    ).spec_refs(t) == pre_refs(*old(self), id, t) + appended_refs(
                        amounts@.take(k as int),
                        id,
                        now,
                        base,
                    ),
                forall|id: Seq<char>, a: Seq<char>|
                    batch_contains(amounts@.take(k as int), id) && a != t ==> #[trigger] self
                        .spec_account(id).spec_refs(a) == pre_refs(*old(self), id, a),
                forall|id: Seq<char>|
                    batch_contains(amounts@.take(k as int), id) ==> #[trigger] self.spec_account(
                        id,
                    ).claim_period_refreshed_at == pre_refreshed(*old(self), id, now),
                self.owner_id == old(self).owner_id,
                self.token_account_id == old(self).token_account_id,
                self.assets == old(self).assets,
                self.oracles == old(self).oracles,
                self.claim_period == old(self).claim_period,
                self.burn_period == old(self).burn_period,
                self.is_service_call_running == old(self).is_service_call_running,
            decreases n - k,
        {
            let ghost pre = *self;
            let amount = amounts[k].1.0;
            proof {
                lemma_sum_batch_take_step(amounts@, k as int);
                lemma_sum_batch_prefix_le(amounts@, k as int + 1);
                lemma_sum_batch_nonneg(amounts@.take(k as int));
            }
            self.migrate_record_if_needed(&amounts[k].0);
            let ghost s1 = *self;
            proof {
                Contract::lemma_buckets_transport(pre, s1);
            }
            let idx = self.push_bucket_amount(&target, now, amount);
            let ghost s2 = *self;
            proof {
                Contract::lemma_accounts_transport(s1, s2);
                Contract::lemma_legacy_transport(s1, s2);
                assert(idx == base + k);
            }
            match self.find_account(&amounts[k].0) {
                Some(_) => {
                    self.account_push_ref(&amounts[k].0, &target, (now, idx));
                },
                None => {
                    let mut rec = AccountRecord::new(now, None);
                    rec.push_ref(&target, (now, idx));
                    self.insert_account(amounts[k].0.clone(), rec);
                },
            }
            proof {
                let e = amounts@[k as int].0@;
                let take1 = amounts@.take(k as int + 1);
                let take0 = amounts@.take(k as int);
                let existed = s2.spec_has_account(e);
                Contract::lemma_legacy_transport(s2, *self);
                lemma_appended_refs_take_step(amounts@, e, now, base, k as int);
                assert(batch_amounts(take1) =~= batch_amounts(take0).push(
                    amounts@[k as int].1.0,
                ));
                assert forall|a: Seq<char>| #[trigger] self.spec_has_extra(a) == old(
                    self).spec_has_extra(a) by {
                    assert(self.spec_has_extra(a) == s2.spec_has_extra(a));
                    assert(s1.spec_has_extra(a) == pre.spec_has_extra(a));
                };
                Contract::lemma_buckets_transport(s2, *self);
                assert(self.spec_buckets(t).spec_bucket(now).amounts@ =~= base_amts
                    + batch_amounts(take1));
                // how the record of the processed account was obtained
                assert(existed == (pre.spec_has_account(e) || pre.spec_has_legacy(e)));
                if existed {
                    assert(s2.spec_account(e) == s1.spec_account(e));
                    assert(self.spec_account(e).spec_refs(t) == s2.spec_account(e).spec_refs(
                        t,
                    ).push((now, (base + k) as AccrualIndex)));
                    assert(self.spec_account(e).claim_period_refreshed_at == s2.spec_account(
                        e,
                    ).claim_period_refreshed_at);
                    assert(s2.spec_account(e).spec_refs(t) == pre_refs(*old(self), e, t)
                        + appended_refs(take0, e, now, base)) by {
                        if batch_contains(take0, e) {
                            assert(pre.spec_account(e).spec_refs(t) == pre_refs(*old(self), e, t)
                                + appended_refs(take0, e, now, base));
                            assert(pre.spec_has_account(e));
                            assert(s1.spec_account(e) == pre.spec_account(e));
                        } else {
                            lemma_appended_refs_absent(take0, e, now, base);
                            if pre.spec_has_account(e) {
                                assert(old(self).spec_has_account(e));
                                assert(pre.spec_account(e) == old(self).spec_account(e));
                                assert(s1.spec_account(e) == pre.spec_account(e));
                            } else {
                                assert(pre.spec_has_legacy(e));
                                assert(old(self).spec_has_legacy(e));
                                assert(pre.spec_legacy(e) == old(self).spec_legacy(e));
                                assert(s1.spec_account(e).spec_refs(spec_default_asset())
                                    == pre.spec_legacy(e).accruals@);
                                if t != spec_default_asset() {
                                    assert(s1.spec_account(e).spec_refs(t) =~= Seq::<(
                                        UnixTimestamp,
                                        AccrualIndex,
                                    )>::empty());
                                }
                                assert(!old(self).spec_has_account(e));
                            }
                            assert(pre_refs(*old(self), e, t) + appended_refs(take0, e, now, base)
                                =~= pre_refs(*old(self), e, t));
                        }
                    };
                } else {
                    // the record was created afresh
                    assert(!pre.spec_has_account(e) && !pre.spec_has_legacy(e));
                    assert(!batch_contains(take0, e));
                    assert(!old(self).spec_has_account(e) && !old(self).spec_has_legacy(e));
                    lemma_appended_refs_absent(take0, e, now, base);
                    assert(pre_refs(*old(self), e, t) =~= Seq::<(
                        UnixTimestamp,
                        AccrualIndex,
                    )>::empty());
                    assert(self.spec_account(e).spec_refs(t) =~= Seq::<(
                        UnixTimestamp,
                        AccrualIndex,
                    )>::empty().push((now, (base + k) as AccrualIndex)));
                    assert(self.spec_account(e).claim_period_refreshed_at == now);
                }
                assert(self.spec_account(e).spec_refs(t) == pre_refs(*old(self), e, t)
                    + appended_refs(take1, e, now, base)) by {
                    assert(pre_refs(*old(self), e, t) + appended_refs(take1, e, now, base)
                        =~= (pre_refs(*old(self), e, t) + appended_refs(take0, e, now, base)).push(
                        (now, (base + k) as AccrualIndex),
                    ));
                };
                assert forall|id: Seq<char>| #[trigger] self.spec_has_account(id) == (old(
                    self).spec_has_account(id) || batch_contains(take1, id)) by {
                    lemma_batch_contains_take_step(amounts@, k as int, id);
                    if id != e {
                        assert(self.spec_has_account(id) == s2.spec_has_account(id));
                        assert(s1.spec_has_account(id) == pre.spec_has_account(id));
                    }
                };
                assert forall|id: Seq<char>| #[trigger] self.spec_has_legacy(id) == (old(
                    self).spec_has_legacy(id) && !batch_contains(take1, id)) by {
                    lemma_batch_contains_take_step(amounts@, k as int, id);
                    assert(self.spec_has_legacy(id) == s2.spec_has_legacy(id));
                    assert(s2.spec_has_legacy(id) == s1.spec_has_legacy(id));
                    if id == e {
                        assert(!s1.spec_has_legacy(e));
                    } else {
                        assert(s1.spec_has_account(id) == pre.spec_has_account(id));
                        assert(s1.spec_has_legacy(id) == pre.spec_has_legacy(id));
                    }
                };
                assert forall|id: Seq<char>|
                    !batch_contains(take1, id) && old(self).spec_has_account(id) implies #[trigger] self
                    .spec_account(id) == old(self).spec_account(id) by {
                    lemma_batch_contains_take_step(amounts@, k as int, id);
                    assert(pre.spec_account(id) == old(self).spec_account(id));
                    assert(s1.spec_account(id) == pre.spec_account(id));
                    assert(s2.spec_account(id) == s1.spec_account(id));
                    assert(self.spec_account(id) == s2.spec_account(id));
                };
                assert forall|id: Seq<char>|
                    !batch_contains(take1, id) && old(self).spec_has_legacy(id) implies #[trigger] self
                    .spec_legacy(id) == old(self).spec_legacy(id) by {
                    lemma_batch_contains_take_step(amounts@, k as int, id);
                    assert(pre.spec_legacy(id) == old(self).spec_legacy(id));
                    assert(s1.spec_legacy(id) == pre.spec_legacy(id));
                    assert(s2.spec_legacy(id) == s1.spec_legacy(id));
                    assert(self.spec_legacy(id) == s2.spec_legacy(id));
                };
                assert forall|id: Seq<char>|
                    batch_contains(take1, id) implies #[trigger] self.spec_account(id).spec_refs(t)
                    == pre_refs(*old(self), id, t) + appended_refs(take1, id, now, base) by {
                    lemma_batch_contains_take_step(amounts@, k as int, id);
                    lemma_appended_refs_take_step(amounts@, id, now, base, k as int);
                    if id != e {
                        assert(batch_contains(take0, id));
                        assert(pre.spec_account(id).spec_refs(t) == pre_refs(*old(self), id, t)
                            + appended_refs(take0, id, now, base));
                        assert(pre.spec_has_account(id));
                        assert(s1.spec_account(id) == pre.spec_account(id));
                        assert(s2.spec_account(id) == s1.spec_account(id));
                        assert(self.spec_account(id) == s2.spec_account(id));
                        assert(appended_refs(take1, id, now, base) =~= appended_refs(
                            take0,
                            id,
                            now,
                            base,
                        ));
                    }
                };
                assert forall|id: Seq<char>, a: Seq<char>|
                    batch_contains(take1, id) && a != t implies #[trigger] self.spec_account(
                    id,
                ).spec_refs(a) == pre_refs(*old(self), id, a) by {
                    lemma_batch_contains_take_step(amounts@, k as int, id);
                    if id == e {
                        if existed {
                            assert(self.spec_account(e).spec_refs(a) == s2.spec_account(
                                e,
                            ).spec_refs(a));
                            assert(s2.spec_account(e) == s1.spec_account(e));
                            if batch_contains(take0, e) {
                                assert(pre.spec_account(e).spec_refs(a) == pre_refs(
                                    *old(self),
                                    e,
                                    a,
                                ));
                                assert(pre.spec_has_account(e));
                                assert(s1.spec_account(e) == pre.spec_account(e));
                            } else if pre.spec_has_account(e) {
                                assert(pre.spec_account(e) == old(self).spec_account(e));
                                assert(s1.spec_account(e) == pre.spec_account(e));
                            } else {
                                assert(pre.spec_has_legacy(e));
                                assert(pre.spec_legacy(e) == old(self).spec_legacy(e));
                                if a == spec_default_asset() {
                                    assert(s1.spec_account(e).spec_refs(a) == pre.spec_legacy(
                                        e,
                                    ).accruals@);
                                } else {
                                    assert(s1.spec_account(e).spec_refs(a) =~= Seq::<(
                                        UnixTimestamp,
                                        AccrualIndex,
                                    )>::empty());
                                }
                                assert(!old(self).spec_has_account(e));
                            }
                        } else {
                            assert(!old(self).spec_has_account(e) && !old(self).spec_has_legacy(
                                e,
                            ));
                            assert(self.spec_account(e).spec_refs(a) =~= Seq::<(
                                UnixTimestamp,
                                AccrualIndex,
                            )>::empty());
                        }
                    } else {
                        assert(batch_contains(take0, id));
                        assert(pre.spec_account(id).spec_refs(a) == pre_refs(*old(self), id, a));
                        assert(pre.spec_has_account(id));
                        assert(s1.spec_account(id) == pre.spec_account(id));
                        assert(s2.spec_account(id) == s1.spec_account(id));
                        assert(self.spec_account(id) == s2.spec_account(id));
                    }
                };
                assert forall|id: Seq<char>|
                    batch_contains(take1, id) implies #[trigger] self.spec_account(
                    id,
                ).claim_period_refreshed_at == pre_refreshed(*old(self), id, now) by {
                    lemma_batch_contains_take_step(amounts@, k as int, id);
                    if id == e {
                        if existed {
                            assert(s2.spec_account(e) == s1.spec_account(e));
                            if batch_contains(take0, e) {
                                assert(pre.spec_account(e).claim_period_refreshed_at
                                    == pre_refreshed(*old(self), e, now));
                                assert(pre.spec_has_account(e));
                                assert(s1.spec_account(e) == pre.spec_account(e));
                            } else if pre.spec_has_account(e) {
                                assert(pre.spec_account(e) == old(self).spec_account(e));
                                assert(s1.spec_account(e) == pre.spec_account(e));
                            } else {
                                assert(pre.spec_has_legacy(e));
                                assert(pre.spec_legacy(e) == old(self).spec_legacy(e));
                                assert(!old(self).spec_has_account(e));
                            }
                        } else {
                            assert(!old(self).spec_has_account(e) && !old(self).spec_has_legacy(
                                e,
                            ));
                        }
                    } else {
                        assert(batch_contains(take0, id));
                        assert(pre.spec_account(id).claim_period_refreshed_at == pre_refreshed(
                            *old(self),
                            id,
                            now,
                        ));
                        assert(pre.spec_has_account(id));
                        assert(s1.spec_account(id) == pre.spec_account(id));
                        assert(s2.spec_account(id) == s1.spec_account(id));
                        assert(self.spec_account(id) == s2.spec_account(id));
                    }
                };
            }
            k = k + 1;
        }
        proof {
            assert(amounts@.take(n as int) =~= amounts@);
        }
        Ok(())
    }
}

} // verus!
