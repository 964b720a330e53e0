use vstd::prelude::*;

use crate::Contract;
use crate::account::AccountRecordVersioned;
use crate::buckets::{Bucket, BucketMap};
use crate::types::{
    AccountId, AccrualIndex, BurnStatus, ContractError, Duration, TokensAmount, U128,
    UnixTimestamp, default_asset, is_within_period, spec_default_asset, spec_is_within_period,
};

verus! {

/// The grand total held in buckets whose age has reached the burn period.
pub open spec fn burnable_total(
    s: Seq<(UnixTimestamp, Bucket)>,
    now: UnixTimestamp,
    period: Duration,
) -> int
    decreases s.len(),
{
    if s.len() == 0 {
        0
    } else {
        burnable_total(s.drop_last(), now, period) + (if !spec_is_within_period(
            s.last().0,
            now,
            period,
        ) {
            s.last().1.total as int
        } else {
            0
        })
    }
}

/// The timestamps of the buckets whose age has reached the burn period, in
/// storage order.
pub open spec fn due_keys(
    s: Seq<(UnixTimestamp, Bucket)>,
    now: UnixTimestamp,
    period: Duration,
) -> Seq<UnixTimestamp>
    decreases s.len(),
{
    if s.len() == 0 {
        Seq::empty()
    } else {
        due_keys(s.drop_last(), now, period) + (if !spec_is_within_period(s.last().0, now, period) {
            seq![s.last().0]
        } else {
            Seq::empty()
        })
    }
}

/// Whether the key list names timestamp `u`.
pub open spec fn keys_contain(s: Seq<UnixTimestamp>, u: UnixTimestamp) -> bool {
    exists|i: int| 0 <= i < s.len() && #[trigger] s[i] == u
}

pub proof fn lemma_burnable_take_step(
    s: Seq<(UnixTimestamp, Bucket)>,
    now: UnixTimestamp,
    period: Duration,
    k: int,
)
    requires
        0 <= k < s.len(),
    ensures
        burnable_total(s.take(k + 1), now, period) == burnable_total(s.take(k), now, period) + (
        if !spec_is_within_period(s[k].0, now, period) {
            s[k].1.total as int
        } else {
            0
        }),
        due_keys(s.take(k + 1), now, period) == due_keys(s.take(k), now, period) + (
        if !spec_is_within_period(s[k].0, now, period) {
            seq![s[k].0]
        } else {
            Seq::<UnixTimestamp>::empty()
        }),
{
    assert(s.take(k + 1).drop_last() =~= s.take(k));
}

pub proof fn lemma_burnable_nonneg(
    s: Seq<(UnixTimestamp, Bucket)>,
    now: UnixTimestamp,
    period: Duration,
)
    ensures
        burnable_total(s, now, period) >= 0,
    decreases s.len(),
{
    if s.len() > 0 {
        lemma_burnable_nonneg(s.drop_last(), now, period);
    }
}

/// The burnable total never exceeds the total held in the whole map.
pub proof fn lemma_burnable_le_seq_total(
    s: Seq<(UnixTimestamp, Bucket)>,
    now: UnixTimestamp,
    period: Duration,
)
    ensures
        burnable_total(s, now, period) <= BucketMap::seq_total(s),
    decreases s.len(),
{
    if s.len() > 0 {
        lemma_burnable_le_seq_total(s.drop_last(), now, period);
    }
}

pub proof fn lemma_burnable_prefix_le(
    s: Seq<(UnixTimestamp, Bucket)>,
    now: UnixTimestamp,
    period: Duration,
    k: int,
)
    requires
        0 <= k <= s.len(),
    ensures
        burnable_total(s.take(k), now, period) <= burnable_total(s, now, period),
    decreases s.len() - k,
{
    if k == s.len() {
        assert(s.take(k) =~= s);
    } else {
        lemma_burnable_take_step(s, now, period, k);
        lemma_burnable_prefix_le(s, now, period, k + 1);
    }
}

pub proof fn lemma_keys_contain_take_step(s: Seq<UnixTimestamp>, u: UnixTimestamp, k: int)
    requires
        0 <= k < s.len(),
    ensures
        keys_contain(s.take(k + 1), u) == (keys_contain(s.take(k), u) || s[k] == u),
{
    if keys_contain(s.take(k + 1), u) {
        let i = choose|i: int| 0 <= i < s.take(k + 1).len() && #[trigger] s.take(k + 1)[i] == u;
        if i < k {
            assert(s.take(k)[i] == u);
        } else {
            assert(s[k] == u);
        }
    }
    if keys_contain(s.take(k), u) {
        let i = choose|i: int| 0 <= i < s.take(k).len() && #[trigger] s.take(k)[i] == u;
        assert(s.take(k + 1)[i] == u);
    }
    if s[k] == u {
        assert(s.take(k + 1)[k] == u);
    }
}

/// Every bucket that has reached the burn period is named by `due_keys`, and
/// everything `due_keys` names has reached it.
pub proof fn lemma_due_keys_complete(
    s: Seq<(UnixTimestamp, Bucket)>,
    now: UnixTimestamp,
    period: Duration,
)
    ensures
        forall|i: int|
            0 <= i < s.len() && !spec_is_within_period((#[trigger] s[i]).0, now, period)
                ==> keys_contain(due_keys(s, now, period), s[i].0),
        forall|u: UnixTimestamp|
            keys_contain(due_keys(s, now, period), u) ==> !spec_is_within_period(u, now, period),
    decreases s.len(),
{
    if s.len() > 0 {
        lemma_due_keys_complete(s.drop_last(), now, period);
        let dl = due_keys(s.drop_last(), now, period);
        let whole = due_keys(s, now, period);
        assert forall|i: int|
            0 <= i < s.len() && !spec_is_within_period((#[trigger] s[i]).0, now, period) implies keys_contain(
            whole,
            s[i].0,
        ) by {
            if i < s.len() - 1 {
                assert(s.drop_last()[i] == s[i]);
                assert(keys_contain(dl, s[i].0));
                let j = choose|j: int| 0 <= j < dl.len() && #[trigger] dl[j] == s[i].0;
                assert(whole[j] == s[i].0);
            } else {
                assert(whole[whole.len() - 1] == s[i].0);
            }
        };
        assert forall|u: UnixTimestamp| keys_contain(whole, u) implies !spec_is_within_period(
            u,
            now,
            period,
        ) by {
            let j = choose|j: int| 0 <= j < whole.len() && #[trigger] whole[j] == u;
            if j < dl.len() {
                assert(dl[j] == u);
            }
        };
    }
}

/// The continuation payload of a burn whose external call is in flight.
pub struct BurnRequest {
    /// The grand total being burnt.
    pub total_to_burn: TokensAmount,
    /// The timestamps of the buckets to remove once the burn is confirmed.
    pub keys_to_remove: Vec<UnixTimestamp>,
}

/// What a burn returns: either a settled zero result, or a request whose
/// external burn call must be confirmed through `on_burn`.
pub enum BurnOutcome {
    Settled(U128),
    Pending(BurnRequest),
}

/// The oldest still-claimable timestamp among `refs`, if any.
pub open spec fn spec_min_claimable(
    refs: Seq<(UnixTimestamp, AccrualIndex)>,
    now: UnixTimestamp,
    period: Duration,
) -> Option<UnixTimestamp>
    decreases refs.len(),
{
    if refs.len() == 0 {
        None
    } else {
        let rest = spec_min_claimable(refs.drop_last(), now, period);
        if spec_is_within_period(refs.last().0, now, period) {
            match rest {
                None => Some(refs.last().0),
                Some(m) => Some(if refs.last().0 < m {
                    refs.last().0
                } else {
                    m
                }),
            }
        } else {
            rest
        }
    }
}

pub proof fn lemma_min_claimable_take_step(
    refs: Seq<(UnixTimestamp, AccrualIndex)>,
    now: UnixTimestamp,
    period: Duration,
    k: int,
)
    requires
        0 <= k < refs.len(),
    ensures
        spec_min_claimable(refs.take(k + 1), now, period) == ({
            let rest = spec_min_claimable(refs.take(k), now, period);
            if spec_is_within_period(refs[k].0, now, period) {
                match rest {
                    None => Some(refs[k].0),
                    Some(m) => Some(
                        if refs[k].0 < m {
                            refs[k].0
                        } else {
                            m
                        },
                    ),
                }
            } else {
                rest
            }
        }),
{
    assert(refs.take(k + 1).drop_last() =~= refs.take(k));
}

impl Contract {
    /// Sweeps the default asset's ledger: sums every bucket whose age has
    /// reached the burn period and, when something is due, hands back the
    /// grand total and the bucket keys as a burn request to be confirmed
    /// through `on_burn`. Only an oracle may do this, and only while no other
    /// service call is running. The scan itself mutates nothing but the
    /// service-call flag.
    pub fn burn(&mut self, caller: &AccountId, now: UnixTimestamp) -> (r: Result<
        BurnOutcome,
        ContractError,
    >)
        requires
            old(self).wf(),
            old(self).times_le(now),
            old(self).accruals.map_total() <= u128::MAX,
        ensures
            final(self).wf(),
            final(self).times_le(now),
            !old(self).spec_is_oracle(caller@) ==> r == Err::<BurnOutcome, ContractError>(
                ContractError::Unauthorized,
            ) && *final(self) == *old(self),
            old(self).spec_is_oracle(caller@) && old(self).is_service_call_running ==> r == Err::<
                BurnOutcome,
                ContractError,
            >(ContractError::AlreadyLocked) && *final(self) == *old(self),
            old(self).spec_is_oracle(caller@) && !old(self).is_service_call_running ==> ({
                let due = burnable_total(old(self).accruals.entries@, now, old(self).burn_period);
                &&& final(self).owner_id == old(self).owner_id
                &&& final(self).token_account_id == old(self).token_account_id
                &&& final(self).assets == old(self).assets
                &&& final(self).oracles == old(self).oracles
                &&& final(self).claim_period == old(self).claim_period
                &&& final(self).burn_period == old(self).burn_period
                &&& final(self).accruals == old(self).accruals
                &&& final(self).extra_accruals == old(self).extra_accruals
                &&& final(self).accounts_legacy == old(self).accounts_legacy
                &&& final(self).accounts == old(self).accounts
                &&& match r {
                    Ok(BurnOutcome::Settled(v)) => {
                        &&& due == 0
                        &&& v.0 == 0
                        &&& !final(self).is_service_call_running
                    },
                    Ok(BurnOutcome::Pending(req)) => {
                        &&& due > 0
                        &&& req.total_to_burn == due
                        &&& req.keys_to_remove@ == due_keys(
                            old(self).accruals.entries@,
                            now,
                            old(self).burn_period,
                        )
                        &&& final(self).is_service_call_running
                    },
                    Err(_) => false,
                }
            }),
    {
        if !self.is_oracle(caller) {
            return Err(ContractError::Unauthorized);
        }
        if self.is_service_call_running {
            return Err(ContractError::AlreadyLocked);
        }
        self.is_service_call_running = true;
        let ghost s = self.accruals.entries@;
        let ghost bp = self.burn_period;
        let n = self.accruals.entries.len();
        let mut total_to_burn: TokensAmount = 0;
        let mut keys_to_remove: Vec<UnixTimestamp> = Vec::new();
        let mut k: usize = 0;
        proof {
            assert(s.take(0) =~= Seq::<(UnixTimestamp, Bucket)>::empty());
            assert(due_keys(s.take(0), now, bp) =~= Seq::<UnixTimestamp>::empty());
        }
        while k < n
            invariant
                self.wf(),
                self.owner_id == old(self).owner_id,
                self.token_account_id == old(self).token_account_id,
                self.assets == old(self).assets,
                self.oracles == old(self).oracles,
                self.claim_period == old(self).claim_period,
                self.burn_period == old(self).burn_period,
                self.accruals == old(self).accruals,
                self.extra_accruals == old(self).extra_accruals,
                self.accounts_legacy == old(self).accounts_legacy,
                self.accounts == old(self).accounts,
                self.is_service_call_running,
                n == s.len(),
                s == self.accruals.entries@,
                bp == self.burn_period,
                k <= n,
                BucketMap::seq_total(s) <= u128::MAX,
                forall|i: int| 0 <= i < n ==> (#[trigger] s[i]).0 <= now,
                total_to_burn == burnable_total(s.take(k as int), now, bp),
                keys_to_remove@ == due_keys(s.take(k as int), now, bp),
            decreases n - k,
        {
            proof {
                lemma_burnable_take_step(s, now, bp, k as int);
                lemma_burnable_prefix_le(s, now, bp, k as int + 1);
                lemma_burnable_le_seq_total(s, now, bp);
                lemma_burnable_nonneg(s.take(k as int), now, bp);
            }
            let ts = self.accruals.entries[k].0;
            if !is_within_period(ts, now, self.burn_period) {
                let b_total = self.accruals.entries[k].1.total;
                total_to_burn = total_to_burn + b_total;
                keys_to_remove.push(ts);
            }
            k = k + 1;
        }
        proof {
            assert(s.take(n as int) =~= s);
        }
        if total_to_burn > 0 {
            Ok(BurnOutcome::Pending(BurnRequest { total_to_burn, keys_to_remove }))
        } else {
            self.is_service_call_running = false;
            Ok(BurnOutcome::Settled(U128(0)))
        }
    }

    /// Settles the callback of a burn's external call. On success every
    /// listed bucket is removed from the default asset's ledger and the
    /// burnt total is reported; on failure the ledger is left untouched.
    /// Either way the service-call flag is cleared.
    pub fn on_burn(&mut self, req: BurnRequest, is_success: bool) -> (r: U128)
        requires
            old(self).wf(),
        ensures
            final(self).wf(),
            !final(self).is_service_call_running,
            final(self).owner_id == old(self).owner_id,
            final(self).token_account_id == old(self).token_account_id,
            final(self).assets == old(self).assets,
            final(self).oracles == old(self).oracles,
            final(self).claim_period == old(self).claim_period,
            final(self).burn_period == old(self).burn_period,
            final(self).extra_accruals == old(self).extra_accruals,
            final(self).accounts_legacy == old(self).accounts_legacy,
            final(self).accounts == old(self).accounts,
            !is_success ==> r.0 == 0 && final(self).accruals == old(self).accruals,
            is_success ==> ({
                &&& r.0 == req.total_to_burn
                &&& forall|u: UnixTimestamp|
                    #[trigger] final(self).accruals.spec_has(u) == (old(self).accruals.spec_has(u)
                        && !keys_contain(req.keys_to_remove@, u))
                &&& forall|u: UnixTimestamp|
                    old(self).accruals.spec_has(u) && !keys_contain(req.keys_to_remove@, u)
                        ==> #[trigger] final(self).accruals.spec_bucket(u) == old(
                        self).accruals.spec_bucket(u)
                &&& forall|n: UnixTimestamp|
                    old(self).accruals.times_le(n) ==> #[trigger] final(self).accruals.times_le(n)
            }),
            forall|n: UnixTimestamp| old(self).times_le(n) ==> #[trigger] final(self).times_le(n),
    {
        self.is_service_call_running = false;
        if !is_success {
            return U128(0);
        }
        let ghost keys = req.keys_to_remove@;
        let ghost m_start = self.accruals;
        let n = req.keys_to_remove.len();
        let mut k: usize = 0;
        proof {
            assert(keys.take(0) =~= Seq::<UnixTimestamp>::empty());
        }
        while k < n
            invariant
                old(self).wf(),
                self.wf(),
                n == keys.len(),
                keys == req.keys_to_remove@,
                k <= n,
                m_start == old(self).accruals,
                !self.is_service_call_running,
                self.owner_id == old(self).owner_id,
                self.token_account_id == old(self).token_account_id,
                self.assets == old(self).assets,
                self.oracles == old(self).oracles,
                self.claim_period == old(self).claim_period,
                self.burn_period == old(self).burn_period,
                self.extra_accruals == old(self).extra_accruals,
                self.accounts_legacy == old(self).accounts_legacy,
                self.accounts == old(self).accounts,
                forall|u: UnixTimestamp|
                    #[trigger] self.accruals.spec_has(u) == (m_start.spec_has(u) && !keys_contain(
                        keys.take(k as int),
                        u,
                    )),
                forall|u: UnixTimestamp|
                    m_start.spec_has(u) && !keys_contain(keys.take(k as int), u)
                        ==> #[trigger] self.accruals.spec_bucket(u) == m_start.spec_bucket(u),
                forall|n2: UnixTimestamp|
                    m_start.times_le(n2) ==> #[trigger] self.accruals.times_le(n2),
            decreases n - k,
        {
            let ghost pre = self.accruals;
            let key = req.keys_to_remove[k];
            self.accruals.remove_key(key);
            proof {
                assert forall|u: UnixTimestamp| #[trigger] self.accruals.spec_has(u) == (
                m_start.spec_has(u) && !keys_contain(keys.take(k as int + 1), u)) by {
                    lemma_keys_contain_take_step(keys, u, k as int);
                };
                assert forall|u: UnixTimestamp|
                    m_start.spec_has(u) && !keys_contain(keys.take(k as int + 1), u) implies #[trigger] self
                    .accruals.spec_bucket(u) == m_start.spec_bucket(u) by {
                    lemma_keys_contain_take_step(keys, u, k as int);
                    assert(u != keys[k as int]);
                    assert(pre.spec_bucket(u) == m_start.spec_bucket(u));
                };
            }
            k = k + 1;
        }
        proof {
            assert(keys.take(n as int) =~= keys);
        }
        U128(req.total_to_burn)
    }

    /// Where `account_id` stands relative to the burn deadline: the oldest of
    /// its default-asset accrual timestamps that is still claimable, its last
    /// claim-period refresh, and the configured burn period.
    pub fn get_burn_status(&self, account_id: &AccountId, now: UnixTimestamp) -> (r: Result<
        BurnStatus,
        ContractError,
    >)
        requires
            self.wf(),
            self.times_le(now),
        ensures
            !self.spec_has_account(account_id@) ==> r == Err::<BurnStatus, ContractError>(
                ContractError::NotFound,
            ),
            self.spec_has_account(account_id@) ==> match r {
                Ok(st) => {
                    &&& st.min_claimable_ts == spec_min_claimable(
                        self.spec_account(account_id@).spec_refs(spec_default_asset()),
                        now,
                        self.burn_period,
                    )
                    &&& st.claim_period_refreshed_at == self.spec_account(
                        account_id@,
                    ).claim_period_refreshed_at
                    &&& st.burn_period == self.burn_period
                },
                Err(_) => false,
            },
    {
        let j = match self.find_account(account_id) {
            None => {
                return Err(ContractError::NotFound);
            },
            Some(j) => j,
        };
        proof {
            self.lemma_account_entry(j as int);
            assert(self.accounts@[j as int].1.spec_record().times_le(now));
        }
        let rec = match &self.accounts[j].1 {
            AccountRecordVersioned::V1(rec) => rec,
        };
        let ghost t = spec_default_asset();
        let mut min_ts: Option<UnixTimestamp> = None;
        match rec.find_asset(&default_asset()) {
            None => {
                proof {
                    assert(rec.spec_refs(t) =~= Seq::<(UnixTimestamp, AccrualIndex)>::empty());
                }
            },
            Some(ja) => {
                proof {
                    rec.lemma_entry(ja as int);
                }
                let refs = &rec.accruals[ja].1;
                let ghost refs_seq = rec.spec_refs(t);
                let rn = refs.len();
                let mut k: usize = 0;
                proof {
                    assert(refs_seq.take(0) =~= Seq::<(UnixTimestamp, AccrualIndex)>::empty());
                }
                while k < rn
                    invariant
                        rn == refs@.len(),
                        refs@ == refs_seq,
                        k <= rn,
                        min_ts == spec_min_claimable(refs_seq.take(k as int), now, self.burn_period),
                        forall|i: int| 0 <= i < rn ==> (#[trigger] refs@[i]).0 <= now,
                    decreases rn - k,
                {
                    proof {
                        lemma_min_claimable_take_step(refs_seq, now, self.burn_period, k as int);
                    }
                    let (ts, _idx) = refs[k];
                    if is_within_period(ts, now, self.burn_period) {
                        min_ts = match min_ts {
                            None => Some(ts),
                            Some(m) => Some(
                                if ts < m {
                                    ts
                                } else {
                                    m
                                },
                            ),
                        };
                    }
                    k = k + 1;
                }
                proof {
                    assert(refs_seq.take(rn as int) =~= refs_seq);
                }
            },
        }
        Ok(
            BurnStatus {
                min_claimable_ts: min_ts,
                claim_period_refreshed_at: rec.claim_period_refreshed_at,
                burn_period: self.burn_period,
            },
        )
    }
}

} // verus!
