use vstd::prelude::*;

use crate::Contract;
use crate::buckets::BucketMap;
use crate::types::{AccountId, Asset, ContractError, account_eq, asset_eq, default_asset, spec_default_asset};

verus! {

impl Contract {
    /// The registered service endpoint of `asset`; meaningful only when
    /// `spec_has_endpoint(asset)`.
    pub open spec fn spec_endpoint(self, asset: Seq<char>) -> Seq<char> {
        self.assets@[self.spec_endpoint_index_of(asset)].1@
    }

    /// Position of `asset` in the endpoint registry, if registered there.
    pub(crate) fn find_endpoint(&self, asset: &Asset) -> (r: Option<usize>)
        ensures
            match r {
                Some(j) => j < self.assets@.len() && self.assets@[j as int].0@ == asset@,
                None => !self.spec_has_endpoint(asset@),
            },
    {
        let n = self.assets.len();
        let mut k: usize = 0;
        while k < n
            invariant
                n == self.assets@.len(),
                k <= n,
                forall|i: int| 0 <= i < k ==> (#[trigger] self.assets@[i]).0@ != asset@,
            decreases n - k,
        {
            if asset_eq(&self.assets[k].0, asset) {
                return Some(k);
            }
            k = k + 1;
        }
        None
    }

    /// Position of `asset` among the extra bucket stores, if present.
    pub fn find_extra(&self, asset: &Asset) -> (r: Option<usize>)
        ensures
            match r {
                Some(j) => j < self.extra_accruals@.len() && self.extra_accruals@[j as int].0@
                    == asset@,
                None => !self.spec_has_extra(asset@),
            },
    {
        let n = self.extra_accruals.len();
        let mut k: usize = 0;
        while k < n
            invariant
                n == self.extra_accruals@.len(),
                k <= n,
                forall|i: int| 0 <= i < k ==> (#[trigger] self.extra_accruals@[i]).0@ != asset@,
            decreases n - k,
        {
            if asset_eq(&self.extra_accruals[k].0, asset) {
                return Some(k);
            }
            k = k + 1;
        }
        None
    }

    /// Registers `asset` with its service endpoint and gives it a fresh,
    /// empty bucket store; registering an asset anew resets its endpoint and
    /// its buckets. Only an oracle may do this.
    pub fn register_asset(&mut self, caller: &AccountId, asset: Asset, contract_id: AccountId) -> (r:
        Result<(), ContractError>)
        requires
            old(self).wf(),
        ensures
            final(self).wf(),
            !old(self).spec_is_oracle(caller@) ==> r == Err::<(), ContractError>(
                ContractError::Unauthorized,
            ) && *final(self) == *old(self),
            old(self).spec_is_oracle(caller@) ==> {
                &&& r == Ok::<(), ContractError>(())
                &&& final(self).spec_has_endpoint(asset@)
                &&& final(self).spec_endpoint(asset@) == contract_id@
                &&& final(self).spec_has_extra(asset@)
                &&& final(self).spec_registered(asset@)
                &&& asset@ != spec_default_asset() ==> final(self).spec_buckets(
                    asset@,
                ).entries@.len() == 0
                &&& forall|a: Seq<char>|
                    a != asset@ ==> #[trigger] final(self).spec_has_endpoint(a) == old(
                    self).spec_has_endpoint(a)
                &&& forall|a: Seq<char>|
                    a != asset@ && old(self).spec_has_endpoint(a) ==> #[trigger] final(
                    self).spec_endpoint(a) == old(self).spec_endpoint(a)
                &&& forall|a: Seq<char>|
                    a != asset@ ==> #[trigger] final(self).spec_has_extra(a) == old(
                    self).spec_has_extra(a)
                &&& forall|a: Seq<char>|
                    a != asset@ && old(self).spec_registered(a) ==> #[trigger] final(
                    self).spec_buckets(a) == old(self).spec_buckets(a)
            },
            final(self).owner_id == old(self).owner_id,
            final(self).token_account_id == old(self).token_account_id,
            final(self).oracles == old(self).oracles,
            final(self).claim_period == old(self).claim_period,
            final(self).burn_period == old(self).burn_period,
            final(self).accruals == old(self).accruals,
            final(self).accounts_legacy == old(self).accounts_legacy,
            final(self).accounts == old(self).accounts,
            final(self).is_service_call_running == old(self).is_service_call_running,
    {
        if !self.is_oracle(caller) {
            return Err(ContractError::Unauthorized);
        }
        match self.find_endpoint(&asset) {
            Some(j) => {
                proof {
                    self.lemma_endpoint_entry(j as int);
                }
                let entry = &mut self.assets[j];
                entry.1 = contract_id;
                proof {
                    let s_old = old(self).assets@;
                    let s_new = self.assets@;
                    assert(s_new =~= s_old.update(j as int, (s_old[j as int].0, self.assets@[j as int].1)));
                    assert forall|i: int, m: int| 0 <= i < m < s_new.len() implies (
                    #[trigger] s_new[i]).0@ != (#[trigger] s_new[m]).0@ by {
                        assert(s_new[i].0 == s_old[i].0 && s_new[m].0 == s_old[m].0);
                    };
                    self.lemma_endpoint_entry(j as int);
                    assert forall|a: Seq<char>| a != asset@ implies #[trigger] self.spec_has_endpoint(a)
                        == old(self).spec_has_endpoint(a) by {
                        if self.spec_has_endpoint(a) {
                            let i = self.spec_endpoint_index_of(a);
                            assert(s_old[i].0@ == a);
                        }
                        if old(self).spec_has_endpoint(a) {
                            let i = old(self).spec_endpoint_index_of(a);
                            assert(s_new[i].0@ == a);
                        }
                    };
                    assert forall|a: Seq<char>|
                        a != asset@ && old(self).spec_has_endpoint(a) implies #[trigger] self
                        .spec_endpoint(a) == old(self).spec_endpoint(a) by {
                        let i = old(self).spec_endpoint_index_of(a);
                        assert(s_old[i].0@ == a);
                        assert(s_new[i] == s_old[i]);
                        self.lemma_endpoint_entry(i);
                        old(self).lemma_endpoint_entry(i);
                    };
                }
            },
            None => {
                let ghost s_old = self.assets@;
                self.assets.push((asset.clone(), contract_id));
                proof {
                    let s_new = self.assets@;
                    let j = s_new.len() - 1;
                    assert(s_new.drop_last() =~= s_old);
                    assert forall|i: int, m: int| 0 <= i < m < s_new.len() implies (
                    #[trigger] s_new[i]).0@ != (#[trigger] s_new[m]).0@ by {
                        if m < j {
                            assert(s_new[i] == s_old[i] && s_new[m] == s_old[m]);
                        } else {
                            assert(s_new[i] == s_old[i]);
                        }
                    };
                    self.lemma_endpoint_entry(j);
                    assert forall|a: Seq<char>| a != asset@ implies #[trigger] self.spec_has_endpoint(a)
                        == old(self).spec_has_endpoint(a) by {
                        if self.spec_has_endpoint(a) {
                            let i = self.spec_endpoint_index_of(a);
                            if i != j {
                                assert(s_old[i].0@ == a);
                            }
                        }
                        if old(self).spec_has_endpoint(a) {
                            let i = old(self).spec_endpoint_index_of(a);
                            assert(s_new[i].0@ == a);
                        }
                    };
                    assert forall|a: Seq<char>|
                        a != asset@ && old(self).spec_has_endpoint(a) implies #[trigger] self
                        .spec_endpoint(a) == old(self).spec_endpoint(a) by {
                        let i = old(self).spec_endpoint_index_of(a);
                        assert(s_old[i].0@ == a);
                        assert(s_new[i] == s_old[i]);
                        self.lemma_endpoint_entry(i);
                        old(self).lemma_endpoint_entry(i);
                    };
                }
            },
        }
        let ghost mid = *self;
        match self.find_extra(&asset) {
            Some(j) => {
                proof {
                    self.lemma_extra_entry(j as int);
                }
                let entry = &mut self.extra_accruals[j];
                entry.1 = BucketMap { entries: Vec::new() };
                proof {
                    let s_old = mid.extra_accruals@;
                    let s_new = self.extra_accruals@;
                    assert(s_new =~= s_old.update(j as int, (s_old[j as int].0, self.extra_accruals@[j as int].1)));
                    assert forall|i: int, m: int| 0 <= i < m < s_new.len() implies (
                    #[trigger] s_new[i]).0@ != (#[trigger] s_new[m]).0@ by {
                        assert(s_new[i].0 == s_old[i].0 && s_new[m].0 == s_old[m].0);
                    };
                    self.lemma_extra_entry(j as int);
                    assert forall|a: Seq<char>| a != asset@ implies #[trigger] self.spec_has_extra(a)
                        == mid.spec_has_extra(a) by {
                        if self.spec_has_extra(a) {
                            let i = self.spec_extra_index_of(a);
                            assert(s_old[i].0@ == a);
                        }
                        if mid.spec_has_extra(a) {
                            let i = mid.spec_extra_index_of(a);
                            assert(s_new[i].0@ == a);
                        }
                    };
                    assert forall|a: Seq<char>|
                        a != asset@ && mid.spec_registered(a) implies #[trigger] self.spec_buckets(
                        a,
                    ) == mid.spec_buckets(a) by {
                        if a != spec_default_asset() {
                            let i = mid.spec_extra_index_of(a);
                            assert(s_old[i].0@ == a);
                            assert(s_new[i] == s_old[i]);
                            self.lemma_extra_entry(i);
                            mid.lemma_extra_entry(i);
                        }
                    };
                }
            },
            None => {
                let ghost s_old = self.extra_accruals@;
                self.extra_accruals.push((asset, BucketMap { entries: Vec::new() }));
                proof {
                    let s_new = self.extra_accruals@;
                    let j = s_new.len() - 1;
                    assert(s_new.drop_last() =~= s_old);
                    assert forall|i: int, m: int| 0 <= i < m < s_new.len() implies (
                    #[trigger] s_new[i]).0@ != (#[trigger] s_new[m]).0@ by {
                        if m < j {
                            assert(s_new[i] == s_old[i] && s_new[m] == s_old[m]);
                        } else {
                            assert(s_new[i] == s_old[i]);
                        }
                    };
                    self.lemma_extra_entry(j);
                    assert forall|a: Seq<char>| a != asset@ implies #[trigger] self.spec_has_extra(a)
                        == mid.spec_has_extra(a) by {
                        if self.spec_has_extra(a) {
                            let i = self.spec_extra_index_of(a);
                            if i != j {
                                assert(s_old[i].0@ == a);
                            }
                        }
                        if mid.spec_has_extra(a) {
                            let i = mid.spec_extra_index_of(a);
                            assert(s_new[i].0@ == a);
                        }
                    };
                    assert forall|a: Seq<char>|
                        a != asset@ && mid.spec_registered(a) implies #[trigger] self.spec_buckets(
                        a,
                    ) == mid.spec_buckets(a) by {
                        if a != spec_default_asset() {
                            let i = mid.spec_extra_index_of(a);
                            assert(s_old[i].0@ == a);
                            assert(s_new[i] == s_old[i]);
                            self.lemma_extra_entry(i);
                            mid.lemma_extra_entry(i);
                        }
                    };
                }
            },
        }
        proof {
            Contract::lemma_endpoints_transport(mid, *self);
            Contract::lemma_buckets_transport(*old(self), mid);
        }
        Ok(())
    }

    /// The registered extra assets with their endpoints, in registration
    /// order.
    pub fn get_assets(&self) -> (r: Vec<(Asset, AccountId)>)
        ensures
            r@.len() == self.assets@.len(),
            forall|i: int|
                0 <= i < r@.len() ==> (#[trigger] r@[i]).0@ == self.assets@[i].0@ && r@[i].1@
                    == self.assets@[i].1@,
    {
        let n = self.assets.len();
        let mut out: Vec<(Asset, AccountId)> = Vec::new();
        let mut k: usize = 0;
        while k < n
            invariant
                n == self.assets@.len(),
                k <= n,
                out@.len() == k,
                forall|i: int|
                    0 <= i < k ==> (#[trigger] out@[i]).0@ == self.assets@[i].0@ && out@[i].1@
                        == self.assets@[i].1@,
            decreases n - k,
        {
            out.push((self.assets[k].0.clone(), self.assets[k].1.clone()));
            k = k + 1;
        }
        out
    }

    /// The service endpoint the transfer for `asset` must be sent to: the
    /// default token contract for the default asset, the registered endpoint
    /// for an extra asset, and nothing for an unknown asset.
    pub fn get_token_account_id(&self, asset: &Asset) -> (r: Option<AccountId>)
        requires
            self.wf(),
        ensures
            match r {
                Some(a) => (asset@ == spec_default_asset() && a@ == self.token_account_id@) || (
                asset@ != spec_default_asset() && self.spec_has_endpoint(asset@) && a@
                    == self.spec_endpoint(asset@)),
                None => asset@ != spec_default_asset() && !self.spec_has_endpoint(asset@),
            },
    {
        let def = default_asset();
        if asset_eq(asset, &def) {
            return Some(self.token_account_id.clone());
        }
        match self.find_endpoint(asset) {
            Some(j) => {
                proof {
                    self.lemma_endpoint_entry(j as int);
                }
                Some(self.assets[j].1.clone())
            },
            None => None,
        }
    }

    /// The asset served by the token contract `account_id`, if one is
    /// registered for it. Used to route incoming token transfers.
    pub fn get_asset_for_account(&self, account_id: &AccountId) -> (r: Option<Asset>)
        ensures
            match r {
                Some(a) => exists|i: int|
                    0 <= i < self.assets@.len() && (#[trigger] self.assets@[i]).0@ == a@
                        && self.assets@[i].1@ == account_id@,
                None => forall|i: int|
                    0 <= i < self.assets@.len() ==> (#[trigger] self.assets@[i]).1@ != account_id@,
            },
    {
        let n = self.assets.len();
        let mut k: usize = 0;
        while k < n
            invariant
                n == self.assets@.len(),
                k <= n,
                forall|i: int| 0 <= i < k ==> (#[trigger] self.assets@[i]).1@ != account_id@,
            decreases n - k,
        {
            if account_eq(&self.assets[k].1, account_id) {
                return Some(self.assets[k].0.clone());
            }
            k = k + 1;
        }
        None
    }
}

} // verus!
