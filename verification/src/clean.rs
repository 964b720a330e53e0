use vstd::prelude::*;

use crate::Contract;
use crate::types::{AccountId, ContractError};

verus! {

/// Whether some element of `s` has the view `id`.
pub open spec fn seq_contains_id(s: Seq<AccountId>, id: Seq<char>) -> bool {
    exists|i: int| 0 <= i < s.len() && (#[trigger] s[i])@ == id
}

/// Extending the prefix by one element extends what it contains by exactly
/// that element.
pub proof fn lemma_contains_take_step(s: Seq<AccountId>, k: int, id: Seq<char>)
    requires
        0 <= k < s.len(),
    ensures
        seq_contains_id(s.take(k + 1), id) == (seq_contains_id(s.take(k), id) || s[k]@ == id),
{
    if seq_contains_id(s.take(k + 1), id) {
        let i = choose|i: int| 0 <= i < s.take(k + 1).len() && (#[trigger] s.take(k + 1)[i])@ == id;
        if i < k {
            assert(s.take(k)[i]@ == id);
        } else {
            assert(s[k]@ == id);
        }
    }
    if seq_contains_id(s.take(k), id) {
        let i = choose|i: int| 0 <= i < s.take(k).len() && (#[trigger] s.take(k)[i])@ == id;
        assert(s.take(k + 1)[i]@ == id);
    }
    if s[k]@ == id {
        assert(s.take(k + 1)[k]@ == id);
    }
}

impl Contract {
    /// Removes the record of `account_id` from the current account store, if
    /// present. Every other record is untouched.
    fn remove_account(&mut self, account_id: &AccountId)
        requires
            old(self).wf(),
        ensures
            final(self).wf(),
            !final(self).spec_has_account(account_id@),
            forall|id: Seq<char>|
                id != account_id@ ==> #[trigger] final(self).spec_has_account(id) == old(
                self).spec_has_account(id),
            forall|id: Seq<char>|
                id != account_id@ && old(self).spec_has_account(id) ==> #[trigger] final(self)
                    .spec_account(id) == old(self).spec_account(id),
            final(self).owner_id == old(self).owner_id,
            final(self).token_account_id == old(self).token_account_id,
            final(self).assets == old(self).assets,
            final(self).oracles == old(self).oracles,
            final(self).claim_period == old(self).claim_period,
            final(self).burn_period == old(self).burn_period,
            final(self).accruals == old(self).accruals,
            final(self).extra_accruals == old(self).extra_accruals,
            final(self).accounts_legacy == old(self).accounts_legacy,
            final(self).is_service_call_running == old(self).is_service_call_running,
    {
        match self.find_account(account_id) {
            None => {},
            Some(k) => {
                let ghost s_old = self.accounts@;
                self.accounts.remove(k);
                proof {
                    let s_new = self.accounts@;
                    assert(s_new =~= s_old.remove(k as int));
                    assert forall|i: int, m: int| 0 <= i < m < s_new.len() implies (
                    #[trigger] s_new[i]).0@ != (#[trigger] s_new[m]).0@ by {
                        let i0: int = if i < k { i } else { i + 1 };
                        let m0: int = if m < k { m } else { m + 1 };
                        assert(s_new[i] == s_old[i0] && s_new[m] == s_old[m0]);
                    };
                    assert forall|i: int, m: int|
                        0 <= i < s_new.len() && 0 <= m < self.accounts_legacy@.len() implies (
                    #[trigger] s_new[i]).0@ != (#[trigger] self.accounts_legacy@[m]).0@ by {
                        let i0: int = if i < k { i } else { i + 1 };
                        assert(s_new[i] == s_old[i0]);
                    };
                    assert forall|i: int| 0 <= i < s_new.len() implies (
                    #[trigger] s_new[i]).1.spec_record().wf() by {
                        let i0: int = if i < k { i } else { i + 1 };
                        assert(s_new[i] == s_old[i0]);
                    };
                    assert(!self.spec_has_account(account_id@)) by {
                        if self.spec_has_account(account_id@) {
                            let i = self.spec_account_index_of(account_id@);
                            let i0: int = if i < k { i } else { i + 1 };
                            assert(s_old[i0].0@ == account_id@);
                            old(self).lemma_account_entry(i0);
                        }
                    };
                    assert forall|id: Seq<char>| id != account_id@ implies #[trigger] final(self)
                        .spec_has_account(id) == old(self).spec_has_account(id) by {
                        if self.spec_has_account(id) {
                            let i = self.spec_account_index_of(id);
                            let i0: int = if i < k { i } else { i + 1 };
                            assert(s_old[i0].0@ == id);
                        }
                        if old(self).spec_has_account(id) {
                            let i0 = old(self).spec_account_index_of(id);
                            assert(s_old[i0].0@ == id);
                            let i: int = if i0 < k { i0 } else { i0 - 1 };
                            assert(s_new[i].0@ == id);
                        }
                    };
                    assert forall|id: Seq<char>|
                        id != account_id@ && old(self).spec_has_account(id) implies #[trigger] final(self)
                        .spec_account(id) == old(self).spec_account(id) by {
                        let i0 = old(self).spec_account_index_of(id);
                        assert(s_old[i0].0@ == id);
                        let i: int = if i0 < k { i0 } else { i0 - 1 };
                        assert(s_new[i] == s_old[i0]);
                        self.lemma_account_entry(i);
                        old(self).lemma_account_entry(i0);
                    };
                }
            },
        }
    }

    /// Removes the legacy record of `account_id`, if present.
    fn remove_legacy(&mut self, account_id: &AccountId)
        requires
            old(self).wf(),
        ensures
            final(self).wf(),
            !final(self).spec_has_legacy(account_id@),
            forall|id: Seq<char>|
                id != account_id@ ==> #[trigger] final(self).spec_has_legacy(id) == old(
                self).spec_has_legacy(id),
            forall|id: Seq<char>|
                id != account_id@ && old(self).spec_has_legacy(id) ==> #[trigger] final(self)
                    .spec_legacy(id) == old(self).spec_legacy(id),
            final(self).owner_id == old(self).owner_id,
            final(self).token_account_id == old(self).token_account_id,
            final(self).assets == old(self).assets,
            final(self).oracles == old(self).oracles,
            final(self).claim_period == old(self).claim_period,
            final(self).burn_period == old(self).burn_period,
            final(self).accruals == old(self).accruals,
            final(self).extra_accruals == old(self).extra_accruals,
            final(self).accounts == old(self).accounts,
            final(self).is_service_call_running == old(self).is_service_call_running,
    {
        match self.find_legacy(account_id) {
            None => {},
            Some(k) => {
                let ghost s_old = self.accounts_legacy@;
                self.accounts_legacy.remove(k);
                proof {
                    let s_new = self.accounts_legacy@;
                    assert(s_new =~= s_old.remove(k as int));
                    assert forall|i: int, m: int| 0 <= i < m < s_new.len() implies (
                    #[trigger] s_new[i]).0@ != (#[trigger] s_new[m]).0@ by {
                        let i0: int = if i < k { i } else { i + 1 };
                        let m0: int = if m < k { m } else { m + 1 };
                        assert(s_new[i] == s_old[i0] && s_new[m] == s_old[m0]);
                    };
                    assert forall|i: int, m: int|
                        0 <= i < self.accounts@.len() && 0 <= m < s_new.len() implies (
                    #[trigger] self.accounts@[i]).0@ != (#[trigger] s_new[m]).0@ by {
                        let m0: int = if m < k { m } else { m + 1 };
                        assert(s_new[m] == s_old[m0]);
                    };
                    assert(!self.spec_has_legacy(account_id@)) by {
                        if self.spec_has_legacy(account_id@) {
                            let i = self.spec_legacy_index_of(account_id@);
                            let i0: int = if i < k { i } else { i + 1 };
                            assert(s_old[i0].0@ == account_id@);
                            old(self).lemma_legacy_entry(i0);
                        }
                    };
                    assert forall|id: Seq<char>| id != account_id@ implies #[trigger] final(self)
                        .spec_has_legacy(id) == old(self).spec_has_legacy(id) by {
                        if self.spec_has_legacy(id) {
                            let i = self.spec_legacy_index_of(id);
                            let i0: int = if i < k { i } else { i + 1 };
                            assert(s_old[i0].0@ == id);
                        }
                        if old(self).spec_has_legacy(id) {
                            let i0 = old(self).spec_legacy_index_of(id);
                            assert(s_old[i0].0@ == id);
                            let i: int = if i0 < k { i0 } else { i0 - 1 };
                            assert(s_new[i].0@ == id);
                        }
                    };
                    assert forall|id: Seq<char>|
                        id != account_id@ && old(self).spec_has_legacy(id) implies #[trigger] final(self)
                        .spec_legacy(id) == old(self).spec_legacy(id) by {
                        let i0 = old(self).spec_legacy_index_of(id);
                        assert(s_old[i0].0@ == id);
                        let i: int = if i0 < k { i0 } else { i0 - 1 };
                        assert(s_new[i] == s_old[i0]);
                        self.lemma_legacy_entry(i);
                        old(self).lemma_legacy_entry(i0);
                    };
                }
            },
        }
    }

    /// Administrative wipe: removes the records of the named accounts, in
    /// both the current and the legacy store. Only an oracle may do this.
    pub fn clean(&mut self, caller: &AccountId, account_ids: &Vec<AccountId>) -> (r: Result<
        (),
        ContractError,
    >)
        requires
            old(self).wf(),
        ensures
            final(self).wf(),
            !old(self).spec_is_oracle(caller@) ==> r == Err::<(), ContractError>(
                ContractError::Unauthorized,
            ) && *final(self) == *old(self),
            old(self).spec_is_oracle(caller@) ==> {
                &&& r == Ok::<(), ContractError>(())
                &&& forall|id: Seq<char>|
                    seq_contains_id(account_ids@, id) ==> !final(self).spec_has_account(id)
                        && !final(self).spec_has_legacy(id)
                &&& forall|id: Seq<char>|
                    !seq_contains_id(account_ids@, id) ==> #[trigger] final(self).spec_has_account(
                        id,
                    ) == old(self).spec_has_account(id) && final(self).spec_has_legacy(id) == old(
                        self,
                    ).spec_has_legacy(id)
                &&& forall|id: Seq<char>|
                    !seq_contains_id(account_ids@, id) && old(self).spec_has_account(id)
                        ==> #[trigger] final(self).spec_account(id) == old(self).spec_account(id)
            },
            final(self).owner_id == old(self).owner_id,
            final(self).token_account_id == old(self).token_account_id,
            final(self).assets == old(self).assets,
            final(self).oracles == old(self).oracles,
            final(self).claim_period == old(self).claim_period,
            final(self).burn_period == old(self).burn_period,
            final(self).accruals == old(self).accruals,
            final(self).extra_accruals == old(self).extra_accruals,
            final(self).is_service_call_running == old(self).is_service_call_running,
    {
        if !self.is_oracle(caller) {
            return Err(ContractError::Unauthorized);
        }
        let n = account_ids.len();
        let mut k: usize = 0;
        while k < n
            invariant
                old(self).wf(),
                self.wf(),
                n == account_ids@.len(),
                k <= n,
                forall|id: Seq<char>|
                    seq_contains_id(account_ids@.take(k as int), id) ==> !self.spec_has_account(id)
                        && !self.spec_has_legacy(id),
                forall|id: Seq<char>|
                    !seq_contains_id(account_ids@.take(k as int), id) ==> #[trigger] self
                        .spec_has_account(id) == old(self).spec_has_account(id)
                        && self.spec_has_legacy(id) == old(self).spec_has_legacy(id),
                forall|id: Seq<char>|
                    !seq_contains_id(account_ids@.take(k as int), id) && old(
                        self,
                    ).spec_has_account(id) ==> #[trigger] self.spec_account(id) == old(
                        self,
                    ).spec_account(id),
                self.owner_id == old(self).owner_id,
                self.token_account_id == old(self).token_account_id,
                self.assets == old(self).assets,
                self.oracles == old(self).oracles,
                self.claim_period == old(self).claim_period,
                self.burn_period == old(self).burn_period,
                self.accruals == old(self).accruals,
                self.extra_accruals == old(self).extra_accruals,
                self.is_service_call_running == old(self).is_service_call_running,
            decreases n - k,
        {
            let ghost pre = *self;
            let id = &account_ids[k];
            self.remove_account(id);
            let ghost mid = *self;
            self.remove_legacy(id);
            proof {
                assert(self.accounts == mid.accounts);
                assert(mid.accounts_legacy == pre.accounts_legacy);
                assert forall|x: Seq<char>|
                    seq_contains_id(account_ids@.take(k as int + 1), x) implies !self
                    .spec_has_account(x) && !self.spec_has_legacy(x) by {
                    lemma_contains_take_step(account_ids@, k as int, x);
                    if x == id@ {
                        assert(!mid.spec_has_account(x));
                        assert(self.spec_has_account(x) == mid.spec_has_account(x));
                    } else {
                        assert(seq_contains_id(account_ids@.take(k as int), x));
                        assert(!pre.spec_has_account(x) && !pre.spec_has_legacy(x));
                        assert(mid.spec_has_account(x) == pre.spec_has_account(x));
                        assert(self.spec_has_account(x) == mid.spec_has_account(x));
                        assert(mid.spec_has_legacy(x) == pre.spec_has_legacy(x));
                        assert(self.spec_has_legacy(x) == mid.spec_has_legacy(x));
                    }
                };
                assert forall|x: Seq<char>|
                    !seq_contains_id(account_ids@.take(k as int + 1), x) implies #[trigger] self
                    .spec_has_account(x) == old(self).spec_has_account(x) && self.spec_has_legacy(
                    x,
                ) == old(self).spec_has_legacy(x) by {
                    lemma_contains_take_step(account_ids@, k as int, x);
                    assert(x != id@);
                    assert(mid.spec_has_account(x) == pre.spec_has_account(x));
                    assert(self.spec_has_account(x) == mid.spec_has_account(x));
                    assert(mid.spec_has_legacy(x) == pre.spec_has_legacy(x));
                    assert(self.spec_has_legacy(x) == mid.spec_has_legacy(x));
                };
                assert forall|x: Seq<char>|
                    !seq_contains_id(account_ids@.take(k as int + 1), x) && old(
                        self,
                    ).spec_has_account(x) implies #[trigger] self.spec_account(x) == old(
                    self).spec_account(x) by {
                    lemma_contains_take_step(account_ids@, k as int, x);
                    assert(x != id@);
                    assert(pre.spec_has_account(x));
                    assert(mid.spec_has_account(x) == pre.spec_has_account(x));
                    assert(mid.spec_account(x) == pre.spec_account(x));
                    assert(self.spec_has_account(x) == mid.spec_has_account(x));
                    assert(self.spec_account(x) == mid.spec_account(x));
                };
            }
            k = k + 1;
        }
        proof {
            assert(account_ids@.take(n as int) =~= account_ids@);
        }
        Ok(())
    }
}

} // verus!
