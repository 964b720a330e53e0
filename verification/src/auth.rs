use vstd::prelude::*;

use crate::Contract;
use crate::types::{AccountId, ContractError, account_eq};

verus! {

impl Contract {
    /// Registers a new oracle. Only the contract's own account may do this,
    /// and an already registered oracle is refused.
    pub fn add_oracle(&mut self, caller: &AccountId, account_id: AccountId) -> (r: Result<
        (),
        ContractError,
    >)
        requires
            old(self).wf(),
        ensures
            final(self).wf(),
            caller@ != old(self).owner_id@ ==> r == Err::<(), ContractError>(
                ContractError::Unauthorized,
            ) && *final(self) == *old(self),
            caller@ == old(self).owner_id@ && old(self).spec_is_oracle(account_id@) ==> r == Err::<
                (),
                ContractError,
            >(ContractError::AlreadyExists) && *final(self) == *old(self),
            caller@ == old(self).owner_id@ && !old(self).spec_is_oracle(account_id@) ==> {
                &&& r == Ok::<(), ContractError>(())
                &&& final(self).oracles@ == old(self).oracles@.push(account_id)
                &&& final(self).spec_is_oracle(account_id@)
            },
            final(self).owner_id == old(self).owner_id,
            final(self).token_account_id == old(self).token_account_id,
            final(self).assets == old(self).assets,
            final(self).claim_period == old(self).claim_period,
            final(self).burn_period == old(self).burn_period,
            final(self).accruals == old(self).accruals,
            final(self).extra_accruals == old(self).extra_accruals,
            final(self).accounts_legacy == old(self).accounts_legacy,
            final(self).accounts == old(self).accounts,
            final(self).is_service_call_running == old(self).is_service_call_running,
            forall|id: Seq<char>|
                id != account_id@ ==> #[trigger] final(self).spec_is_oracle(id) == old(
                self).spec_is_oracle(id),
    {
        if !account_eq(caller, &self.owner_id) {
            return Err(ContractError::Unauthorized);
        }
        if self.is_oracle(&account_id) {
            return Err(ContractError::AlreadyExists);
        }
        self.oracles.push(account_id);
        proof {
            let s_old = old(self).oracles@;
            let s_new = self.oracles@;
            let j = s_new.len() - 1;
            assert(s_new.drop_last() =~= s_old);
            assert(s_new[j]@ == account_id@);
            assert(self.spec_is_oracle(account_id@));
            assert forall|i: int, k: int| 0 <= i < k < s_new.len() implies (
            #[trigger] s_new[i])@ != (#[trigger] s_new[k])@ by {
                if k < j {
                    assert(s_new[i] == s_old[i] && s_new[k] == s_old[k]);
                } else {
                    assert(s_new[i] == s_old[i]);
                }
            };
            assert forall|id: Seq<char>| id != s_new[j]@ implies #[trigger] final(self).spec_is_oracle(
                id,
            ) == old(self).spec_is_oracle(id) by {
                if self.spec_is_oracle(id) {
                    let i = choose|i: int| 0 <= i < s_new.len() && (#[trigger] s_new[i])@ == id;
                    assert(s_old[i]@ == id);
                }
                if old(self).spec_is_oracle(id) {
                    let i = choose|i: int| 0 <= i < s_old.len() && (#[trigger] s_old[i])@ == id;
                    assert(s_new[i]@ == id);
                }
            };
        }
        Ok(())
    }

    /// Revokes an oracle. Only the contract's own account may do this, and an
    /// unknown oracle is refused.
    pub fn remove_oracle(&mut self, caller: &AccountId, account_id: &AccountId) -> (r: Result<
        (),
        ContractError,
    >)
        requires
            old(self).wf(),
        ensures
            final(self).wf(),
            caller@ != old(self).owner_id@ ==> r == Err::<(), ContractError>(
                ContractError::Unauthorized,
            ) && *final(self) == *old(self),
            caller@ == old(self).owner_id@ && !old(self).spec_is_oracle(account_id@) ==> r == Err::<
                (),
                ContractError,
            >(ContractError::NotFound) && *final(self) == *old(self),
            caller@ == old(self).owner_id@ && old(self).spec_is_oracle(account_id@) ==> {
                &&& r == Ok::<(), ContractError>(())
                &&& !final(self).spec_is_oracle(account_id@)
            },
            final(self).owner_id == old(self).owner_id,
            final(self).token_account_id == old(self).token_account_id,
            final(self).assets == old(self).assets,
            final(self).claim_period == old(self).claim_period,
            final(self).burn_period == old(self).burn_period,
            final(self).accruals == old(self).accruals,
            final(self).extra_accruals == old(self).extra_accruals,
            final(self).accounts_legacy == old(self).accounts_legacy,
            final(self).accounts == old(self).accounts,
            final(self).is_service_call_running == old(self).is_service_call_running,
            forall|id: Seq<char>|
                id != account_id@ ==> #[trigger] final(self).spec_is_oracle(id) == old(
                self).spec_is_oracle(id),
    {
        if !account_eq(caller, &self.owner_id) {
            return Err(ContractError::Unauthorized);
        }
        match self.find_oracle(account_id) {
            None => Err(ContractError::NotFound),
            Some(k) => {
                let ghost s_old = self.oracles@;
                proof {
                    assert(self.spec_is_oracle(account_id@));
                }
                self.oracles.remove(k);
                proof {
                    let s_new = self.oracles@;
                    assert(s_new =~= s_old.remove(k as int));
                    assert forall|i: int, m: int| 0 <= i < m < s_new.len() implies (
                    #[trigger] s_new[i])@ != (#[trigger] s_new[m])@ by {
                        let i0: int = if i < k { i } else { i + 1 };
                        let m0: int = if m < k { m } else { m + 1 };
                        assert(s_new[i] == s_old[i0] && s_new[m] == s_old[m0]);
                    };
                    assert(!self.spec_is_oracle(account_id@)) by {
                        if self.spec_is_oracle(account_id@) {
                            let i = choose|i: int|
                                0 <= i < s_new.len() && (#[trigger] s_new[i])@ == account_id@;
                            let i0: int = if i < k { i } else { i + 1 };
                            assert(s_old[i0]@ == account_id@);
                            if i0 < k as int {
                                assert(s_old[i0]@ != s_old[k as int]@);
                            } else if i0 > k as int {
                                assert(s_old[k as int]@ != s_old[i0]@);
                            }
                        }
                    };
                    assert forall|id: Seq<char>| id != account_id@ implies #[trigger] final(self)
                        .spec_is_oracle(id) == old(self).spec_is_oracle(id) by {
                        if self.spec_is_oracle(id) {
                            let i = choose|i: int|
                                0 <= i < s_new.len() && (#[trigger] s_new[i])@ == id;
                            let i0: int = if i < k { i } else { i + 1 };
                            assert(s_old[i0]@ == id);
                        }
                        if old(self).spec_is_oracle(id) {
                            let i0 = choose|i: int|
                                0 <= i < s_old.len() && (#[trigger] s_old[i])@ == id;
                            let i: int = if i0 < k { i0 } else { i0 - 1 };
                            assert(s_new[i]@ == id);
                        }
                    };
                }
                Ok(())
            },
        }
    }

    /// Position of `id` among the oracles, if registered.
    fn find_oracle(&self, id: &AccountId) -> (r: Option<usize>)
        ensures
            match r {
                Some(j) => j < self.oracles@.len() && self.oracles@[j as int]@ == id@,
                None => !self.spec_is_oracle(id@),
            },
    {
        let n = self.oracles.len();
        let mut k: usize = 0;
        while k < n
            invariant
                n == self.oracles@.len(),
                k <= n,
                forall|i: int| 0 <= i < k ==> (#[trigger] self.oracles@[i])@ != id@,
            decreases n - k,
        {
            if account_eq(&self.oracles[k], id) {
                return Some(k);
            }
            k = k + 1;
        }
        None
    }

    /// The registered oracles, in registration order.
    pub fn get_oracles(&self) -> (r: Vec<AccountId>)
        ensures
            r@.len() == self.oracles@.len(),
            forall|i: int| 0 <= i < r@.len() ==> #[trigger] r@[i] == self.oracles@[i],
    {
        let n = self.oracles.len();
        let mut out: Vec<AccountId> = Vec::new();
        let mut k: usize = 0;
        while k < n
            invariant
                n == self.oracles@.len(),
                k <= n,
                out@.len() == k,
                forall|i: int| 0 <= i < k ==> #[trigger] out@[i] == self.oracles@[i],
            decreases n - k,
        {
            out.push(self.oracles[k].clone());
            k = k + 1;
        }
        out
    }
}

} // verus!
