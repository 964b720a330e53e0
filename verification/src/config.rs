use vstd::prelude::*;

use crate::Contract;
use crate::types::{AccountId, ContractError, Duration};

verus! {

impl Contract {
    /// Sets the claim period. Only an oracle may do this.
    pub fn set_claim_period(&mut self, caller: &AccountId, period: Duration) -> (r: Result<
        (),
        ContractError,
    >)
        requires
            old(self).wf(),
        ensures
            final(self).wf(),
            !old(self).spec_is_oracle(caller@) ==> r == Err::<(), ContractError>(
                ContractError::Unauthorized,
            ) && *final(self) == *old(self),
            old(self).spec_is_oracle(caller@) ==> r == Ok::<(), ContractError>(()) && final(self).claim_period == period,
            final(self).burn_period == old(self).burn_period,
            final(self).owner_id == old(self).owner_id,
            final(self).token_account_id == old(self).token_account_id,
            final(self).assets == old(self).assets,
            final(self).oracles == old(self).oracles,
            final(self).accruals == old(self).accruals,
            final(self).extra_accruals == old(self).extra_accruals,
            final(self).accounts_legacy == old(self).accounts_legacy,
            final(self).accounts == old(self).accounts,
            final(self).is_service_call_running == old(self).is_service_call_running,
    {
        if !self.is_oracle(caller) {
            return Err(ContractError::Unauthorized);
        }
        self.claim_period = period;
        Ok(())
    }

    /// Sets the burn period. Only an oracle may do this.
    pub fn set_burn_period(&mut self, caller: &AccountId, period: Duration) -> (r: Result<
        (),
        ContractError,
    >)
        requires
            old(self).wf(),
        ensures
            final(self).wf(),
            !old(self).spec_is_oracle(caller@) ==> r == Err::<(), ContractError>(
                ContractError::Unauthorized,
            ) && *final(self) == *old(self),
            old(self).spec_is_oracle(caller@) ==> r == Ok::<(), ContractError>(()) && final(self).burn_period == period,
            final(self).claim_period == old(self).claim_period,
            final(self).owner_id == old(self).owner_id,
            final(self).token_account_id == old(self).token_account_id,
            final(self).assets == old(self).assets,
            final(self).oracles == old(self).oracles,
            final(self).accruals == old(self).accruals,
            final(self).extra_accruals == old(self).extra_accruals,
            final(self).accounts_legacy == old(self).accounts_legacy,
            final(self).accounts == old(self).accounts,
            final(self).is_service_call_running == old(self).is_service_call_running,
    {
        if !self.is_oracle(caller) {
            return Err(ContractError::Unauthorized);
        }
        self.burn_period = period;
        Ok(())
    }
}

} // verus!
