use vstd::prelude::*;

use crate::Contract;
use crate::account::AccountRecordLegacy;
use crate::buckets::BucketMap;
use crate::types::{AccountId, Duration};

verus! {

/// The legacy top-level schema: a single asset, participant records in the
/// legacy shape, and no asset registry.
pub struct ContractLegacy {
    pub token_account_id: AccountId,
    pub oracles: Vec<AccountId>,
    pub claim_period: Duration,
    pub burn_period: Duration,
    pub accruals: BucketMap,
    pub accounts: Vec<(AccountId, AccountRecordLegacy)>,
    pub is_service_call_running: bool,
}

impl ContractLegacy {
    /// The legacy schema's own well-formedness: unique keys and intact
    /// buckets.
    pub open spec fn wf(self) -> bool {
        &&& forall|i: int, j: int|
            0 <= i < j < self.accounts@.len() ==> (#[trigger] self.accounts@[i]).0@ != (
            #[trigger] self.accounts@[j]).0@
        &&& forall|i: int, j: int|
            0 <= i < j < self.oracles@.len() ==> (#[trigger] self.oracles@[i])@ != (
            #[trigger] self.oracles@[j])@
        &&& self.accruals.wf()
    }
}

impl Contract {
    /// One-time upgrade of the top-level schema: the old single-asset state
    /// is carried over unchanged, the old participant records become the
    /// legacy store (to be upgraded one at a time on first touch), and the
    /// multi-asset containers start empty.
    pub fn migrate(owner_id: AccountId, old_state: ContractLegacy) -> (r: Contract)
        requires
            old_state.wf(),
        ensures
            r.wf(),
            r.owner_id == owner_id,
            r.token_account_id == old_state.token_account_id,
            r.assets@.len() == 0,
            r.oracles == old_state.oracles,
            r.claim_period == old_state.claim_period,
            r.burn_period == old_state.burn_period,
            r.accruals == old_state.accruals,
            r.extra_accruals@.len() == 0,
            r.accounts_legacy == old_state.accounts,
            r.accounts@.len() == 0,
            r.is_service_call_running == old_state.is_service_call_running,
    {
        Contract {
            owner_id,
            token_account_id: old_state.token_account_id,
            assets: Vec::new(),
            oracles: old_state.oracles,
            claim_period: old_state.claim_period,
            burn_period: old_state.burn_period,
            accruals: old_state.accruals,
            extra_accruals: Vec::new(),
            accounts_legacy: old_state.accounts,
            accounts: Vec::new(),
            is_service_call_running: old_state.is_service_call_running,
        }
    }
}

} // verus!
