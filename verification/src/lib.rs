use vstd::prelude::*;

pub mod account;
pub mod assets;
pub mod auth;
pub mod burn;
pub mod claim;
pub mod claim_all;
pub mod clean;
pub mod config;
pub mod buckets;
pub mod laws;
pub mod migration;
pub mod record;
pub mod sum;
pub mod types;

use crate::account::{AccountRecord, AccountRecordLegacy, AccountRecordVersioned};
use crate::buckets::{BucketMap, claimable_from};
use crate::types::{
    AccountId, Asset, Duration, TokensAmount, UnixTimestamp, account_eq, spec_default_asset,
};

verus! {

/// How long a fresh or freshly claimed account waits before the next claim.
pub const INITIAL_CLAIM_PERIOD: Duration = 24 * 60 * 60;

/// Age from which unclaimed entries are no longer claimable and may be burnt.
pub const INITIAL_BURN_PERIOD: Duration = 30 * 24 * 60 * 60;

/// The accrual ledger and settlement engine: time-bucketed accrual storage per
/// asset, per-participant reference tracking, and the configuration that
/// drives claim and burn eligibility.
///
/// Callers pass in the identity of the caller and the current time; the
/// engine itself performs no input or output. An operation that depends on an
/// external transfer returns a request value; the confirmation of that
/// transfer is handed back to the matching callback function.
pub struct Contract {
    /// The account the contract itself is deployed to; only this identity may
    /// manage oracles.
    pub owner_id: AccountId,
    /// Endpoint of the value-transfer service of the default asset.
    pub token_account_id: AccountId,
    /// Registered extra assets and their service endpoints.
    pub assets: Vec<(Asset, AccountId)>,
    /// Identities allowed to record accruals and to trigger burns.
    pub oracles: Vec<AccountId>,
    /// Seconds an account waits after a refresh before it may claim.
    pub claim_period: Duration,
    /// Age in seconds from which an unclaimed entry is left to the burn sweep.
    pub burn_period: Duration,
    /// Accrual buckets of the default asset, keyed by recording timestamp.
    pub accruals: BucketMap,
    /// Accrual buckets of every registered extra asset.
    pub extra_accruals: Vec<(Asset, BucketMap)>,
    /// Participant records still in the legacy shape; upgraded on first touch.
    pub accounts_legacy: Vec<(AccountId, AccountRecordLegacy)>,
    /// Participant records in the current, versioned shape.
    pub accounts: Vec<(AccountId, AccountRecordVersioned)>,
    /// Set while a burn's external call is in flight.
    pub is_service_call_running: bool,
}

impl Contract {
    pub open spec fn spec_has_account(self, id: Seq<char>) -> bool {
        exists|i: int| 0 <= i < self.accounts@.len() && (#[trigger] self.accounts@[i]).0@ == id
    }

    pub open spec fn spec_account_index_of(self, id: Seq<char>) -> int {
        choose|i: int| 0 <= i < self.accounts@.len() && (#[trigger] self.accounts@[i]).0@ == id
    }

    /// The current-shape record of the account; meaningful only when
    /// `spec_has_account(id)`.
    pub open spec fn spec_account(self, id: Seq<char>) -> AccountRecord {
        self.accounts@[self.spec_account_index_of(id)].1.spec_record()
    }

    pub open spec fn spec_has_legacy(self, id: Seq<char>) -> bool {
        exists|i: int|
            0 <= i < self.accounts_legacy@.len() && (#[trigger] self.accounts_legacy@[i]).0@ == id
    }

    pub open spec fn spec_legacy_index_of(self, id: Seq<char>) -> int {
        choose|i: int|
            0 <= i < self.accounts_legacy@.len() && (#[trigger] self.accounts_legacy@[i]).0@ == id
    }

    pub open spec fn spec_legacy(self, id: Seq<char>) -> AccountRecordLegacy {
        self.accounts_legacy@[self.spec_legacy_index_of(id)].1
    }

    pub open spec fn spec_is_oracle(self, id: Seq<char>) -> bool {
        exists|i: int| 0 <= i < self.oracles@.len() && (#[trigger] self.oracles@[i])@ == id
    }

    pub open spec fn spec_has_extra(self, asset: Seq<char>) -> bool {
        exists|i: int|
            0 <= i < self.extra_accruals@.len() && (#[trigger] self.extra_accruals@[i]).0@ == asset
    }

    pub open spec fn spec_extra_index_of(self, asset: Seq<char>) -> int {
        choose|i: int|
            0 <= i < self.extra_accruals@.len() && (#[trigger] self.extra_accruals@[i]).0@ == asset
    }

    /// An asset the engine can serve: the default asset, or a registered
    /// extra asset.
    pub open spec fn spec_registered(self, asset: Seq<char>) -> bool {
        asset == spec_default_asset() || self.spec_has_extra(asset)
    }

    /// The bucket store of `asset`; meaningful only when registered.
    pub open spec fn spec_buckets(self, asset: Seq<char>) -> BucketMap {
        if asset == spec_default_asset() {
            self.accruals
        } else {
            self.extra_accruals@[self.spec_extra_index_of(asset)].1
        }
    }

    pub open spec fn spec_has_endpoint(self, asset: Seq<char>) -> bool {
        exists|i: int| 0 <= i < self.assets@.len() && (#[trigger] self.assets@[i]).0@ == asset
    }

    pub open spec fn spec_endpoint_index_of(self, asset: Seq<char>) -> int {
        choose|i: int| 0 <= i < self.assets@.len() && (#[trigger] self.assets@[i]).0@ == asset
    }

    /// What `account` can claim of `asset` at `now`: the sum of the amounts
    /// its references resolve to, skipping entries older than the burn period.
    pub open spec fn claimable(self, account: Seq<char>, asset: Seq<char>, now: UnixTimestamp) -> int {
        if self.spec_has_account(account) && self.spec_registered(asset) {
            claimable_from(
                self.spec_account(account).spec_refs(asset),
                self.spec_buckets(asset),
                now,
                self.burn_period,
            )
        } else {
            0
        }
    }

    /// Association-list keys are unique, all buckets satisfy the bucket
    /// invariant, and every participant record is well formed. This predicate
    /// holds after `init` and is preserved by every operation.
    pub open spec fn wf(self) -> bool {
        &&& forall|i: int, j: int|
            0 <= i < j < self.accounts@.len() ==> (#[trigger] self.accounts@[i]).0@ != (
            #[trigger] self.accounts@[j]).0@
        &&& forall|i: int, j: int|
            0 <= i < j < self.accounts_legacy@.len() ==> (#[trigger] self.accounts_legacy@[i]).0@
                != (#[trigger] self.accounts_legacy@[j]).0@
        &&& forall|i: int, j: int|
            0 <= i < self.accounts@.len() && 0 <= j < self.accounts_legacy@.len() ==> (
            #[trigger] self.accounts@[i]).0@ != (#[trigger] self.accounts_legacy@[j]).0@
        &&& forall|i: int, j: int|
            0 <= i < j < self.oracles@.len() ==> (#[trigger] self.oracles@[i])@ != (
            #[trigger] self.oracles@[j])@
        &&& forall|i: int, j: int|
            0 <= i < j < self.extra_accruals@.len() ==> (#[trigger] self.extra_accruals@[i]).0@
                != (#[trigger] self.extra_accruals@[j]).0@
        &&& forall|i: int, j: int|
            0 <= i < j < self.assets@.len() ==> (#[trigger] self.assets@[i]).0@ != (
            #[trigger] self.assets@[j]).0@
        &&& self.accruals.wf()
        &&& forall|i: int|
            0 <= i < self.extra_accruals@.len() ==> (#[trigger] self.extra_accruals@[i]).1.wf()
        &&& forall|i: int|
            0 <= i < self.accounts@.len() ==> (#[trigger] self.accounts@[i]).1.spec_record().wf()
    }

    /// Everything recorded in the state happened no later than `now`: bucket
    /// timestamps, reference timestamps, and refresh timestamps. Callers are
    /// expected to pass a non-decreasing clock.
    pub open spec fn times_le(self, now: UnixTimestamp) -> bool {
        &&& self.accruals.times_le(now)
        &&& forall|i: int|
            0 <= i < self.extra_accruals@.len() ==> (
            #[trigger] self.extra_accruals@[i]).1.times_le(now)
        &&& forall|i: int|
            0 <= i < self.accounts@.len() ==> (
            #[trigger] self.accounts@[i]).1.spec_record().times_le(now)
        &&& forall|i: int|
            0 <= i < self.accounts_legacy@.len() ==> (
            #[trigger] self.accounts_legacy@[i]).1.claim_period_refreshed_at <= now
        &&& forall|i: int, j: int|
            0 <= i < self.accounts_legacy@.len() && 0 <= j < (
            #[trigger] self.accounts_legacy@[i]).1.accruals@.len() ==> (
            #[trigger] self.accounts_legacy@[i].1.accruals@[j]).0 <= now
    }

    /// With unique account keys, the entry at position `j` of the account
    /// store is the one `spec_account` selects for its key.
    pub proof fn lemma_account_entry(self, j: int)
        requires
            self.wf(),
            0 <= j < self.accounts@.len(),
        ensures
            self.spec_has_account(self.accounts@[j].0@),
            self.spec_account_index_of(self.accounts@[j].0@) == j,
            self.spec_account(self.accounts@[j].0@) == self.accounts@[j].1.spec_record(),
    {
        let id = self.accounts@[j].0@;
        assert(self.spec_has_account(id));
        let i = self.spec_account_index_of(id);
        assert(0 <= i < self.accounts@.len() && self.accounts@[i].0@ == id);
        if i < j {
            assert(self.accounts@[i].0@ != self.accounts@[j].0@);
        } else if j < i {
            assert(self.accounts@[j].0@ != self.accounts@[i].0@);
        }
    }

    pub proof fn lemma_legacy_entry(self, j: int)
        requires
            self.wf(),
            0 <= j < self.accounts_legacy@.len(),
        ensures
            self.spec_has_legacy(self.accounts_legacy@[j].0@),
            self.spec_legacy_index_of(self.accounts_legacy@[j].0@) == j,
            self.spec_legacy(self.accounts_legacy@[j].0@) == self.accounts_legacy@[j].1,
    {
        let id = self.accounts_legacy@[j].0@;
        assert(self.spec_has_legacy(id));
        let i = self.spec_legacy_index_of(id);
        assert(0 <= i < self.accounts_legacy@.len() && self.accounts_legacy@[i].0@ == id);
        if i < j {
            assert(self.accounts_legacy@[i].0@ != self.accounts_legacy@[j].0@);
        } else if j < i {
            assert(self.accounts_legacy@[j].0@ != self.accounts_legacy@[i].0@);
        }
    }

    pub proof fn lemma_extra_entry(self, j: int)
        requires
            self.wf(),
            0 <= j < self.extra_accruals@.len(),
        ensures
            self.spec_has_extra(self.extra_accruals@[j].0@),
            self.spec_extra_index_of(self.extra_accruals@[j].0@) == j,
    {
        let a = self.extra_accruals@[j].0@;
        assert(self.spec_has_extra(a));
        let i = self.spec_extra_index_of(a);
        assert(0 <= i < self.extra_accruals@.len() && self.extra_accruals@[i].0@ == a);
        if i < j {
            assert(self.extra_accruals@[i].0@ != self.extra_accruals@[j].0@);
        } else if j < i {
            assert(self.extra_accruals@[j].0@ != self.extra_accruals@[i].0@);
        }
    }

    pub proof fn lemma_endpoint_entry(self, j: int)
        requires
            self.wf(),
            0 <= j < self.assets@.len(),
        ensures
            self.spec_has_endpoint(self.assets@[j].0@),
            self.spec_endpoint_index_of(self.assets@[j].0@) == j,
    {
        let a = self.assets@[j].0@;
        assert(self.spec_has_endpoint(a));
        let i = self.spec_endpoint_index_of(a);
        assert(0 <= i < self.assets@.len() && self.assets@[i].0@ == a);
        if i < j {
            assert(self.assets@[i].0@ != self.assets@[j].0@);
        } else if j < i {
            assert(self.assets@[j].0@ != self.assets@[i].0@);
        }
    }

    /// Two states with the same account store resolve accounts identically.
    pub proof fn lemma_accounts_transport(a: Contract, b: Contract)
        requires
            a.wf(),
            b.accounts@ == a.accounts@,
        ensures
            forall|id: Seq<char>| #[trigger] b.spec_has_account(id) == a.spec_has_account(id),
            forall|id: Seq<char>|
                a.spec_has_account(id) ==> #[trigger] b.spec_account(id) == a.spec_account(id),
    {
        assert forall|id: Seq<char>| #[trigger] b.spec_has_account(id) == a.spec_has_account(
            id,
        ) by {
            if b.spec_has_account(id) {
                let i = b.spec_account_index_of(id);
                assert(a.accounts@[i].0@ == id);
            }
            if a.spec_has_account(id) {
                let i = a.spec_account_index_of(id);
                assert(b.accounts@[i].0@ == id);
            }
        };
        assert forall|id: Seq<char>| a.spec_has_account(id) implies #[trigger] b.spec_account(id)
            == a.spec_account(id) by {
            let i = a.spec_account_index_of(id);
            let j = b.spec_account_index_of(id);
            assert(a.accounts@[i].0@ == id);
            assert(b.accounts@[j].0@ == id);
            assert(a.accounts@[j].0@ == id);
            if i < j {
                assert(a.accounts@[i].0@ != a.accounts@[j].0@);
            } else if j < i {
                assert(a.accounts@[j].0@ != a.accounts@[i].0@);
            }
        };
    }

    /// Two states with the same legacy store resolve legacy records
    /// identically.
    pub proof fn lemma_legacy_transport(a: Contract, b: Contract)
        requires
            a.wf(),
            b.accounts_legacy@ == a.accounts_legacy@,
        ensures
            forall|id: Seq<char>| #[trigger] b.spec_has_legacy(id) == a.spec_has_legacy(id),
            forall|id: Seq<char>|
                a.spec_has_legacy(id) ==> #[trigger] b.spec_legacy(id) == a.spec_legacy(id),
    {
        assert forall|id: Seq<char>| #[trigger] b.spec_has_legacy(id) == a.spec_has_legacy(id) by {
            if b.spec_has_legacy(id) {
                let i = b.spec_legacy_index_of(id);
                assert(a.accounts_legacy@[i].0@ == id);
            }
            if a.spec_has_legacy(id) {
                let i = a.spec_legacy_index_of(id);
                assert(b.accounts_legacy@[i].0@ == id);
            }
        };
        assert forall|id: Seq<char>| a.spec_has_legacy(id) implies #[trigger] b.spec_legacy(id)
            == a.spec_legacy(id) by {
            let i = a.spec_legacy_index_of(id);
            let j = b.spec_legacy_index_of(id);
            assert(a.accounts_legacy@[i].0@ == id);
            assert(b.accounts_legacy@[j].0@ == id);
            assert(a.accounts_legacy@[j].0@ == id);
            if i < j {
                assert(a.accounts_legacy@[i].0@ != a.accounts_legacy@[j].0@);
            } else if j < i {
                assert(a.accounts_legacy@[j].0@ != a.accounts_legacy@[i].0@);
            }
        };
    }

    /// Two states with the same bucket stores resolve assets identically.
    pub proof fn lemma_buckets_transport(a: Contract, b: Contract)
        requires
            a.wf(),
            b.accruals == a.accruals,
            b.extra_accruals@ == a.extra_accruals@,
        ensures
            forall|s: Seq<char>| #[trigger] b.spec_has_extra(s) == a.spec_has_extra(s),
            forall|s: Seq<char>| #[trigger] b.spec_registered(s) == a.spec_registered(s),
            forall|s: Seq<char>|
                a.spec_registered(s) ==> #[trigger] b.spec_buckets(s) == a.spec_buckets(s),
    {
        assert forall|s: Seq<char>| #[trigger] b.spec_has_extra(s) == a.spec_has_extra(s) by {
            if b.spec_has_extra(s) {
                let i = b.spec_extra_index_of(s);
                assert(a.extra_accruals@[i].0@ == s);
            }
            if a.spec_has_extra(s) {
                let i = a.spec_extra_index_of(s);
                assert(b.extra_accruals@[i].0@ == s);
            }
        };
        assert forall|s: Seq<char>| a.spec_registered(s) implies #[trigger] b.spec_buckets(s)
            == a.spec_buckets(s) by {
            if s != spec_default_asset() {
                let i = a.spec_extra_index_of(s);
                let j = b.spec_extra_index_of(s);
                assert(a.extra_accruals@[i].0@ == s);
                assert(b.extra_accruals@[j].0@ == s);
                assert(a.extra_accruals@[j].0@ == s);
                if i < j {
                    assert(a.extra_accruals@[i].0@ != a.extra_accruals@[j].0@);
                } else if j < i {
                    assert(a.extra_accruals@[j].0@ != a.extra_accruals@[i].0@);
                }
            }
        };
    }

    /// Two states with the same endpoint registry resolve endpoints
    /// identically.
    pub proof fn lemma_endpoints_transport(a: Contract, b: Contract)
        requires
            a.wf(),
            b.assets@ == a.assets@,
        ensures
            forall|s: Seq<char>| #[trigger] b.spec_has_endpoint(s) == a.spec_has_endpoint(s),
            forall|s: Seq<char>|
                a.spec_has_endpoint(s) ==> #[trigger] b.spec_endpoint(s) == a.spec_endpoint(s),
    {
        assert forall|s: Seq<char>| #[trigger] b.spec_has_endpoint(s) == a.spec_has_endpoint(
            s,
        ) by {
            if b.spec_has_endpoint(s) {
                let i = b.spec_endpoint_index_of(s);
                assert(a.assets@[i].0@ == s);
            }
            if a.spec_has_endpoint(s) {
                let i = a.spec_endpoint_index_of(s);
                assert(b.assets@[i].0@ == s);
            }
        };
        assert forall|s: Seq<char>| a.spec_has_endpoint(s) implies #[trigger] b.spec_endpoint(s)
            == a.spec_endpoint(s) by {
            let i = a.spec_endpoint_index_of(s);
            let j = b.spec_endpoint_index_of(s);
            assert(a.assets@[i].0@ == s);
            assert(b.assets@[j].0@ == s);
            assert(a.assets@[j].0@ == s);
            if i < j {
                assert(a.assets@[i].0@ != a.assets@[j].0@);
            } else if j < i {
                assert(a.assets@[j].0@ != a.assets@[i].0@);
            }
        };
    }

    /// A fresh deployment: no oracles, no accounts, no buckets, the initial
    /// claim and burn periods, and no service call in flight.
    pub fn init(owner_id: AccountId, token_account_id: AccountId) -> (r: Contract)
        ensures
            r.wf(),
            r.owner_id == owner_id,
            r.token_account_id == token_account_id,
            r.assets@.len() == 0,
            r.oracles@.len() == 0,
            r.claim_period == INITIAL_CLAIM_PERIOD,
            r.burn_period == INITIAL_BURN_PERIOD,
            r.accruals.entries@.len() == 0,
            r.extra_accruals@.len() == 0,
            r.accounts_legacy@.len() == 0,
            r.accounts@.len() == 0,
            !r.is_service_call_running,
            forall|id: Seq<char>| !r.spec_has_account(id) && !r.spec_has_legacy(id),
            forall|n: UnixTimestamp| r.times_le(n),
    {
        Contract {
            owner_id,
            token_account_id,
            assets: Vec::new(),
            oracles: Vec::new(),
            claim_period: INITIAL_CLAIM_PERIOD,
            burn_period: INITIAL_BURN_PERIOD,
            accruals: BucketMap { entries: Vec::new() },
            extra_accruals: Vec::new(),
            accounts_legacy: Vec::new(),
            accounts: Vec::new(),
            is_service_call_running: false,
        }
    }

    /// Position of `account_id` in the current account store.
    pub fn find_account(&self, account_id: &AccountId) -> (r: Option<usize>)
        ensures
            match r {
                Some(j) => j < self.accounts@.len() && self.accounts@[j as int].0@ == account_id@,
                None => !self.spec_has_account(account_id@),
            },
    {
        let n = self.accounts.len();
        let mut k: usize = 0;
        while k < n
            invariant
                n == self.accounts@.len(),
                k <= n,
                forall|i: int| 0 <= i < k ==> (#[trigger] self.accounts@[i]).0@ != account_id@,
            decreases n - k,
        {
            if account_eq(&self.accounts[k].0, account_id) {
                return Some(k);
            }
            k = k + 1;
        }
        None
    }

    /// Position of `account_id` in the legacy account store.
    pub fn find_legacy(&self, account_id: &AccountId) -> (r: Option<usize>)
        ensures
            match r {
                Some(j) => j < self.accounts_legacy@.len() && self.accounts_legacy@[j as int].0@
                    == account_id@,
                None => !self.spec_has_legacy(account_id@),
            },
    {
        let n = self.accounts_legacy.len();
        let mut k: usize = 0;
        while k < n
            invariant
                n == self.accounts_legacy@.len(),
                k <= n,
                forall|i: int|
                    0 <= i < k ==> (#[trigger] self.accounts_legacy@[i]).0@ != account_id@,
            decreases n - k,
        {
            if account_eq(&self.accounts_legacy[k].0, account_id) {
                return Some(k);
            }
            k = k + 1;
        }
        None
    }

    /// The current-shape record of `account_id`, if the account store has
    /// one. Legacy records are not visible here until they are migrated.
    pub fn get_account(&self, account_id: &AccountId) -> (r: Option<&AccountRecord>)
        requires
            self.wf(),
        ensures
            match r {
                Some(rec) => self.spec_has_account(account_id@) && *rec == self.spec_account(
                    account_id@,
                ),
                None => !self.spec_has_account(account_id@),
            },
    {
        match self.find_account(account_id) {
            Some(j) => {
                proof {
                    self.lemma_account_entry(j as int);
                }
                match &self.accounts[j].1 {
                    AccountRecordVersioned::V1(rec) => Some(rec),
                }
            },
            None => None,
        }
    }

    /// Whether `id` is one of the registered oracles.
    pub fn is_oracle(&self, id: &AccountId) -> (r: bool)
        ensures
            r == self.spec_is_oracle(id@),
    {
        let n = self.oracles.len();
        let mut k: usize = 0;
        while k < n
            invariant
                n == self.oracles@.len(),
                k <= n,
                forall|i: int| 0 <= i < k ==> (#[trigger] self.oracles@[i])@ != id@,
            decreases n - k,
        {
            if account_eq(&self.oracles[k], id) {
                proof {
                    assert(self.spec_is_oracle(id@));
                }
                return true;
            }
            k = k + 1;
        }
        false
    }
}

} // verus!
