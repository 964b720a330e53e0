use vstd::prelude::*;

verus! {

/// Number of seconds since the Unix epoch, truncated to 32 bits.
pub type UnixTimestamp = u32;

/// A period length in seconds.
pub type Duration = u32;

/// An amount of tokens.
pub type TokensAmount = u128;

/// Position of an accrual entry inside a bucket's amount list.
pub type AccrualIndex = u32;

/// Identifier of an asset serviced by the contract.
pub type Asset = String;

/// Identifier of an account, as a plain string.
pub type AccountId = String;

/// A token amount as it crosses the contract boundary.
#[derive(Clone, Copy, Debug, PartialEq, Eq, Structural)]
pub struct U128(pub u128);

/// The ways a call into the engine can be refused. A refused call leaves the
/// state untouched.
#[derive(Clone, Copy, Debug, PartialEq, Eq, Structural)]
pub enum ContractError {
    /// The caller is not allowed to perform the operation.
    Unauthorized,
    /// The claim period has not elapsed for the calling account.
    ClaimNotAvailable,
    /// A referenced account, asset or oracle is not known.
    NotFound,
    /// A settlement is already in flight.
    AlreadyLocked,
    /// The entity being added is already present.
    AlreadyExists,
}

/// Result of probing whether an account may claim now.
#[derive(Clone, Copy, Debug, PartialEq, Eq, Structural)]
pub enum ClaimAvailabilityView {
    /// The claim period has elapsed; the payload is the number of accrual
    /// references of the default asset that are still young enough to claim.
    Available(usize),
    /// The claim period has not elapsed: holds the timestamp of the last
    /// refresh and the configured claim period.
    Unavailable(UnixTimestamp, Duration),
    /// The account has never had an accrual recorded.
    Unregistered,
}

/// Outcome of settling one claim for one asset.
#[derive(Clone, Debug)]
pub struct ClaimResultView {
    pub asset: Asset,
    pub success: bool,
    pub total: U128,
}

impl ClaimResultView {
    pub fn new(asset: Asset, success: bool, total: u128) -> (r: Self)
        ensures
            r.asset == asset,
            r.success == success,
            r.total.0 == total,
    {
        Self { asset, success, total: U128(total) }
    }
}

/// Accumulated per-asset results of a claim over all assets.
#[derive(Clone, Debug)]
pub struct ClaimAllResultView(pub Vec<ClaimResultView>);

impl Default for ClaimAllResultView {
    fn default() -> (r: Self)
        ensures
            r.0@.len() == 0,
    {
        ClaimAllResultView(Vec::new())
    }
}

/// Where an account stands relative to the burn deadline.
#[derive(Clone, Debug)]
pub struct BurnStatus {
    /// Oldest of the account's default-asset accrual timestamps that is still
    /// claimable, if any.
    pub min_claimable_ts: Option<UnixTimestamp>,
    pub claim_period_refreshed_at: UnixTimestamp,
    pub burn_period: Duration,
}

/// Whether `timestamp` is still inside `period` as seen from `now`:
/// entries within the period are claimable, older ones belong to the burn
/// sweep.
pub open spec fn spec_is_within_period(
    timestamp: UnixTimestamp,
    now: UnixTimestamp,
    period: Duration,
) -> bool {
    now - timestamp < period
}

/// Entries recorded at `timestamp` are claimable at `now` while their age is
/// strictly below `period`; from age `period` on they are left to the burn
/// sweep.
pub fn is_within_period(timestamp: UnixTimestamp, now: UnixTimestamp, period: Duration) -> (r: bool)
    requires
        timestamp <= now,
    ensures
        r == spec_is_within_period(timestamp, now, period),
{
    now - timestamp < period
}

/// Truncates a host timestamp in milliseconds to whole seconds. Timestamps
/// past the 32-bit range are left out: the host clock never reaches them
/// within this contract's lifetime.
pub fn ms_timestamp_to_seconds(ms: u64) -> (r: UnixTimestamp)
    requires
        ms / 1000 <= u32::MAX,
    ensures
        r == ms / 1000,
{
    (ms / 1000) as u32
}

/// View of the asset identifier every deployment starts with.
pub open spec fn spec_default_asset() -> Seq<char> {
    "SWEAT"@
}

/// The asset identifier every deployment starts with.
pub fn default_asset() -> (r: Asset)
    ensures
        r@ == spec_default_asset(),
{
    "SWEAT".to_owned()
}

/// String equality on asset identifiers, in terms of their views.
pub fn asset_eq(a: &Asset, b: &Asset) -> (r: bool)
    ensures
        r == (a@ == b@),
{
    a.eq(b)
}

/// String equality on account identifiers, in terms of their views.
pub fn account_eq(a: &AccountId, b: &AccountId) -> (r: bool)
    ensures
        r == (a@ == b@),
{
    a.eq(b)
}

} // verus!
