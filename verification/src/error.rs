use vstd::prelude::*;

verus! {

/// Why a sponsor operation was refused. Account identifiers are the 128 bits
/// of the account's UUID.
#[derive(Debug, Clone, Copy, PartialEq, Eq, Structural)]
pub enum SponsorAllocationError {
    /// No eligible sponsor is in the pool.
    NoSponsorsAvailable,
    /// The given sponsor is not a member of the pool.
    SponsorNotFound { sponsor_id: u128 },
    /// The account's tier does not let it sponsor.
    AccountNotEligible { account_id: u128 },
    /// The account already sponsors as many accounts as allowed.
    MaxSponsoredAccountsReached { account_id: u128 },
    /// The allocation strategy is misconfigured.
    InvalidStrategyConfiguration,
    /// A stored pool holds more members than its size allows.
    PoolCapacityExceeded,
}

} // verus!
