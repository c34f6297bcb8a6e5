//! Validator economics for a reputation-weighted delegated proof-of-stake
//! chain: validator registration and delegation bookkeeping, era-based
//! validator selection, and proportional reward distribution.

pub mod arith;
pub mod laws;
pub mod ledger;
pub mod rewards;
pub mod scheduler;
pub mod selection;
pub mod store;
pub mod sum;
pub mod types;

use vstd::prelude::*;

verus! {

/// Accounts are identified by plain integers; their ascending order is the
/// deterministic tie-break used throughout.
pub type AccountId = u64;

/// Balances are unsigned integers; balance arithmetic saturates at the
/// numeric bounds instead of wrapping or panicking.
pub type Balance = u64;

/// Eras are counted by a monotonic index starting at zero.
pub type EraIndex = u64;

/// Block heights, supplied by the host once per block.
pub type BlockNumber = u64;

} // verus!
