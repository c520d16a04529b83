//! Compliance rails: bounded, time-limited spending authority for agents,
//! backed by a stake pool and gated by a soulbound identity credential.
//!
//! Identities are account numbers (`u64`). Every state-changing call takes
//! `signer`, the principal that the host attested for the call, and fails with
//! `Error::Unauthorized` unless it is the principal the call acts for.
//! Ledger time is passed in as `now`.

mod digest;
pub mod error;
pub mod identity;
pub mod rails;
pub mod stake_pool;
mod util;

pub use error::Error;
pub use identity::{SBTContract, SBT};
pub use rails::{ComplianceRail, DharmaPoolContract, RailId};
pub use stake_pool::{IdentityPoolContract, Stake};
