use vstd::prelude::*;

verus! {

/// Why a call was rejected. A rejected call leaves its ledger unchanged.
#[derive(Debug, Clone, Copy, PartialEq, Eq, Structural)]
pub enum Error {
    /// A one-time setup was attempted again.
    AlreadyInitialized,
    /// A credential or stake already exists for that identity.
    AlreadyExists,
    /// A non-positive amount, or a stake outside its bounds.
    InvalidArgument,
    /// No credential, stake or rail under that key.
    NotFound,
    /// The rail has been revoked.
    NotActive,
    /// The usage would take the rail past its spending limit.
    LimitExceeded,
    /// The proof verifier rejected the proof.
    ProofInvalid,
    /// Credentials are bound to their owner.
    NonTransferable,
    /// The host did not attest the required principal for this call.
    Unauthorized,
}

impl Error {
    /// A short human-readable description.
    pub fn message(&self) -> (r: &'static str) {
        match self {
            Error::AlreadyInitialized => "already initialized",
            Error::AlreadyExists => "already exists",
            Error::InvalidArgument => "invalid argument",
            Error::NotFound => "not found",
            Error::NotActive => "not active",
            Error::LimitExceeded => "spending limit exceeded",
            Error::ProofInvalid => "proof invalid",
            Error::NonTransferable => "credentials cannot be transferred",
            Error::Unauthorized => "unauthorized",
        }
    }
}

} // verus!
