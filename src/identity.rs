//! The identity registry: one soulbound credential per owner.
use std::collections::HashMap;
use vstd::prelude::*;

use crate::error::Error;

verus! {

broadcast use vstd::std_specs::hash::group_hash_axioms;

/// A soulbound identity credential.
#[derive(Debug, Clone, Copy)]
pub struct SBT {
    pub owner: u64,
    pub kyc_hash: [u8; 32],
    pub issued_at: u64,
    pub is_valid: bool,
}

/// The registry's abstract state.
pub ghost struct CredentialLedger {
    pub admin: Option<u64>,
    pub creds: Map<u64, SBT>,
}

/// The identity registry. Credentials are invalidated, never deleted.
pub struct SBTContract {
    admin: Option<u64>,
    creds: HashMap<u64, SBT>,
}

impl View for SBTContract {
    type V = CredentialLedger;

    closed spec fn view(&self) -> CredentialLedger {
        CredentialLedger { admin: self.admin, creds: self.creds@ }
    }
}

/// Whether `owner` holds a valid credential.
pub open spec fn holds_valid(l: CredentialLedger, owner: u64) -> bool {
    l.creds.contains_key(owner) && l.creds[owner].is_valid
}

impl SBTContract {
    /// An empty, uninitialized registry.
    pub fn new() -> (r: Self)
        ensures
            r@.admin is None,
            r@.creds == Map::<u64, SBT>::empty(),
    {
        SBTContract { admin: None, creds: HashMap::new() }
    }

    /// Sets the admin, once.
    pub fn initialize(&mut self, admin: u64) -> (r: Result<(), Error>)
        ensures
            old(self)@.admin is Some ==> r == Err::<(), Error>(Error::AlreadyInitialized)
                && final(self)@ == old(self)@,
            old(self)@.admin is None ==> r is Ok && final(self)@ == (CredentialLedger {
                admin: Some(admin),
                creds: old(self)@.creds,
            }),
    {
        if self.admin.is_some() {
            return Err(Error::AlreadyInitialized);
        }
        self.admin = Some(admin);
        Ok(())
    }

    /// Issues a valid credential to `owner`, stamped with `now`.
    pub fn issue_sbt(&mut self, signer: Option<u64>, owner: u64, kyc_hash: [u8; 32], now: u64) -> (r:
        Result<(), Error>)
        ensures
            signer != Some(owner) ==> r == Err::<(), Error>(Error::Unauthorized),
            signer == Some(owner) && old(self)@.creds.contains_key(owner) ==> r == Err::<(), Error>(
                Error::AlreadyExists,
            ),
            r is Err ==> final(self)@ == old(self)@,
            r is Ok <==> signer == Some(owner) && !old(self)@.creds.contains_key(owner),
            r is Ok ==> final(self)@ == (CredentialLedger {
                admin: old(self)@.admin,
                creds: old(self)@.creds.insert(
                    owner,
                    SBT { owner, kyc_hash, issued_at: now, is_valid: true },
                ),
            }),
    {
        if signer != Some(owner) {
            return Err(Error::Unauthorized);
        }
        if self.creds.contains_key(&owner) {
            return Err(Error::AlreadyExists);
        }
        let sbt = SBT { owner, kyc_hash, issued_at: now, is_valid: true };
        self.creds.insert(owner, sbt);
        Ok(())
    }

    /// Whether `owner` holds a credential that has not been revoked.
    pub fn verify_sbt(&self, owner: u64) -> (r: bool)
        ensures
            r == holds_valid(self@, owner),
    {
        match self.creds.get(&owner) {
            Some(sbt) => sbt.is_valid,
            None => false,
        }
    }

    /// The credential of `owner`, if any.
    pub fn get_sbt(&self, owner: u64) -> (r: Option<SBT>)
        ensures
            r == (if self@.creds.contains_key(owner) {
                Some(self@.creds[owner])
            } else {
                None
            }),
    {
        match self.creds.get(&owner) {
            Some(sbt) => Some(*sbt),
            None => None,
        }
    }

    /// Same as `verify_sbt`.
    pub fn is_valid(&self, owner: u64) -> (r: bool)
        ensures
            r == holds_valid(self@, owner),
    {
        self.verify_sbt(owner)
    }

    /// Invalidates the credential of `owner`; the record stays.
    pub fn revoke_sbt(&mut self, signer: Option<u64>, owner: u64) -> (r: Result<(), Error>)
        ensures
            signer != Some(owner) ==> r == Err::<(), Error>(Error::Unauthorized),
            signer == Some(owner) && !old(self)@.creds.contains_key(owner) ==> r == Err::<(), Error>(
                Error::NotFound,
            ),
            r is Err ==> final(self)@ == old(self)@,
            r is Ok <==> signer == Some(owner) && old(self)@.creds.contains_key(owner),
            r is Ok ==> final(self)@ == (CredentialLedger {
                admin: old(self)@.admin,
                creds: old(self)@.creds.insert(
                    owner,
                    SBT { is_valid: false, ..old(self)@.creds[owner] },
                ),
            }),
    {
        if signer != Some(owner) {
            return Err(Error::Unauthorized);
        }
        match self.creds.get(&owner) {
            Some(sbt) => {
                let revoked = SBT { is_valid: false, ..*sbt };
                self.creds.insert(owner, revoked);
                Ok(())
            },
            None => Err(Error::NotFound),
        }
    }

    /// Credentials are soulbound: a transfer always fails.
    pub fn transfer(&self, from: u64, to: u64) -> (r: Result<(), Error>)
        ensures
            r == Err::<(), Error>(Error::NonTransferable),
    {
        Err(Error::NonTransferable)
    }
}

/// After a credential is issued and then revoked, it no longer verifies.
pub proof fn lemma_revoked_credential_fails(
    l0: CredentialLedger,
    owner: u64,
    kyc_hash: [u8; 32],
    now: u64,
)
    requires
        !l0.creds.contains_key(owner),
    ensures
        ({
            let l1 = CredentialLedger {
                admin: l0.admin,
                creds: l0.creds.insert(owner, SBT { owner, kyc_hash, issued_at: now, is_valid: true }),
            };
            let l2 = CredentialLedger {
                admin: l1.admin,
                creds: l1.creds.insert(owner, SBT { is_valid: false, ..l1.creds[owner] }),
            };
            holds_valid(l1, owner) && !holds_valid(l2, owner)
        }),
{
}

} // verus!
