use dharma_pool::{Error, SBTContract};

const ADMIN: u64 = 1;
const USER: u64 = 2;

#[test]
fn test_issue_and_verify_sbt() {
    let mut client = SBTContract::new();
    let kyc_hash = [1u8; 32];
    client.initialize(ADMIN).unwrap();
    let result = client.issue_sbt(Some(USER), USER, kyc_hash, 0);
    assert!(result.is_ok());
    assert!(client.verify_sbt(USER));
    assert!(client.is_valid(USER));
    let sbt = client.get_sbt(USER).unwrap();
    assert_eq!(sbt.owner, USER);
    assert_eq!(sbt.kyc_hash, kyc_hash);
    assert!(sbt.is_valid);
}

#[test]
fn test_transfer_blocked() {
    let client = SBTContract::new();
    let result = client.transfer(USER, 3);
    assert!(result.is_err());
}

#[test]
fn test_revoke_sbt() {
    let mut client = SBTContract::new();
    let kyc_hash = [1u8; 32];
    client.initialize(ADMIN).unwrap();
    client.issue_sbt(Some(USER), USER, kyc_hash, 0).unwrap();
    assert!(client.is_valid(USER));
    client.revoke_sbt(Some(USER), USER).unwrap();
    assert!(!client.is_valid(USER));
}

#[test]
fn issue_revoke_verify_is_false() {
    let mut c = SBTContract::new();
    c.issue_sbt(Some(USER), USER, [9u8; 32], 77).unwrap();
    assert_eq!(c.get_sbt(USER).unwrap().issued_at, 77);
    c.revoke_sbt(Some(USER), USER).unwrap();
    assert!(!c.verify_sbt(USER));
    let sbt = c.get_sbt(USER).unwrap();
    assert!(!sbt.is_valid);
    assert_eq!(sbt.kyc_hash, [9u8; 32]);
}

#[test]
fn credential_errors() {
    let mut c = SBTContract::new();
    assert!(!c.verify_sbt(USER));
    assert_eq!(c.issue_sbt(Some(3), USER, [0u8; 32], 0), Err(Error::Unauthorized));
    assert_eq!(c.revoke_sbt(Some(USER), USER), Err(Error::NotFound));
    c.issue_sbt(Some(USER), USER, [0u8; 32], 0).unwrap();
    assert_eq!(c.issue_sbt(Some(USER), USER, [0u8; 32], 0), Err(Error::AlreadyExists));
    assert_eq!(c.transfer(USER, USER), Err(Error::NonTransferable));
    c.initialize(ADMIN).unwrap();
    assert_eq!(c.initialize(ADMIN), Err(Error::AlreadyInitialized));
    assert_eq!(Error::NonTransferable.message(), "credentials cannot be transferred");
}
