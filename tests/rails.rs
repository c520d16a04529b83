use dharma_pool::rails::split_fee;
use dharma_pool::{DharmaPoolContract, Error};

const POOL: u64 = 100;
const TREASURY: u64 = 101;
const AGENT: u64 = 7;

fn registry() -> DharmaPoolContract {
    let mut c = DharmaPoolContract::new();
    c.initialize(POOL, TREASURY).unwrap();
    c
}

#[test]
fn test_request_and_check_rail() {
    let mut client = registry();
    let rail_id = client.request_compliance(Some(AGENT), AGENT, 10_000_000, 3600, 0).unwrap();
    assert!(client.check_rail_validity(&rail_id, 0));
    let rail = client.get_rail(&rail_id).unwrap();
    assert_eq!(rail.agent, AGENT);
    assert_eq!(rail.spending_limit, 10_000_000);
    assert!(rail.is_active);
}

#[test]
fn test_revoke_rail() {
    let mut client = registry();
    let rail_id = client.request_compliance(Some(AGENT), AGENT, 10_000_000, 3600, 0).unwrap();
    assert!(client.check_rail_validity(&rail_id, 0));
    client.revoke_rail(Some(AGENT), &rail_id, AGENT).unwrap();
    assert!(!client.check_rail_validity(&rail_id, 0));
}

#[test]
fn test_kill_switch() {
    let mut client = registry();
    let rail1 = client.request_compliance(Some(AGENT), AGENT, 10_000_000, 3600, 0).unwrap();
    let rail2 = client.request_compliance(Some(AGENT), AGENT, 20_000_000, 7200, 0).unwrap();
    assert!(client.check_rail_validity(&rail1, 0));
    assert!(client.check_rail_validity(&rail2, 0));
    let revoked = client.revoke_all_rails(Some(AGENT), AGENT).unwrap();
    assert_eq!(revoked, 2);
    assert!(!client.check_rail_validity(&rail1, 0));
    assert!(!client.check_rail_validity(&rail2, 0));
}

#[test]
fn test_spending_limit() {
    let mut client = registry();
    let rail_id = client.request_compliance(Some(AGENT), AGENT, 10_000_000, 3600, 0).unwrap();
    client.record_usage(&rail_id, 5_000_000).unwrap();
    client.record_usage(&rail_id, 4_000_000).unwrap();
    let result = client.record_usage(&rail_id, 2_000_000);
    assert!(result.is_err());
}

#[test]
fn request_then_get_shows_fresh_rail() {
    let mut c = registry();
    let id = c.request_compliance(Some(AGENT), AGENT, 5, 10, 1000).unwrap();
    let rail = c.get_rail(&id).unwrap();
    assert_eq!(rail.used_amount, 0);
    assert!(rail.is_active);
    assert_eq!(rail.spending_limit, 5);
    assert_eq!(rail.expires_at, 1010);
    assert!(rail.backing_stakers.is_empty());
    assert!(c.check_rail_validity(&id, 1009));
    assert!(!c.check_rail_validity(&id, 1010));
}

#[test]
fn rail_id_is_sha256_of_request() {
    let mut c = registry();
    let id = c.request_compliance(Some(AGENT), AGENT, 10_000_000, 3600, 0).unwrap();
    let expected: [u8; 32] = [
        199, 181, 74, 115, 90, 126, 140, 149, 81, 151, 94, 251, 22, 45, 185, 45, 225, 163, 243, 69,
        121, 228, 250, 31, 92, 169, 254, 192, 103, 61, 30, 69,
    ];
    assert_eq!(id, expected);
    let again = c.request_compliance(Some(AGENT), AGENT, 10_000_000, 3600, 0).unwrap();
    assert_ne!(id, again);
    assert_eq!(c.get_agent_rails(AGENT), vec![id, again]);
}

#[test]
fn request_rejects_bad_amount_and_signer() {
    let mut c = registry();
    assert_eq!(c.request_compliance(Some(AGENT), AGENT, 0, 10, 0), Err(Error::InvalidArgument));
    assert_eq!(c.request_compliance(Some(AGENT), AGENT, -5, 10, 0), Err(Error::InvalidArgument));
    assert_eq!(c.request_compliance(Some(8), AGENT, 5, 10, 0), Err(Error::Unauthorized));
    assert_eq!(c.request_compliance(None, AGENT, 5, 10, 0), Err(Error::Unauthorized));
    assert!(c.get_agent_rails(AGENT).is_empty());
}

#[test]
fn issue_rail_behaves_as_request() {
    let mut c = registry();
    let id = c.issue_rail(Some(AGENT), AGENT, 10_000_000, 3600, [0u8; 64], 0).unwrap();
    assert!(c.check_rail_validity(&id, 0));
    assert_eq!(c.issue_rail(Some(AGENT), AGENT, 0, 3600, [0u8; 64], 0), Err(Error::InvalidArgument));
}

#[test]
fn initialize_twice_fails() {
    let mut c = registry();
    assert_eq!(c.initialize(POOL, TREASURY), Err(Error::AlreadyInitialized));
}

#[test]
fn usage_sequence_stops_at_limit() {
    let mut c = registry();
    let id = c.request_compliance(Some(AGENT), AGENT, 10_000_000, 3600, 0).unwrap();
    assert_eq!(c.record_usage(&id, 5_000_000), Ok(()));
    assert_eq!(c.record_usage(&id, 4_000_000), Ok(()));
    assert_eq!(c.get_rail(&id).unwrap().used_amount, 9_000_000);
    assert_eq!(c.record_usage(&id, 2_000_000), Err(Error::LimitExceeded));
    assert_eq!(c.get_rail(&id).unwrap().used_amount, 9_000_000);
    assert_eq!(c.record_usage(&id, 1_000_000), Ok(()));
    assert_eq!(c.get_rail(&id).unwrap().used_amount, 10_000_000);
    assert_eq!(c.record_usage(&id, -1), Err(Error::InvalidArgument));
}

#[test]
fn usage_on_revoked_or_missing_rail_fails() {
    let mut c = registry();
    let id = c.request_compliance(Some(AGENT), AGENT, 100, 3600, 0).unwrap();
    c.revoke_rail(Some(9), &id, 9).unwrap();
    assert_eq!(c.record_usage(&id, 1), Err(Error::NotActive));
    assert_eq!(c.record_usage(&[9u8; 32], 1), Err(Error::NotFound));
}

#[test]
fn revoke_twice_is_not_an_error() {
    let mut c = registry();
    let id = c.request_compliance(Some(AGENT), AGENT, 100, 3600, 0).unwrap();
    assert_eq!(c.revoke_rail(Some(AGENT), &id, AGENT), Ok(()));
    assert_eq!(c.revoke_rail(Some(AGENT), &id, AGENT), Ok(()));
    assert!(!c.check_rail_validity(&id, 0));
    let rail = c.get_rail(&id).unwrap();
    assert!(!rail.is_active);
    assert_eq!(c.revoke_rail(Some(AGENT), &[0u8; 32], AGENT), Err(Error::NotFound));
    assert_eq!(c.revoke_rail(Some(1), &id, AGENT), Err(Error::Unauthorized));
}

#[test]
fn kill_switch_counts_only_active_rails() {
    let mut c = registry();
    let a = c.request_compliance(Some(AGENT), AGENT, 100, 3600, 0).unwrap();
    let b = c.request_compliance(Some(AGENT), AGENT, 200, 3600, 0).unwrap();
    let other = c.request_compliance(Some(8), 8, 300, 3600, 0).unwrap();
    let d = c.request_compliance(Some(AGENT), AGENT, 400, 3600, 0).unwrap();
    c.revoke_rail(Some(AGENT), &b, AGENT).unwrap();
    assert_eq!(c.revoke_all_rails(Some(AGENT), AGENT), Ok(2));
    assert!(!c.check_rail_validity(&a, 0));
    assert!(!c.check_rail_validity(&d, 0));
    assert!(c.check_rail_validity(&other, 0));
    assert_eq!(c.revoke_all_rails(Some(AGENT), AGENT), Ok(0));
    assert_eq!(c.get_agent_rails(AGENT).len(), 3);
    assert_eq!(c.revoke_all_rails(Some(AGENT), 8), Err(Error::Unauthorized));
    assert_eq!(c.revoke_all_rails(Some(55), 55), Ok(0));
}

#[test]
fn staker_kill_switch_revokes_nothing() {
    let mut c = registry();
    let a = c.request_compliance(Some(AGENT), AGENT, 100, 3600, 0).unwrap();
    assert_eq!(c.revoke_staker_rails(Some(3), 3), Ok(0));
    assert_eq!(c.revoke_staker_rails(None, 3), Err(Error::Unauthorized));
    assert!(c.check_rail_validity(&a, 0));
}

#[test]
fn fee_split_truncates() {
    let mut c = registry();
    let id = c.request_compliance(Some(AGENT), AGENT, 100, 3600, 0).unwrap();
    assert_eq!(c.distribute_fees(&id, 10000), Ok((1200, 8800)));
    assert_eq!(c.distribute_fees(&id, 100), Ok((12, 88)));
    assert_eq!(c.distribute_fees(&id, 3), Ok((0, 2)));
    assert_eq!(c.distribute_fees(&id, 0), Ok((0, 0)));
    assert_eq!(c.distribute_fees(&[1u8; 32], 100), Err(Error::NotFound));
    assert_eq!(split_fee(-3), (0, -2));
    assert_eq!(split_fee(-10000), (-1200, -8800));
}

#[test]
fn registry_initialization_state() {
    let mut c = DharmaPoolContract::new();
    assert!(!c.is_initialized());
    assert_eq!(c.initialize(POOL, TREASURY), Ok(()));
    assert!(c.is_initialized());
    assert_eq!(c.get_rail_count(), 0);
    c.request_compliance(Some(AGENT), AGENT, 5, 10, 0).unwrap();
    assert_eq!(c.get_rail_count(), 1);
}
