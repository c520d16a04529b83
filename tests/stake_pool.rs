use dharma_pool::{Error, IdentityPoolContract};

const REGISTRY: u64 = 200;
const STAKER: u64 = 11;

fn pool() -> IdentityPoolContract {
    let mut p = IdentityPoolContract::new();
    p.initialize(REGISTRY).unwrap();
    p
}

#[test]
fn test_stake_and_unstake() {
    let mut client = pool();
    let now: u64 = 0;
    let result = client.stake_identity(Some(STAKER), STAKER, 10_000_000, now + 86400, now);
    assert!(result.is_ok());
    assert_eq!(client.get_available_capacity(), 10_000_000);
    let stake = client.get_stake(STAKER).unwrap();
    assert_eq!(stake.spending_limit, 10_000_000);
    assert!(stake.is_active);
    let fees = client.unstake_identity(Some(STAKER), STAKER).unwrap();
    assert_eq!(fees, 0);
    assert_eq!(client.get_available_capacity(), 0);
}

#[test]
fn test_fee_accumulation() {
    let mut client = pool();
    let now: u64 = 0;
    client.stake_identity(Some(STAKER), STAKER, 10_000_000, now + 86400, now).unwrap();
    client.add_fees(STAKER, 1_000_000).unwrap();
    let stake = client.get_stake(STAKER).unwrap();
    assert_eq!(stake.accumulated_fees, 1_000_000);
    let claimed = client.claim_earnings(Some(STAKER), STAKER).unwrap();
    assert_eq!(claimed, 1_000_000);
    let stake = client.get_stake(STAKER).unwrap();
    assert_eq!(stake.accumulated_fees, 0);
}

#[test]
fn stake_bounds_are_closed() {
    let mut p = pool();
    assert_eq!(p.stake_identity(Some(1), 1, 999_999, 10, 0), Err(Error::InvalidArgument));
    assert_eq!(p.stake_identity(Some(1), 1, 100_000_001, 10, 0), Err(Error::InvalidArgument));
    assert_eq!(p.stake_identity(Some(1), 1, 1_000_000, 10, 0), Ok(()));
    assert_eq!(p.stake_identity(Some(2), 2, 100_000_000, 10, 0), Ok(()));
    assert_eq!(p.get_available_capacity(), 101_000_000);
    assert_eq!(p.stake_identity(Some(3), 4, 2_000_000, 10, 0), Err(Error::Unauthorized));
}

#[test]
fn staking_twice_fails() {
    let mut p = pool();
    p.stake_identity(Some(STAKER), STAKER, 5_000_000, 10, 0).unwrap();
    assert_eq!(p.stake_identity(Some(STAKER), STAKER, 6_000_000, 10, 0), Err(Error::AlreadyExists));
    assert_eq!(p.get_available_capacity(), 5_000_000);
}

#[test]
fn unstake_restores_capacity_and_active_list() {
    let mut p = pool();
    p.stake_identity(Some(1), 1, 3_000_000, 10, 0).unwrap();
    p.stake_identity(Some(2), 2, 7_000_000, 10, 0).unwrap();
    p.stake_identity(Some(3), 3, 2_000_000, 10, 0).unwrap();
    assert_eq!(p.get_available_capacity(), 12_000_000);
    assert_eq!(p.get_active_stakers(), vec![1, 2, 3]);
    p.add_fees(2, 40).unwrap();
    assert_eq!(p.unstake_identity(Some(2), 2), Ok(40));
    assert_eq!(p.get_available_capacity(), 5_000_000);
    assert_eq!(p.get_active_stakers(), vec![1, 3]);
    let s = p.get_stake(2).unwrap();
    assert!(!s.is_active);
    assert_eq!(s.accumulated_fees, 40);
    assert_eq!(p.unstake_identity(Some(2), 2), Ok(40));
    assert_eq!(p.get_available_capacity(), 5_000_000);
    assert_eq!(p.claim_earnings(Some(2), 2), Ok(40));
    assert_eq!(p.get_stake(2).unwrap().accumulated_fees, 0);
}

#[test]
fn missing_stake_is_not_found() {
    let mut p = pool();
    assert_eq!(p.unstake_identity(Some(5), 5), Err(Error::NotFound));
    assert_eq!(p.claim_earnings(Some(5), 5), Err(Error::NotFound));
    assert_eq!(p.add_fees(5, 1), Err(Error::NotFound));
    assert!(p.get_stake(5).is_none());
    assert_eq!(p.unstake_identity(None, 5), Err(Error::Unauthorized));
}

#[test]
fn activity_depends_on_time_bound() {
    let mut p = pool();
    p.stake_identity(Some(1), 1, 3_000_000, 100, 0).unwrap();
    assert!(p.is_active(1, 99));
    assert!(!p.is_active(1, 100));
    assert!(!p.is_active(2, 0));
    p.unstake_identity(Some(1), 1).unwrap();
    assert!(!p.is_active(1, 0));
    assert_eq!(p.calculate_apy(), 1500);
    assert_eq!(p.initialize(REGISTRY), Err(Error::AlreadyInitialized));
}

#[test]
fn initialize_starts_empty() {
    let mut p = IdentityPoolContract::new();
    assert!(!p.is_initialized());
    assert_eq!(p.initialize(REGISTRY), Ok(()));
    assert!(p.is_initialized());
    assert_eq!(p.get_available_capacity(), 0);
    assert!(p.get_active_stakers().is_empty());
}
