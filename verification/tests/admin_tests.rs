use sweat_claim::Contract;
use sweat_claim::types::{ContractError, U128};

struct TestAccounts {
    alice: String,
    bob: String,
    oracle: String,
    token: String,
    owner: String,
}

fn test_accounts() -> TestAccounts {
    TestAccounts {
        alice: "alice".to_string(),
        bob: "bob".to_string(),
        oracle: "oracle".to_string(),
        token: "token".to_string(),
        owner: "owner".to_string(),
    }
}

fn init() -> (Contract, TestAccounts) {
    let accounts = test_accounts();
    let contract = Contract::init(accounts.owner.clone(), accounts.token.clone());
    (contract, accounts)
}

fn init_with_oracle() -> (Contract, TestAccounts) {
    let (mut contract, accounts) = init();
    contract.oracles.push(accounts.oracle.clone());
    (contract, accounts)
}

#[test]
fn add_oracle_by_contract_owner() {
    let (mut contract, accounts) = init();
    contract.add_oracle(&accounts.owner, accounts.oracle.clone()).unwrap();

    let oracles = contract.get_oracles();
    assert_eq!(oracles, vec![accounts.oracle.clone()]);
}

#[test]
fn add_oracle_not_by_contract_owner() {
    let (mut contract, accounts) = init();

    let result = contract.add_oracle(&accounts.alice, accounts.oracle.clone());
    assert!(matches!(result, Err(ContractError::Unauthorized)));
    assert!(contract.get_oracles().is_empty());
}

#[test]
fn add_oracle_twice() {
    let (mut contract, accounts) = init();

    contract.add_oracle(&accounts.owner, accounts.oracle.clone()).unwrap();
    let result = contract.add_oracle(&accounts.owner, accounts.oracle.clone());
    assert!(matches!(result, Err(ContractError::AlreadyExists)));
}

#[test]
fn remove_oracle_by_contract_owner() {
    let (mut contract, accounts) = init();

    contract.add_oracle(&accounts.owner, accounts.oracle.clone()).unwrap();

    let oracles = contract.get_oracles();
    assert_eq!(oracles, vec![accounts.oracle.clone()]);

    contract.remove_oracle(&accounts.owner, &accounts.oracle).unwrap();

    let oracles = contract.get_oracles();
    assert!(oracles.is_empty());
}

#[test]
fn remove_oracle_not_by_contract_owner() {
    let (mut contract, accounts) = init();

    contract.oracles.push(accounts.oracle.clone());

    let result = contract.remove_oracle(&accounts.alice, &accounts.oracle);
    assert!(matches!(result, Err(ContractError::Unauthorized)));
}

#[test]
fn remove_not_existing_oracle() {
    let (mut contract, accounts) = init();

    let result = contract.remove_oracle(&accounts.owner, &accounts.oracle);
    assert!(matches!(result, Err(ContractError::NotFound)));
}

#[test]
fn set_claim_period_by_oracle() {
    let (mut contract, accounts) = init_with_oracle();

    let claim_period = 1_000_000;
    contract.set_claim_period(&accounts.oracle, claim_period).unwrap();

    assert_eq!(claim_period, contract.claim_period);

    let claim_period = 3_000_000;
    contract.set_claim_period(&accounts.oracle, claim_period).unwrap();

    assert_eq!(claim_period, contract.claim_period);
}

#[test]
fn set_claim_period_by_not_oracle() {
    let (mut contract, accounts) = init_with_oracle();

    let claim_period = 1_000_000;
    let result = contract.set_claim_period(&accounts.alice, claim_period);
    assert!(matches!(result, Err(ContractError::Unauthorized)));
}

#[test]
fn set_burn_period_by_oracle() {
    let (mut contract, accounts) = init_with_oracle();

    let burn_period = 1_000_000;
    contract.set_burn_period(&accounts.oracle, burn_period).unwrap();

    assert_eq!(burn_period, contract.burn_period);

    let burn_period = 3_000_000;
    contract.set_burn_period(&accounts.oracle, burn_period).unwrap();

    assert_eq!(burn_period, contract.burn_period);
}

#[test]
fn set_burn_period_by_not_oracle() {
    let (mut contract, accounts) = init_with_oracle();

    let burn_period = 1_000_000;
    let result = contract.set_burn_period(&accounts.alice, burn_period);
    assert!(matches!(result, Err(ContractError::Unauthorized)));
}

#[test]
fn test_clean_single_account_by_oracle() {
    let (mut contract, accounts) = init_with_oracle();

    contract
        .record_batch_for_hold(&accounts.oracle, 0, vec![(accounts.alice.clone(), U128(100_000_000))], None)
        .unwrap();

    let record = contract.get_account(&accounts.alice);
    assert!(record.is_some());
    assert_eq!(1, record.unwrap().accruals.len());

    contract.clean(&accounts.oracle, &vec![accounts.alice.clone()]).unwrap();

    let record = contract.get_account(&accounts.alice);
    assert!(record.is_none());
}

#[test]
fn test_clean_single_account_by_not_oracle() {
    let (mut contract, accounts) = init_with_oracle();

    contract
        .record_batch_for_hold(&accounts.oracle, 0, vec![(accounts.alice.clone(), U128(100_000_000))], None)
        .unwrap();

    let record = contract.get_account(&accounts.alice);
    assert!(record.is_some());
    assert_eq!(1, record.unwrap().accruals.len());

    let result = contract.clean(&accounts.alice, &vec![accounts.alice.clone()]);
    assert!(matches!(result, Err(ContractError::Unauthorized)));
    assert!(contract.get_account(&accounts.alice).is_some());
}

#[test]
fn test_clean_multiple_accounts_by_oracle() {
    let (mut contract, accounts) = init_with_oracle();

    contract
        .record_batch_for_hold(
            &accounts.oracle,
            0,
            vec![
                (accounts.alice.clone(), U128(100_000_000)),
                (accounts.bob.clone(), U128(1_000_000_000)),
            ],
            None,
        )
        .unwrap();

    let alice_record = contract.get_account(&accounts.alice);
    assert!(alice_record.is_some());
    assert_eq!(1, alice_record.unwrap().accruals.len());

    let bob_record = contract.get_account(&accounts.bob);
    assert!(bob_record.is_some());
    assert_eq!(1, bob_record.unwrap().accruals.len());

    contract
        .clean(&accounts.oracle, &vec![accounts.alice.clone(), accounts.bob.clone()])
        .unwrap();

    let alice_record = contract.get_account(&accounts.alice);
    assert!(alice_record.is_none());

    let bob_record = contract.get_account(&accounts.bob);
    assert!(bob_record.is_none());
}
