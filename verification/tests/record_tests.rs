use sweat_claim::Contract;
use sweat_claim::types::{ContractError, U128};

struct TestAccounts {
    alice: String,
    bob: String,
    oracle: String,
    token: String,
    owner: String,
}

fn test_accounts() -> TestAccounts {
    TestAccounts {
        alice: "alice".to_string(),
        bob: "bob".to_string(),
        oracle: "oracle".to_string(),
        token: "token".to_string(),
        owner: "owner".to_string(),
    }
}

fn init_with_oracle() -> (Contract, TestAccounts) {
    let accounts = test_accounts();
    let mut contract = Contract::init(accounts.owner.clone(), accounts.token.clone());
    contract.oracles.push(accounts.oracle.clone());
    (contract, accounts)
}

#[test]
fn record_by_oracle() {
    let (mut contract, accounts) = init_with_oracle();

    let alice_balance_1 = 1_000_000;

    contract
        .record_batch_for_hold(&accounts.oracle, 0, vec![(accounts.alice.clone(), U128(alice_balance_1))], None)
        .unwrap();

    let alice_actual_balance = contract.get_claimable_balance_for_account(&accounts.alice, 0, None);
    assert_eq!(alice_balance_1, alice_actual_balance.0);

    let now = 1_000;

    let alice_balance_2 = 500_000;
    let bob_balance = 200_000;

    contract
        .record_batch_for_hold(
            &accounts.oracle,
            now,
            vec![
                (accounts.alice.clone(), U128(alice_balance_2)),
                (accounts.bob.clone(), U128(bob_balance)),
            ],
            None,
        )
        .unwrap();

    let alice_actual_balance = contract.get_claimable_balance_for_account(&accounts.alice, now, None);
    assert_eq!(alice_balance_1 + alice_balance_2, alice_actual_balance.0);

    let bob_actual_balance = contract.get_claimable_balance_for_account(&accounts.bob, now, None);
    assert_eq!(bob_balance, bob_actual_balance.0);
}

#[test]
fn record_by_not_oracle() {
    let (mut contract, accounts) = init_with_oracle();

    let alice_balance_1 = 1_000_000;
    let result = contract.record_batch_for_hold(
        &accounts.alice,
        0,
        vec![(accounts.alice.clone(), U128(alice_balance_1))],
        None,
    );
    assert!(matches!(result, Err(ContractError::Unauthorized)));

    let alice_actual_balance = contract.get_claimable_balance_for_account(&accounts.alice, 0, None);
    assert_eq!(0, alice_actual_balance.0);
}

#[test]
fn test_multiple_records_in_the_same_block() {
    let (mut contract, accounts) = init_with_oracle();

    let target_accruals: [u128; 2] = [10, 20];
    let target_accounts = [accounts.alice.clone(), accounts.bob.clone()];

    contract
        .record_batch_for_hold(&accounts.oracle, 0, vec![(target_accounts[0].clone(), U128(target_accruals[0]))], None)
        .unwrap();
    contract
        .record_batch_for_hold(&accounts.oracle, 0, vec![(target_accounts[1].clone(), U128(target_accruals[1]))], None)
        .unwrap();

    assert_eq!(contract.accruals.entries.len(), 1);
    let accruals = &contract.accruals.entries[0];
    assert_eq!(accruals.0, 0);
    assert_eq!(accruals.1.amounts.len(), target_accruals.len());
    assert_eq!(accruals.1.total, target_accruals.iter().sum::<u128>());

    contract.set_claim_period(&accounts.oracle, 0).unwrap();

    for index in 0..target_accruals.len() {
        let account = &target_accounts[index];
        let balance = contract.get_claimable_balance_for_account(account, 0, None);
        assert_eq!(balance.0, target_accruals[index]);
    }
}
