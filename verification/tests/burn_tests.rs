use sweat_claim::Contract;
use sweat_claim::burn::BurnOutcome;
use sweat_claim::types::U128;

struct TestAccounts {
    alice: String,
    bob: String,
    oracle: String,
    token: String,
    owner: String,
}

fn test_accounts() -> TestAccounts {
    TestAccounts {
        alice: "alice".to_string(),
        bob: "bob".to_string(),
        oracle: "oracle".to_string(),
        token: "token".to_string(),
        owner: "owner".to_string(),
    }
}

fn init_with_oracle() -> (Contract, TestAccounts) {
    let accounts = test_accounts();
    let mut contract = Contract::init(accounts.owner.clone(), accounts.token.clone());
    contract.oracles.push(accounts.oracle.clone());
    (contract, accounts)
}

fn burn_settled(contract: &mut Contract, caller: &String, now: u32, success: bool) -> u128 {
    match contract.burn(caller, now).unwrap() {
        BurnOutcome::Settled(value) => value.0,
        BurnOutcome::Pending(request) => contract.on_burn(request, success).0,
    }
}

#[test]
fn test_burn_when_outdated_tokens_exist() {
    let (mut contract, accounts) = init_with_oracle();

    let alice_balance = 100_000;
    let bob_balance = 200_000;

    contract
        .record_batch_for_hold(
            &accounts.oracle,
            0,
            vec![
                (accounts.alice.clone(), U128(alice_balance)),
                (accounts.bob.clone(), U128(bob_balance)),
            ],
            None,
        )
        .unwrap();

    let now = contract.burn_period + 100;

    let burnt_amount = burn_settled(&mut contract, &accounts.oracle, now, true);
    assert_eq!(alice_balance + bob_balance, burnt_amount);

    let alice_new_balance = contract
        .get_claimable_balance_for_account(&accounts.alice, now, None)
        .0;
    assert_eq!(0, alice_new_balance);

    let bob_new_balance = contract
        .get_claimable_balance_for_account(&accounts.bob, now, None)
        .0;
    assert_eq!(0, bob_new_balance);

    assert!(!contract.is_service_call_running);
}

#[test]
fn test_ext_error_on_burn_when_outdated_tokens_exist() {
    let (mut contract, accounts) = init_with_oracle();

    let alice_balance = 100_000;
    let bob_balance = 200_000;

    contract
        .record_batch_for_hold(
            &accounts.oracle,
            0,
            vec![
                (accounts.alice.clone(), U128(alice_balance)),
                (accounts.bob.clone(), U128(bob_balance)),
            ],
            None,
        )
        .unwrap();

    let now = contract.burn_period + 100;

    let burnt_amount = burn_settled(&mut contract, &accounts.oracle, now, false);
    assert_eq!(0, burnt_amount);

    let alice_new_balance = contract
        .get_claimable_balance_for_account(&accounts.alice, now, None)
        .0;
    assert_eq!(0, alice_new_balance);

    let bob_new_balance = contract
        .get_claimable_balance_for_account(&accounts.bob, now, None)
        .0;
    assert_eq!(0, bob_new_balance);

    assert!(!contract.is_service_call_running);
}

#[test]
fn test_burn_when_outdated_tokens_do_not_exist() {
    let (mut contract, accounts) = init_with_oracle();

    let alice_balance = 500_000;
    let bob_balance = 300_000;

    contract
        .record_batch_for_hold(
            &accounts.oracle,
            0,
            vec![
                (accounts.alice.clone(), U128(alice_balance)),
                (accounts.bob.clone(), U128(bob_balance)),
            ],
            None,
        )
        .unwrap();

    let burnt_amount = burn_settled(&mut contract, &accounts.oracle, 0, true);
    assert_eq!(0, burnt_amount);

    let alice_new_balance = contract
        .get_claimable_balance_for_account(&accounts.alice, 0, None)
        .0;
    assert_eq!(alice_balance, alice_new_balance);

    let bob_new_balance = contract
        .get_claimable_balance_for_account(&accounts.bob, 0, None)
        .0;
    assert_eq!(bob_balance, bob_new_balance);

    assert!(!contract.is_service_call_running);
}
