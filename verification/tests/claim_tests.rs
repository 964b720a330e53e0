use sweat_claim::Contract;
use sweat_claim::claim::ClaimOutcome;
use sweat_claim::types::{ClaimAvailabilityView, ClaimResultView, ContractError, U128};

struct TestAccounts {
    alice: String,
    oracle: String,
    token: String,
    owner: String,
}

fn test_accounts() -> TestAccounts {
    TestAccounts {
        alice: "alice".to_string(),
        oracle: "oracle".to_string(),
        token: "token".to_string(),
        owner: "owner".to_string(),
    }
}

fn init_with_oracle() -> (Contract, TestAccounts) {
    let accounts = test_accounts();
    let mut contract = Contract::init(accounts.owner.clone(), accounts.token.clone());
    contract.oracles.push(accounts.oracle.clone());
    (contract, accounts)
}

fn claim_settled(contract: &mut Contract, caller: &String, now: u32, success: bool) -> ClaimResultView {
    match contract.claim(caller, now, None).unwrap() {
        ClaimOutcome::Settled(view) => view,
        ClaimOutcome::Pending(request) => contract.on_transfer(request, success),
    }
}

#[test]
fn test_check_claim_availability_when_user_is_not_registered() {
    let (contract, accounts) = init_with_oracle();

    let alice_new_balance = contract
        .get_claimable_balance_for_account(&accounts.alice, 0, None)
        .0;
    assert_eq!(0, alice_new_balance);

    let alice_can_claim = contract.is_claim_available(&accounts.alice, 0);
    assert_eq!(ClaimAvailabilityView::Unregistered, alice_can_claim);
}

#[test]
fn test_check_claim_availability_when_user_has_tokens_and_claim_period_after_claim_is_not_passed() {
    let (mut contract, accounts) = init_with_oracle();

    let alice_balance = 400_000;
    contract
        .record_batch_for_hold(&accounts.oracle, 0, vec![(accounts.alice.clone(), U128(alice_balance))], None)
        .unwrap();

    let alice_new_balance = contract
        .get_claimable_balance_for_account(&accounts.alice, 0, None)
        .0;
    assert_eq!(alice_balance, alice_new_balance);

    let claim_timestamp = contract.claim_period + 100;
    claim_settled(&mut contract, &accounts.alice, claim_timestamp, true);

    let check_timestamp = claim_timestamp + 10;

    let alice_can_claim = contract.is_claim_available(&accounts.alice, check_timestamp);
    assert_eq!(
        alice_can_claim,
        ClaimAvailabilityView::Unavailable(claim_timestamp, contract.claim_period)
    );
}

#[test]
fn test_check_claim_availability_when_user_has_tokens_and_claim_period_after_claim_is_passed() {
    let (mut contract, accounts) = init_with_oracle();

    let alice_balance = 300_000;
    contract
        .record_batch_for_hold(&accounts.oracle, 0, vec![(accounts.alice.clone(), U128(alice_balance))], None)
        .unwrap();

    let alice_new_balance = contract
        .get_claimable_balance_for_account(&accounts.alice, 0, None)
        .0;
    assert_eq!(alice_balance, alice_new_balance);

    let claim_timestamp = contract.claim_period + 100;
    claim_settled(&mut contract, &accounts.alice, claim_timestamp, true);

    let check_timestamp = claim_timestamp + contract.claim_period + 100;

    let alice_can_claim = contract.is_claim_available(&accounts.alice, check_timestamp);
    assert_eq!(alice_can_claim, ClaimAvailabilityView::Available(0));
}

#[test]
fn test_check_claim_availability_when_user_has_tokens_and_claim_period_after_record_creation_is_not_passed() {
    let (mut contract, accounts) = init_with_oracle();

    let alice_balance = 400_000;
    contract
        .record_batch_for_hold(&accounts.oracle, 0, vec![(accounts.alice.clone(), U128(alice_balance))], None)
        .unwrap();

    let alice_new_balance = contract
        .get_claimable_balance_for_account(&accounts.alice, 0, None)
        .0;
    assert_eq!(alice_balance, alice_new_balance);

    let alice_can_claim = contract.is_claim_available(&accounts.alice, 0);
    assert_eq!(
        alice_can_claim,
        ClaimAvailabilityView::Unavailable(0, contract.claim_period)
    );
}

#[test]
fn test_check_claim_availability_when_user_has_tokens_and_claim_period_after_record_creation_is_passed() {
    let (mut contract, accounts) = init_with_oracle();

    let alice_balance = 300_000;
    contract
        .record_batch_for_hold(&accounts.oracle, 0, vec![(accounts.alice.clone(), U128(alice_balance))], None)
        .unwrap();

    let check_timestamp = contract.claim_period + 100;

    let alice_new_balance = contract
        .get_claimable_balance_for_account(&accounts.alice, check_timestamp, None)
        .0;
    assert_eq!(alice_balance, alice_new_balance);

    let alice_can_claim = contract.is_claim_available(&accounts.alice, check_timestamp);
    assert_eq!(alice_can_claim, ClaimAvailabilityView::Available(1));
}

#[test]
fn test_check_claim_availability_when_user_has_multiple_claim_records_and_claim_period_after_record_creation_is_passed()
{
    let (mut contract, accounts) = init_with_oracle();

    let record_count: u16 = 5;
    let alice_balance = 300_000;

    let mut now: u32 = 0;
    for i in 0..record_count {
        contract
            .record_batch_for_hold(&accounts.oracle, now, vec![(accounts.alice.clone(), U128(alice_balance))], None)
            .unwrap();
        now = i as u32;
    }

    let check_timestamp = contract.claim_period + 100;

    let alice_can_claim = contract.is_claim_available(&accounts.alice, check_timestamp);
    assert_eq!(alice_can_claim, ClaimAvailabilityView::Available(record_count as usize));
}

#[test]
fn test_claim_when_user_is_not_registered() {
    let (mut contract, accounts) = init_with_oracle();

    let alice_new_balance = contract
        .get_claimable_balance_for_account(&accounts.alice, 0, None)
        .0;
    assert_eq!(0, alice_new_balance);

    let result = contract.claim(&accounts.alice, 0, None);
    assert!(matches!(result, Err(ContractError::ClaimNotAvailable)));
}

#[test]
fn test_claim_when_user_has_tokens_and_claim_period_is_not_passed() {
    let (mut contract, accounts) = init_with_oracle();

    let alice_balance = 200_000;
    contract
        .record_batch_for_hold(&accounts.oracle, 0, vec![(accounts.alice.clone(), U128(alice_balance))], None)
        .unwrap();

    let result = contract.claim(&accounts.alice, 0, None);
    assert!(matches!(result, Err(ContractError::ClaimNotAvailable)));
}

#[test]
fn test_claim_when_user_has_tokens_and_current_time_matches_claim_period() {
    let (mut contract, accounts) = init_with_oracle();

    let alice_balance = 500_000;
    contract
        .record_batch_for_hold(&accounts.oracle, 0, vec![(accounts.alice.clone(), U128(alice_balance))], None)
        .unwrap();

    let check_timestamp = contract.burn_period;

    let alice_new_balance = contract
        .get_claimable_balance_for_account(&accounts.alice, check_timestamp, None)
        .0;
    assert_eq!(0, alice_new_balance);

    let alice_can_claim = contract.is_claim_available(&accounts.alice, check_timestamp);
    assert_eq!(alice_can_claim, ClaimAvailabilityView::Available(0));
}

#[test]
fn test_claim_when_user_has_tokens_and_claim_period_is_passed() {
    let (mut contract, accounts) = init_with_oracle();

    let alice_balance = 700_000;
    contract
        .record_batch_for_hold(&accounts.oracle, 0, vec![(accounts.alice.clone(), U128(alice_balance))], None)
        .unwrap();

    let now = contract.claim_period + 100;
    let claimed_amount = claim_settled(&mut contract, &accounts.alice, now, true);
    assert_eq!(alice_balance, claimed_amount.total.0);

    let alice_new_balance = contract
        .get_claimable_balance_for_account(&accounts.alice, now, None)
        .0;
    assert_eq!(0, alice_new_balance);
}

#[test]
fn test_claim_when_user_has_tokens_and_burn_period_is_passed() {
    let (mut contract, accounts) = init_with_oracle();

    let alice_balance = 12_000_000;
    contract
        .record_batch_for_hold(&accounts.oracle, 0, vec![(accounts.alice.clone(), U128(alice_balance))], None)
        .unwrap();

    let now = contract.burn_period + 100;
    let claimed_amount = claim_settled(&mut contract, &accounts.alice, now, true);
    assert_eq!(0, claimed_amount.total.0);

    let alice_new_balance = contract
        .get_claimable_balance_for_account(&accounts.alice, now, None)
        .0;
    assert_eq!(0, alice_new_balance);
}

#[test]
fn test_claim_when_user_has_tokens_and_claim_period_is_passed_and_transfer_failed() {
    let (mut contract, accounts) = init_with_oracle();

    let alice_balance = 123_100_000;
    contract
        .record_batch_for_hold(&accounts.oracle, 0, vec![(accounts.alice.clone(), U128(alice_balance))], None)
        .unwrap();

    let now = contract.claim_period + 100;
    let claimed_amount = claim_settled(&mut contract, &accounts.alice, now, false);
    assert_eq!(0, claimed_amount.total.0);

    let alice_new_balance = contract
        .get_claimable_balance_for_account(&accounts.alice, now, None)
        .0;
    assert_eq!(alice_balance, alice_new_balance);
}
