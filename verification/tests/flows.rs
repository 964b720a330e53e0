use std::collections::BTreeMap;

use sweat_claim::Contract;
use sweat_claim::account::{AccountRecord, AccountRecordLegacy};
use sweat_claim::burn::BurnOutcome;
use sweat_claim::claim::ClaimOutcome;
use sweat_claim::claim_all::ClaimAllOutcome;
use sweat_claim::migration::ContractLegacy;
use sweat_claim::record::batch_total;
use sweat_claim::types::{ClaimAvailabilityView, ContractError, U128};

struct TestAccounts {
    alice: String,
    oracle: String,
    token: String,
    owner: String,
}

fn test_accounts() -> TestAccounts {
    TestAccounts {
        alice: "alice".to_string(),
        oracle: "oracle".to_string(),
        token: "token".to_string(),
        owner: "owner".to_string(),
    }
}

fn init_with_oracle() -> (Contract, TestAccounts) {
    let accounts = test_accounts();
    let mut contract = Contract::init(accounts.owner.clone(), accounts.token.clone());
    contract.oracles.push(accounts.oracle.clone());
    (contract, accounts)
}

fn set_test_future_success(data: &mut BTreeMap<String, String>, name: &str, success: bool) {
    data.insert(name.to_owned(), success.to_string());
}

fn get_test_future_success(data: &BTreeMap<String, String>, name: &str) -> bool {
    let Some(value) = data.get(name) else {
        return true;
    };
    value.parse().unwrap()
}

#[test]
fn convert_milliseconds_to_unix_timestamp_successfully() {
    let millis: u64 = 1_699_038_575_819;
    let timestamp = sweat_claim::types::ms_timestamp_to_seconds(millis);

    assert_eq!(1_699_038_575, timestamp);
}

#[test]
fn test_data_storage() {
    let name = "test_future";
    let mut data: BTreeMap<String, String> = BTreeMap::new();
    assert!(get_test_future_success(&data, name));
    set_test_future_success(&mut data, name, false);
    assert!(!get_test_future_success(&data, name));
    set_test_future_success(&mut data, name, true);
    assert!(get_test_future_success(&data, name));
}

#[test]
fn record_claim_and_probe_flow() {
    // record 100 for the participant, wait out the claim period, probe, claim,
    // and end with nothing left to claim
    let (mut contract, accounts) = init_with_oracle();

    contract
        .record_batch_for_hold(&accounts.oracle, 0, vec![(accounts.alice.clone(), U128(100))], None)
        .unwrap();

    let now = contract.claim_period + 1;
    assert_eq!(
        contract.is_claim_available(&accounts.alice, now),
        ClaimAvailabilityView::Available(1)
    );

    let outcome = contract.claim(&accounts.alice, now, None).unwrap();
    let result = match outcome {
        ClaimOutcome::Pending(request) => contract.on_transfer(request, true),
        ClaimOutcome::Settled(_) => panic!("Expected value"),
    };
    assert!(result.success);
    assert_eq!(100, result.total.0);

    assert_eq!(0, contract.get_claimable_balance_for_account(&accounts.alice, now, None).0);
}

#[test]
fn dead_zone_and_burn_flow() {
    // an entry past the burn period is no longer claimable but is swept in
    // full by the next burn, and a second burn right after finds nothing
    let (mut contract, accounts) = init_with_oracle();

    contract
        .record_batch_for_hold(&accounts.oracle, 0, vec![(accounts.alice.clone(), U128(100))], None)
        .unwrap();

    let now = contract.burn_period + 1;
    assert_eq!(0, contract.get_claimable_balance_for_account(&accounts.alice, now, None).0);

    let burnt = match contract.burn(&accounts.oracle, now).unwrap() {
        BurnOutcome::Pending(request) => contract.on_burn(request, true).0,
        BurnOutcome::Settled(_) => panic!("Expected value"),
    };
    assert_eq!(100, burnt);
    assert!(contract.accruals.entries.is_empty());

    let burnt_again = match contract.burn(&accounts.oracle, now).unwrap() {
        BurnOutcome::Settled(value) => value.0,
        BurnOutcome::Pending(_) => panic!("Expected value"),
    };
    assert_eq!(0, burnt_again);
}

#[test]
fn failed_transfer_restores_balance() {
    // force the external transfer to fail: the claim settles with a zero
    // total and the balance is claimable again afterwards
    let (mut contract, accounts) = init_with_oracle();
    let mut data: BTreeMap<String, String> = BTreeMap::new();
    set_test_future_success(&mut data, "ext_transfer", false);

    contract
        .record_batch_for_hold(&accounts.oracle, 0, vec![(accounts.alice.clone(), U128(100))], None)
        .unwrap();

    let now = contract.claim_period + 1;
    let outcome = contract.claim(&accounts.alice, now, None).unwrap();
    let result = match outcome {
        ClaimOutcome::Pending(request) => {
            contract.on_transfer(request, get_test_future_success(&data, "ext_transfer"))
        },
        ClaimOutcome::Settled(_) => panic!("Expected value"),
    };
    assert!(!result.success);
    assert_eq!(0, result.total.0);

    assert_eq!(100, contract.get_claimable_balance_for_account(&accounts.alice, now, None).0);
}

#[test]
fn claim_multiple_assets() {
    // claim over all assets with accruals in two assets returns one result
    // per asset, each with its own total
    let (mut contract, accounts) = init_with_oracle();

    contract
        .register_asset(&accounts.oracle, "USDT".to_string(), "usdt_token".to_string())
        .unwrap();

    contract
        .record_batch_for_hold(&accounts.oracle, 0, vec![(accounts.alice.clone(), U128(100))], None)
        .unwrap();
    contract
        .record_batch_for_hold(
            &accounts.oracle,
            0,
            vec![(accounts.alice.clone(), U128(50))],
            Some("USDT".to_string()),
        )
        .unwrap();

    let now = contract.claim_period + 1;
    let mut outcome = contract.claim_all(&accounts.alice, now).unwrap();
    let results = loop {
        match outcome {
            ClaimAllOutcome::Settled(view) => break view,
            ClaimAllOutcome::Pending(pending) => {
                outcome = Ok::<ClaimAllOutcome, ContractError>(
                    contract.on_asset_transfer(
                        pending.now,
                        pending.account_id,
                        pending.head,
                        pending.tail,
                        pending.result,
                        true,
                    ),
                )
                .unwrap();
            },
        }
    };

    assert_eq!(2, results.0.len());
    assert_eq!("SWEAT", results.0[0].asset);
    assert!(results.0[0].success);
    assert_eq!(100, results.0[0].total.0);
    assert_eq!("USDT", results.0[1].asset);
    assert!(results.0[1].success);
    assert_eq!(50, results.0[1].total.0);

    assert_eq!(0, contract.get_claimable_balance_for_account(&accounts.alice, now, None).0);
    assert_eq!(
        0,
        contract
            .get_claimable_balance_for_account(&accounts.alice, now, Some("USDT".to_string()))
            .0
    );
}

#[test]
fn claim_unknown_asset_is_refused() {
    let (mut contract, accounts) = init_with_oracle();

    contract
        .record_batch_for_hold(&accounts.oracle, 0, vec![(accounts.alice.clone(), U128(100))], None)
        .unwrap();

    let now = contract.claim_period + 1;
    let result = contract.claim(&accounts.alice, now, Some("USDT".to_string()));
    assert!(matches!(result, Err(ContractError::NotFound)));
}

#[test]
fn record_unknown_asset_is_refused() {
    let (mut contract, accounts) = init_with_oracle();

    let result = contract.record_batch_for_hold(
        &accounts.oracle,
        0,
        vec![(accounts.alice.clone(), U128(100))],
        Some("USDT".to_string()),
    );
    assert!(matches!(result, Err(ContractError::NotFound)));
}

#[test]
fn burn_while_service_call_running_is_refused() {
    let (mut contract, accounts) = init_with_oracle();

    contract
        .record_batch_for_hold(&accounts.oracle, 0, vec![(accounts.alice.clone(), U128(100))], None)
        .unwrap();

    let now = contract.burn_period + 1;
    let pending = match contract.burn(&accounts.oracle, now).unwrap() {
        BurnOutcome::Pending(request) => request,
        BurnOutcome::Settled(_) => panic!("Expected value"),
    };

    let second = contract.burn(&accounts.oracle, now);
    assert!(matches!(second, Err(ContractError::AlreadyLocked)));

    contract.on_burn(pending, true);
    assert!(!contract.is_service_call_running);
}

#[test]
fn burn_by_not_oracle_is_refused() {
    let (mut contract, accounts) = init_with_oracle();
    let result = contract.burn(&accounts.alice, 0);
    assert!(matches!(result, Err(ContractError::Unauthorized)));
}

#[test]
fn burn_status_reports_oldest_claimable_entry() {
    let (mut contract, accounts) = init_with_oracle();

    assert!(matches!(
        contract.get_burn_status(&accounts.alice, 0),
        Err(ContractError::NotFound)
    ));

    contract
        .record_batch_for_hold(&accounts.oracle, 10, vec![(accounts.alice.clone(), U128(100))], None)
        .unwrap();
    contract
        .record_batch_for_hold(&accounts.oracle, 20, vec![(accounts.alice.clone(), U128(200))], None)
        .unwrap();

    let status = contract.get_burn_status(&accounts.alice, 30).unwrap();
    assert_eq!(Some(10), status.min_claimable_ts);
    assert_eq!(10, status.claim_period_refreshed_at);
    assert_eq!(contract.burn_period, status.burn_period);
}

#[test]
fn legacy_record_is_migrated_on_first_touch() {
    // the legacy schema upgrade carries the old single-asset state over, and
    // a legacy participant record joins the current store on the next record
    let accounts = test_accounts();
    let mut legacy_contract = Contract::init(accounts.owner.clone(), accounts.token.clone());
    legacy_contract.oracles.push(accounts.oracle.clone());
    legacy_contract
        .record_batch_for_hold(&accounts.oracle, 0, vec![(accounts.alice.clone(), U128(70))], None)
        .unwrap();

    let old_state = ContractLegacy {
        token_account_id: legacy_contract.token_account_id,
        oracles: legacy_contract.oracles,
        claim_period: legacy_contract.claim_period,
        burn_period: legacy_contract.burn_period,
        accruals: legacy_contract.accruals,
        accounts: vec![(
            accounts.alice.clone(),
            AccountRecordLegacy {
                accruals: vec![(0, 0)],
                is_enabled: true,
                claim_period_refreshed_at: 0,
                is_locked: false,
            },
        )],
        is_service_call_running: false,
    };

    let mut contract = Contract::migrate(accounts.owner.clone(), old_state);
    assert!(contract.get_account(&accounts.alice).is_none());
    assert_eq!(1, contract.accounts_legacy.len());

    contract
        .record_batch_for_hold(&accounts.oracle, 5, vec![(accounts.alice.clone(), U128(30))], None)
        .unwrap();

    assert!(contract.accounts_legacy.is_empty());
    let record = contract.get_account(&accounts.alice).unwrap();
    assert_eq!(0, record.claim_period_refreshed_at);
    assert_eq!(100, contract.get_claimable_balance_for_account(&accounts.alice, 5, None).0);
}

#[test]
fn asset_registry_round_trip() {
    let (mut contract, accounts) = init_with_oracle();

    assert_eq!(Some(accounts.token.clone()), contract.get_token_account_id(&"SWEAT".to_string()));
    assert_eq!(None, contract.get_token_account_id(&"USDT".to_string()));

    contract
        .register_asset(&accounts.oracle, "USDT".to_string(), "usdt_token".to_string())
        .unwrap();

    let assets = contract.get_assets();
    assert_eq!(1, assets.len());
    assert_eq!("USDT", assets[0].0);
    assert_eq!("usdt_token", assets[0].1);

    assert_eq!(
        Some("usdt_token".to_string()),
        contract.get_token_account_id(&"USDT".to_string())
    );
    assert_eq!(
        Some("USDT".to_string()),
        contract.get_asset_for_account(&"usdt_token".to_string())
    );
    assert_eq!(None, contract.get_asset_for_account(&accounts.alice));
}

#[test]
fn sweat_accrual_views() {
    let mut record = AccountRecord::new(7, None);
    assert_eq!(7, record.claim_period_refreshed_at);
    assert!(record.get_sweat_accruals().unwrap().is_empty());
    assert!(record.get_sweat_accruals_unsafe().is_empty());

    record.get_sweat_accruals_unsafe_mut().push((7, 0));
    assert_eq!(vec![(7u32, 0u32)], *record.get_sweat_accruals_unsafe());

    let versioned = record.into_versioned();
    let sweat_claim::account::AccountRecordVersioned::V1(inner) = versioned;
    assert_eq!(1, inner.get_sweat_accruals_unsafe().len());
}

#[test]
fn batch_totals_add_up() {
    let accounts = test_accounts();
    let batch = vec![(accounts.alice.clone(), U128(30)), (accounts.alice.clone(), U128(12))];
    assert_eq!(Some(42), batch_total(&batch));

    let overflowing = vec![
        (accounts.alice.clone(), U128(u128::MAX)),
        (accounts.alice.clone(), U128(1)),
    ];
    assert_eq!(None, batch_total(&overflowing));
}

#[test]
fn empty_batch_changes_nothing() {
    let (mut contract, accounts) = init_with_oracle();
    contract.record_batch_for_hold(&accounts.oracle, 0, vec![], None).unwrap();
    assert!(contract.accruals.entries.is_empty());
    assert!(contract.get_account(&accounts.alice).is_none());
}

#[test]
fn reregistering_an_asset_resets_its_buckets() {
    let (mut contract, accounts) = init_with_oracle();
    contract
        .register_asset(&accounts.oracle, "USDT".to_string(), "usdt_token".to_string())
        .unwrap();
    contract
        .record_batch_for_hold(
            &accounts.oracle,
            0,
            vec![(accounts.alice.clone(), U128(40))],
            Some("USDT".to_string()),
        )
        .unwrap();
    assert_eq!(
        40,
        contract
            .get_claimable_balance_for_account(&accounts.alice, 0, Some("USDT".to_string()))
            .0
    );

    contract
        .register_asset(&accounts.oracle, "USDT".to_string(), "other_token".to_string())
        .unwrap();
    assert_eq!(
        0,
        contract
            .get_claimable_balance_for_account(&accounts.alice, 0, Some("USDT".to_string()))
            .0
    );
    assert_eq!(
        Some("other_token".to_string()),
        contract.get_token_account_id(&"USDT".to_string())
    );
}

#[test]
fn record_without_default_accruals() {
    let record = AccountRecord::new(3, Some("USDT".to_string()));
    assert!(record.get_sweat_accruals().is_none());
}

