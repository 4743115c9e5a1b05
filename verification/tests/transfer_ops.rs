use token_ledger::errors::TokenError;
use token_ledger::ledger::{Ledger, TokenIssuanceParameters, TransferPolicy};
use token_ledger::rate::Percent;
use token_ledger::transfer::AccountLocation;

fn issue_with_allowed(ledger: &mut Ledger, allowed: Vec<u64>) -> u64 {
    let params = TokenIssuanceParameters {
        patronage_rate: Percent::from_percent(0),
        policy: TransferPolicy::Permissioned(allowed),
    };
    ledger.issue_token(params, 0).unwrap()
}

#[test]
fn transfer_moves_funds_to_a_valid_destination() {
    let mut ledger = Ledger::new();
    let t = issue_with_allowed(&mut ledger, vec![30]);
    assert_eq!(ledger.deposit_creating(t, 1, 100), Ok(()));
    assert_eq!(ledger.transfer(t, 1, &AccountLocation { account: 30 }, 40), Ok(()));
    assert_eq!(ledger.balance(t, 1), Ok(60));
    assert_eq!(ledger.balance(t, 30), Ok(40));
    assert_eq!(ledger.current_issuance(t), Ok(100));
}

#[test]
fn transfer_to_invalid_destination_changes_nothing() {
    let mut ledger = Ledger::new();
    let t = issue_with_allowed(&mut ledger, vec![30]);
    assert_eq!(ledger.deposit_creating(t, 1, 100), Ok(()));
    assert_eq!(
        ledger.transfer(t, 1, &AccountLocation { account: 40 }, 50),
        Err(TokenError::InvalidDestination)
    );
    assert_eq!(ledger.balance(t, 1), Ok(100));
    assert_eq!(ledger.balance(t, 40), Ok(0));
}

#[test]
fn transfer_more_than_free_changes_nothing() {
    let mut ledger = Ledger::new();
    let t = issue_with_allowed(&mut ledger, vec![30]);
    assert_eq!(ledger.deposit_creating(t, 1, 100), Ok(()));
    assert_eq!(
        ledger.transfer(t, 1, &AccountLocation { account: 30 }, 101),
        Err(TokenError::InsufficientBalance)
    );
    assert_eq!(ledger.balance(t, 1), Ok(100));
    assert_eq!(ledger.balance(t, 30), Ok(0));
}

#[test]
fn self_transfer_validates_and_nets_to_nothing() {
    let mut ledger = Ledger::new();
    let t = issue_with_allowed(&mut ledger, vec![1]);
    assert_eq!(ledger.deposit_creating(t, 1, 100), Ok(()));
    assert_eq!(ledger.transfer(t, 1, &AccountLocation { account: 1 }, 60), Ok(()));
    assert_eq!(ledger.balance(t, 1), Ok(100));
}

#[test]
fn permissionless_accepts_any_destination() {
    let mut ledger = Ledger::new();
    let t = issue_with_allowed(&mut ledger, vec![30]);
    assert_eq!(ledger.deposit_creating(t, 1, 100), Ok(()));
    assert_eq!(
        ledger.transfer(t, 1, &AccountLocation { account: 40 }, 10),
        Err(TokenError::InvalidDestination)
    );
    assert_eq!(ledger.change_to_permissionless(t), Ok(()));
    // The destination that failed policy validation before now passes.
    assert_eq!(ledger.transfer(t, 1, &AccountLocation { account: 40 }, 10), Ok(()));
    assert_eq!(ledger.balance(t, 40), Ok(10));
    // The relaxation is idempotent.
    assert_eq!(ledger.change_to_permissionless(t), Ok(()));
    assert_eq!(ledger.transfer(t, 1, &AccountLocation { account: 41 }, 10), Ok(()));
    assert_eq!(ledger.balance(t, 41), Ok(10));
}

#[test]
fn multi_output_transfer_distributes_all_outputs() {
    let mut ledger = Ledger::new();
    let t = issue_with_allowed(&mut ledger, vec![30, 31]);
    assert_eq!(ledger.deposit_creating(t, 1, 100), Ok(()));
    let outputs = vec![
        (AccountLocation { account: 30 }, 25u64),
        (AccountLocation { account: 31 }, 35u64),
        (AccountLocation { account: 30 }, 5u64),
    ];
    assert_eq!(ledger.multi_output_transfer(t, 1, &outputs), Ok(()));
    assert_eq!(ledger.balance(t, 1), Ok(35));
    assert_eq!(ledger.balance(t, 30), Ok(30));
    assert_eq!(ledger.balance(t, 31), Ok(35));
    assert_eq!(ledger.current_issuance(t), Ok(100));
}

#[test]
fn multi_output_transfer_with_one_invalid_destination_changes_nothing() {
    let mut ledger = Ledger::new();
    let t = issue_with_allowed(&mut ledger, vec![30, 31]);
    assert_eq!(ledger.deposit_creating(t, 1, 100), Ok(()));
    let outputs = vec![
        (AccountLocation { account: 30 }, 25u64),
        (AccountLocation { account: 99 }, 35u64),
    ];
    assert_eq!(ledger.multi_output_transfer(t, 1, &outputs), Err(TokenError::InvalidDestination));
    assert_eq!(ledger.balance(t, 1), Ok(100));
    assert_eq!(ledger.balance(t, 30), Ok(0));
    assert_eq!(ledger.balance(t, 99), Ok(0));
}

#[test]
fn multi_output_transfer_over_free_balance_changes_nothing() {
    let mut ledger = Ledger::new();
    let t = issue_with_allowed(&mut ledger, vec![30, 31]);
    assert_eq!(ledger.deposit_creating(t, 1, 100), Ok(()));
    let outputs = vec![
        (AccountLocation { account: 30 }, 60u64),
        (AccountLocation { account: 31 }, 41u64),
    ];
    assert_eq!(
        ledger.multi_output_transfer(t, 1, &outputs),
        Err(TokenError::InsufficientBalance)
    );
    assert_eq!(ledger.balance(t, 1), Ok(100));
    assert_eq!(ledger.balance(t, 30), Ok(0));
    assert_eq!(ledger.balance(t, 31), Ok(0));
}

#[test]
fn multi_output_transfer_total_overflow_is_insufficient() {
    let mut ledger = Ledger::new();
    let t = issue_with_allowed(&mut ledger, vec![30, 31]);
    assert_eq!(ledger.deposit_creating(t, 1, 100), Ok(()));
    let outputs = vec![
        (AccountLocation { account: 30 }, u64::MAX),
        (AccountLocation { account: 31 }, u64::MAX),
    ];
    assert_eq!(
        ledger.multi_output_transfer(t, 1, &outputs),
        Err(TokenError::InsufficientBalance)
    );
    assert_eq!(ledger.balance(t, 1), Ok(100));
}
