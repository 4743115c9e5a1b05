use token_ledger::errors::TokenError;
use token_ledger::ledger::{Ledger, TokenIssuanceParameters, TransferPolicy};
use token_ledger::rate::Percent;
use token_ledger::store::LedgerStore;

fn issue(ledger: &mut Ledger, rate: u8) -> u64 {
    let params = TokenIssuanceParameters {
        patronage_rate: Percent::from_percent(rate),
        policy: TransferPolicy::Permissionless,
    };
    ledger.issue_token(params, 0).unwrap()
}

#[test]
fn issue_starts_empty() {
    let mut ledger = Ledger::new();
    let t = issue(&mut ledger, 0);
    assert_eq!(ledger.current_issuance(t), Ok(0));
    assert_eq!(ledger.balance(t, 1), Ok(0));
    assert_eq!(ledger.reserved_balance(t, 1), Ok(0));
}

#[test]
fn issue_gives_fresh_identifiers() {
    let mut ledger = Ledger::new();
    let t1 = issue(&mut ledger, 0);
    let t2 = issue(&mut ledger, 0);
    assert_ne!(t1, t2);
}

#[test]
fn unknown_token_is_rejected() {
    let mut ledger = Ledger::new();
    assert_eq!(ledger.current_issuance(99), Err(TokenError::TokenDoesNotExist));
    assert_eq!(ledger.balance(99, 1), Err(TokenError::TokenDoesNotExist));
    assert_eq!(ledger.deposit_creating(99, 1, 10), Err(TokenError::TokenDoesNotExist));
    assert_eq!(ledger.slash(99, 1, 10), Err(TokenError::TokenDoesNotExist));
    assert_eq!(ledger.deissue_token(99), Err(TokenError::TokenDoesNotExist));
}

#[test]
fn deposit_creating_raises_balance_and_issuance() {
    let mut ledger = Ledger::new();
    let t = issue(&mut ledger, 0);
    assert_eq!(ledger.deposit_creating(t, 1, 500), Ok(()));
    assert_eq!(ledger.deposit_creating(t, 2, 250), Ok(()));
    assert_eq!(ledger.balance(t, 1), Ok(500));
    assert_eq!(ledger.balance(t, 2), Ok(250));
    assert_eq!(ledger.current_issuance(t), Ok(750));
}

#[test]
fn deposit_creating_overflow_is_rejected_unchanged() {
    let mut ledger = Ledger::new();
    let t = issue(&mut ledger, 0);
    assert_eq!(ledger.deposit_creating(t, 1, u64::MAX), Ok(()));
    assert_eq!(ledger.deposit_creating(t, 2, 1), Err(TokenError::Overflow));
    assert_eq!(ledger.balance(t, 2), Ok(0));
    assert_eq!(ledger.current_issuance(t), Ok(u64::MAX));
}

#[test]
fn deposit_into_existing_needs_a_live_account() {
    let mut ledger = Ledger::new();
    let t = issue(&mut ledger, 0);
    assert_eq!(ledger.deposit_into_existing(t, 1, 10), Err(TokenError::AccountDoesNotExist));
    assert_eq!(ledger.deposit_creating(t, 1, 10), Ok(()));
    assert_eq!(ledger.deposit_into_existing(t, 1, 5), Ok(()));
    assert_eq!(ledger.balance(t, 1), Ok(15));
    assert_eq!(ledger.current_issuance(t), Ok(15));
}

#[test]
fn slash_lowers_balance_and_issuance_symmetrically() {
    let mut ledger = Ledger::new();
    let t = issue(&mut ledger, 0);
    assert_eq!(ledger.deposit_creating(t, 1, 100), Ok(()));
    assert_eq!(ledger.slash(t, 1, 40), Ok(()));
    assert_eq!(ledger.balance(t, 1), Ok(60));
    assert_eq!(ledger.current_issuance(t), Ok(60));
}

#[test]
fn slash_more_than_free_fails_unchanged() {
    let mut ledger = Ledger::new();
    let t = issue(&mut ledger, 0);
    assert_eq!(ledger.deposit_creating(t, 1, 100), Ok(()));
    assert_eq!(ledger.slash(t, 1, 101), Err(TokenError::InsufficientBalance));
    assert_eq!(ledger.balance(t, 1), Ok(100));
    assert_eq!(ledger.current_issuance(t), Ok(100));
}

#[test]
fn reserve_moves_funds_between_buckets() {
    let mut ledger = Ledger::new();
    let t = issue(&mut ledger, 0);
    assert_eq!(ledger.deposit_creating(t, 1, 100), Ok(()));
    assert_eq!(ledger.reserve(t, 1, 30), Ok(()));
    assert_eq!(ledger.balance(t, 1), Ok(70));
    assert_eq!(ledger.reserved_balance(t, 1), Ok(30));
    assert_eq!(ledger.total_balance(t, 1), Ok(100));
    assert_eq!(ledger.current_issuance(t), Ok(100));
    assert_eq!(ledger.unreserve(t, 1, 30), Ok(()));
    assert_eq!(ledger.balance(t, 1), Ok(100));
    assert_eq!(ledger.reserved_balance(t, 1), Ok(0));
}

#[test]
fn reserve_more_than_free_fails_unchanged() {
    let mut ledger = Ledger::new();
    let t = issue(&mut ledger, 0);
    assert_eq!(ledger.deposit_creating(t, 1, 100), Ok(()));
    assert_eq!(ledger.reserve(t, 1, 101), Err(TokenError::InsufficientBalance));
    assert_eq!(ledger.balance(t, 1), Ok(100));
    assert_eq!(ledger.reserved_balance(t, 1), Ok(0));
}

#[test]
fn unreserve_more_than_reserved_fails_unchanged() {
    let mut ledger = Ledger::new();
    let t = issue(&mut ledger, 0);
    assert_eq!(ledger.deposit_creating(t, 1, 100), Ok(()));
    assert_eq!(ledger.reserve(t, 1, 30), Ok(()));
    assert_eq!(ledger.unreserve(t, 1, 31), Err(TokenError::InsufficientReservedBalance));
    assert_eq!(ledger.balance(t, 1), Ok(70));
    assert_eq!(ledger.reserved_balance(t, 1), Ok(30));
}

#[test]
fn deissue_refused_while_in_use() {
    let mut ledger = Ledger::new();
    let t = issue(&mut ledger, 0);
    assert_eq!(ledger.deposit_creating(t, 1, 100), Ok(()));
    assert_eq!(ledger.deissue_token(t), Err(TokenError::TokenStillInUse));
    assert_eq!(ledger.slash(t, 1, 100), Ok(()));
    assert_eq!(ledger.deissue_token(t), Ok(()));
    assert_eq!(ledger.current_issuance(t), Err(TokenError::TokenDoesNotExist));
}

#[test]
fn conservation_over_a_sequence_of_operations() {
    let mut ledger = Ledger::new();
    let t = issue(&mut ledger, 0);
    let accounts = [1u64, 2, 3, 4];
    assert_eq!(ledger.deposit_creating(t, 1, 1000), Ok(()));
    assert_eq!(ledger.deposit_creating(t, 2, 500), Ok(()));
    assert_eq!(ledger.reserve(t, 1, 200), Ok(()));
    assert_eq!(ledger.slash(t, 2, 100), Ok(()));
    assert_eq!(ledger.deposit_creating(t, 3, 50), Ok(()));
    assert_eq!(ledger.unreserve(t, 1, 150), Ok(()));
    let mut sum: u64 = 0;
    for a in accounts {
        sum += ledger.total_balance(t, a).unwrap();
    }
    assert_eq!(ledger.current_issuance(t), Ok(sum));
    assert_eq!(sum, 1450);
}

#[test]
fn issue_fails_only_on_identifier_exhaustion() {
    let mut ledger = Ledger {
        store: LedgerStore::new(),
        tokens: Vec::new(),
        next_token_id: u64::MAX,
    };
    let params = TokenIssuanceParameters {
        patronage_rate: Percent::from_percent(0),
        policy: TransferPolicy::Permissionless,
    };
    assert_eq!(ledger.issue_token(params, 0), Err(TokenError::Overflow));
}

#[test]
fn zeroed_account_behaves_like_an_absent_one() {
    let mut ledger = Ledger::new();
    let t = issue(&mut ledger, 0);
    assert_eq!(ledger.deposit_creating(t, 1, 100), Ok(()));
    assert_eq!(ledger.slash(t, 1, 100), Ok(()));
    // The zeroed entry reads exactly like the never-touched account 2.
    assert_eq!(ledger.balance(t, 1), ledger.balance(t, 2));
    assert_eq!(ledger.total_balance(t, 1), ledger.total_balance(t, 2));
    assert_eq!(
        ledger.deposit_into_existing(t, 1, 5),
        Err(TokenError::AccountDoesNotExist)
    );
    assert_eq!(ledger.deissue_token(t), Ok(()));
}
