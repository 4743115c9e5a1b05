use token_ledger::errors::TokenError;
use token_ledger::ledger::{Ledger, TokenIssuanceParameters, TransferPolicy};
use token_ledger::rate::Percent;

fn issue_at(ledger: &mut Ledger, rate: u8, block: u64) -> u64 {
    let params = TokenIssuanceParameters {
        patronage_rate: Percent::from_percent(rate),
        policy: TransferPolicy::Permissionless,
    };
    ledger.issue_token(params, block).unwrap()
}

#[test]
fn accrual_follows_the_linear_formula() {
    // Token issued at block 0 with rate 0.10; 1000 units outstanding; after
    // 100 blocks the pool holds rate x issuance x elapsed units.
    let mut ledger = Ledger::new();
    let t = issue_at(&mut ledger, 10, 0);
    assert_eq!(ledger.deposit_creating(t, 1, 1000), Ok(()));
    assert_eq!(ledger.get_patronage_credit(t, 100), Ok(10_000));
}

#[test]
fn accrual_rounds_the_rate_share_down() {
    let mut ledger = Ledger::new();
    let t = issue_at(&mut ledger, 10, 0);
    assert_eq!(ledger.deposit_creating(t, 1, 15), Ok(()));
    // 15 x 10 / 100 = 1 per block, rounded down.
    assert_eq!(ledger.get_patronage_credit(t, 3), Ok(3));
}

#[test]
fn claim_mints_the_credit_and_zeroes_the_pool() {
    let mut ledger = Ledger::new();
    let t = issue_at(&mut ledger, 10, 0);
    assert_eq!(ledger.deposit_creating(t, 1, 1000), Ok(()));
    assert_eq!(ledger.claim_patronage_credit(t, 2, 100), Ok(()));
    assert_eq!(ledger.balance(t, 2), Ok(10_000));
    assert_eq!(ledger.current_issuance(t), Ok(11_000));
    // Read again in the same block: the pool is empty.
    assert_eq!(ledger.get_patronage_credit(t, 100), Ok(0));
}

#[test]
fn claim_of_zero_credit_is_a_no_op() {
    let mut ledger = Ledger::new();
    let t = issue_at(&mut ledger, 0, 0);
    assert_eq!(ledger.deposit_creating(t, 1, 1000), Ok(()));
    assert_eq!(ledger.claim_patronage_credit(t, 2, 50), Ok(()));
    assert_eq!(ledger.balance(t, 2), Ok(0));
    assert_eq!(ledger.current_issuance(t), Ok(1000));
}

#[test]
fn rate_reduction_by_more_than_current_is_rejected() {
    let mut ledger = Ledger::new();
    let t = issue_at(&mut ledger, 10, 0);
    assert_eq!(
        ledger.reduce_patronage_rate_by(t, Percent::from_percent(11), 0),
        Err(TokenError::TargetPatronageRateIsHigherThanCurrentRate)
    );
}

#[test]
fn rate_reduction_settles_and_lowers_the_rate() {
    let mut ledger = Ledger::new();
    let t = issue_at(&mut ledger, 10, 0);
    assert_eq!(ledger.deposit_creating(t, 1, 1000), Ok(()));
    // Settle 10 blocks at 10%, then drop the rate to 4%.
    assert_eq!(ledger.reduce_patronage_rate_by(t, Percent::from_percent(6), 10), Ok(()));
    // 10 blocks at 10% already settled; 10 more at 4%.
    assert_eq!(ledger.get_patronage_credit(t, 20), Ok(1000 + 400));
}

#[test]
fn accrual_before_issue_block_contributes_nothing() {
    let mut ledger = Ledger::new();
    let t = issue_at(&mut ledger, 10, 50);
    assert_eq!(ledger.deposit_creating(t, 1, 1000), Ok(()));
    // A counter that has not advanced past the settlement block adds nothing.
    assert_eq!(ledger.get_patronage_credit(t, 50), Ok(0));
    assert_eq!(ledger.get_patronage_credit(t, 10), Ok(0));
}

#[test]
fn accrual_saturates_and_an_overclaim_is_rejected() {
    let mut ledger = Ledger::new();
    let t = issue_at(&mut ledger, 100, 0);
    assert_eq!(ledger.deposit_creating(t, 1, u64::MAX / 2), Ok(()));
    // At full rate over that many blocks the pool saturates instead of
    // wrapping.
    assert_eq!(ledger.get_patronage_credit(t, u64::MAX), Ok(u64::MAX));
    // Minting the saturated credit would overflow the issuance; the claim
    // is rejected and the state is unchanged.
    assert_eq!(ledger.claim_patronage_credit(t, 2, u64::MAX), Err(TokenError::Overflow));
    assert_eq!(ledger.balance(t, 2), Ok(0));
    assert_eq!(ledger.current_issuance(t), Ok(u64::MAX / 2));
}
