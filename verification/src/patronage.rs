//! The patronage engine: a per-block proportional credit accrues to a
//! token's issuer from its outstanding supply, is settled lazily before any
//! patronage-affecting read or write, and is claimed by minting it.
//!
//! Settlement is saturating: accrual never overflows and never lowers the
//! supply; what leaves the pool is only a claim, which zeroes it.

use vstd::prelude::*;

use crate::errors::TokenError;
use crate::ledger::{Ledger, PatronageState, TokenEntry, TokenState};
use crate::rate::Percent;
use crate::store::lemma_account_le_sum;

verus! {

/// The blocks elapsed since the last settlement; a counter that has not
/// advanced contributes nothing.
pub open spec fn elapsed_blocks(last: u64, now: u64) -> int {
    if now > last {
        now - last
    } else {
        0
    }
}

/// The linear accrual since the last settlement:
/// `rate × total_issuance × elapsed blocks`, with the rate applied as a
/// rounded-down fraction of the issuance.
pub open spec fn accrual_amount(rate_parts: u8, issuance: u64, last: u64, now: u64) -> int {
    (issuance * rate_parts / 100) * elapsed_blocks(last, now)
}

/// The credit the pool holds once settled up to `now`, saturating at the
/// representable maximum.
pub open spec fn settled_credit(p: PatronageState, issuance: u64, now: u64) -> u64 {
    let total = p.unclaimed_credit + accrual_amount(
        p.rate.parts(),
        issuance,
        p.last_settlement_block,
        now,
    );
    if total > u64::MAX {
        u64::MAX
    } else {
        total as u64
    }
}

/// The block a settlement at `now` records: the counter never moves backwards.
pub open spec fn settled_block(last: u64, now: u64) -> u64 {
    if now > last {
        now
    } else {
        last
    }
}

/// The whole patronage state once settled up to `now`.
pub open spec fn settled_patronage(p: PatronageState, issuance: u64, now: u64) -> PatronageState {
    PatronageState {
        rate: p.rate,
        last_settlement_block: settled_block(p.last_settlement_block, now),
        unclaimed_credit: settled_credit(p, issuance, now),
    }
}

/// A claim settles, empties the pool, and records the block; reading the
/// credit again in the same block then yields exactly zero.
pub proof fn lemma_claim_then_read_is_zero(p: PatronageState, issuance: u64, now: u64)
    ensures
        settled_credit(
            (PatronageState {
                rate: p.rate,
                last_settlement_block: settled_block(p.last_settlement_block, now),
                unclaimed_credit: 0,
            }),
            issuance,
            now,
        ) == 0,
{
    assert(elapsed_blocks(settled_block(p.last_settlement_block, now), now) == 0);
}

/// Computes the settled credit of a pool holding `unclaimed`, at rate
/// `rate`, last settled at `last`, read at `now`, over issuance `issuance`.
fn settle_credit_value(rate: Percent, issuance: u64, last: u64, now: u64, unclaimed: u64) -> (r:
    u64)
    requires
        rate.wf(),
    ensures
        r == settled_credit(
            (PatronageState { rate, last_settlement_block: last, unclaimed_credit: unclaimed }),
            issuance,
            now,
        ),
{
    let per_block = rate.mul_floor(issuance);
    let elapsed: u64 = if now > last {
        now - last
    } else {
        0
    };
    proof {
        assert((per_block as int) * (elapsed as int) + (unclaimed as int) <= u128::MAX as int)
            by (nonlinear_arith)
            requires
                0 <= per_block <= u64::MAX,
                0 <= elapsed <= u64::MAX,
                0 <= unclaimed <= u64::MAX,
        ;
        assert((per_block as int) * (elapsed as int) >= 0) by (nonlinear_arith)
            requires
                per_block >= 0,
                elapsed >= 0,
        ;
    }
    let wide: u128 = (per_block as u128) * (elapsed as u128) + (unclaimed as u128);
    if wide > u64::MAX as u128 {
        u64::MAX
    } else {
        wide as u64
    }
}

impl Ledger {
    /// Settles patronage for `t` up to `current_block` and returns the
    /// unclaimed credit; a read-through that mutates only the accrual state.
    pub fn get_patronage_credit(&mut self, t: u64, current_block: u64) -> (r: Result<
        u64,
        TokenError,
    >)
        requires
            old(self).wf(),
        ensures
            final(self).wf(),
            r is Ok <==> old(self).has_token(t),
            r is Err ==> *final(self) == *old(self) && r == Err::<u64, TokenError>(
                TokenError::TokenDoesNotExist,
            ),
            r matches Ok(v) ==> v == settled_credit(
                old(self).patronage_of(t),
                old(self).issuance_of(t),
                current_block,
            ) && final(self).patronage_of(t) == settled_patronage(
                old(self).patronage_of(t),
                old(self).issuance_of(t),
                current_block,
            ) && final(self).issuance_of(t) == old(self).issuance_of(t) && final(self).policy_of(t)
                == old(self).policy_of(t),
            final(self).store == old(self).store,
            forall|t2: u64| final(self).has_token(t2) == old(self).has_token(t2),
            forall|t2: u64|
                t2 != t && old(self).has_token(t2) ==> final(self).state_of(t2) == old(self).state_of(t2),
            final(self).next_token_id == old(self).next_token_id,
    {
        let i = match self.find_token(t) {
            Some(i) => i,
            None => {
                return Err(TokenError::TokenDoesNotExist);
            },
        };
        proof {
            crate::ledger::lemma_state_at_index(self.tokens@, i as int, t);
            assert(self.has_token(t)) by {
                assert(self.tokens@[i as int].id == t);
            }
        }
        let p = self.tokens[i].state.patronage;
        let iss = self.tokens[i].state.total_issuance;
        let credit = settle_credit_value(
            p.rate,
            iss,
            p.last_settlement_block,
            current_block,
            p.unclaimed_credit,
        );
        let newp = PatronageState {
            rate: p.rate,
            last_settlement_block: if current_block > p.last_settlement_block {
                current_block
            } else {
                p.last_settlement_block
            },
            unclaimed_credit: credit,
        };
        let ghost pre = *self;
        self.tokens[i].state.patronage = newp;
        proof {
            let entry = TokenEntry {
                id: t,
                state: TokenState { patronage: newp, ..pre.tokens@[i as int].state },
            };
            assert(self.tokens@ =~= pre.tokens@.update(i as int, entry));
            Ledger::lemma_wf_restated(pre, *self, t, i as int, entry);
            crate::ledger::lemma_state_update(pre.tokens@, i as int, entry);
        }
        Ok(credit)
    }

    /// Settles patronage for `t` up to `current_block`, mints the whole
    /// settled credit into `to_account`, and empties the pool. A claim of
    /// zero credit is a no-op, not an error.
    pub fn claim_patronage_credit(&mut self, t: u64, to_account: u64, current_block: u64) -> (r:
        Result<(), TokenError>)
        requires
            old(self).wf(),
        ensures
            final(self).wf(),
            r is Ok <==> old(self).has_token(t) && old(self).issuance_of(t) + settled_credit(
                old(self).patronage_of(t),
                old(self).issuance_of(t),
                current_block,
            ) <= u64::MAX,
            r == Err::<(), TokenError>(TokenError::TokenDoesNotExist) <==> !old(self).has_token(t),
            r == Err::<(), TokenError>(TokenError::Overflow) <==> old(self).has_token(t) && old(self).issuance_of(t) + settled_credit(
                old(self).patronage_of(t),
                old(self).issuance_of(t),
                current_block,
            ) > u64::MAX,
            r is Err ==> *final(self) == *old(self),
            r is Ok ==> final(self).patronage_of(t) == (PatronageState {
                rate: old(self).patronage_of(t).rate,
                last_settlement_block: settled_block(
                    old(self).patronage_of(t).last_settlement_block,
                    current_block,
                ),
                unclaimed_credit: 0,
            }) && final(self).issuance_of(t) == old(self).issuance_of(t) + settled_credit(
                old(self).patronage_of(t),
                old(self).issuance_of(t),
                current_block,
            ) && final(self).free_of(t, to_account) == old(self).free_of(t, to_account)
                + settled_credit(
                old(self).patronage_of(t),
                old(self).issuance_of(t),
                current_block,
            ) && final(self).reserved_of(t, to_account) == old(self).reserved_of(t, to_account)
                && final(self).policy_of(t) == old(self).policy_of(t),
            forall|t2: u64, a2: u64|
                !(t2 == t && a2 == to_account) ==> final(self).free_of(t2, a2) == old(self).free_of(t2, a2) && final(self).reserved_of(t2, a2) == old(self).reserved_of(
                    t2,
                    a2,
                ),
            forall|t2: u64| final(self).has_token(t2) == old(self).has_token(t2),
            forall|t2: u64|
                t2 != t && old(self).has_token(t2) ==> final(self).state_of(t2) == old(self).state_of(t2),
            final(self).next_token_id == old(self).next_token_id,
    {
        let i = match self.find_token(t) {
            Some(i) => i,
            None => {
                return Err(TokenError::TokenDoesNotExist);
            },
        };
        proof {
            crate::ledger::lemma_state_at_index(self.tokens@, i as int, t);
            assert(self.has_token(t)) by {
                assert(self.tokens@[i as int].id == t);
            }
        }
        let p = self.tokens[i].state.patronage;
        let iss = self.tokens[i].state.total_issuance;
        let credit = settle_credit_value(
            p.rate,
            iss,
            p.last_settlement_block,
            current_block,
            p.unclaimed_credit,
        );
        if credit > u64::MAX - iss {
            return Err(TokenError::Overflow);
        }
        proof {
            self.lemma_conservation(t);
            lemma_account_le_sum(self.store.entries@, t, to_account);
        }
        let ghost pre = *self;
        match self.store.credit(t, to_account, credit) {
            Ok(()) => {},
            Err(e) => {
                proof {
                    assert(false);
                }
                return Err(e);
            },
        }
        let newp = PatronageState {
            rate: p.rate,
            last_settlement_block: if current_block > p.last_settlement_block {
                current_block
            } else {
                p.last_settlement_block
            },
            unclaimed_credit: 0,
        };
        self.tokens[i].state.total_issuance = iss + credit;
        self.tokens[i].state.patronage = newp;
        proof {
            let entry = TokenEntry {
                id: t,
                state: TokenState {
                    total_issuance: (iss + credit) as u64,
                    patronage: newp,
                    ..pre.tokens@[i as int].state
                },
            };
            assert(self.tokens@ =~= pre.tokens@.update(i as int, entry));
            Ledger::lemma_wf_rebalanced(pre, *self, t, to_account, i as int, credit as int, entry);
            crate::ledger::lemma_state_update(pre.tokens@, i as int, entry);
        }
        Ok(())
    }

    /// Settles patronage for `t` up to `current_block`, then lowers the rate
    /// by `decrement`; the rate can only ever move downward through this
    /// operation and the result never exceeds the rate it replaces.
    pub fn reduce_patronage_rate_by(&mut self, t: u64, decrement: Percent, current_block: u64) -> (
    r: Result<(), TokenError>)
        requires
            old(self).wf(),
        ensures
            final(self).wf(),
            r is Ok <==> old(self).has_token(t) && decrement.parts() <= old(self).patronage_of(t).rate.parts(),
            r == Err::<(), TokenError>(TokenError::TokenDoesNotExist) <==> !old(self).has_token(t),
            r == Err::<(), TokenError>(TokenError::TargetPatronageRateIsHigherThanCurrentRate)
                <==> old(self).has_token(t) && decrement.parts() > old(self).patronage_of(t).rate.parts(),
            r is Err ==> *final(self) == *old(self),
            r is Ok ==> final(self).patronage_of(t).rate.parts() == old(self).patronage_of(t).rate.parts() - decrement.parts() && final(self).patronage_of(t).rate.parts() <= old(self).patronage_of(t).rate.parts() && final(self).patronage_of(t).last_settlement_block == settled_block(
                old(self).patronage_of(t).last_settlement_block,
                current_block,
            ) && final(self).patronage_of(t).unclaimed_credit == settled_credit(
                old(self).patronage_of(t),
                old(self).issuance_of(t),
                current_block,
            ) && final(self).issuance_of(t) == old(self).issuance_of(t) && final(self).policy_of(t)
                == old(self).policy_of(t),
            final(self).store == old(self).store,
            forall|t2: u64| final(self).has_token(t2) == old(self).has_token(t2),
            forall|t2: u64|
                t2 != t && old(self).has_token(t2) ==> final(self).state_of(t2) == old(self).state_of(t2),
            final(self).next_token_id == old(self).next_token_id,
    {
        let i = match self.find_token(t) {
            Some(i) => i,
            None => {
                return Err(TokenError::TokenDoesNotExist);
            },
        };
        proof {
            crate::ledger::lemma_state_at_index(self.tokens@, i as int, t);
            assert(self.has_token(t)) by {
                assert(self.tokens@[i as int].id == t);
            }
        }
        let p = self.tokens[i].state.patronage;
        let new_rate = match p.rate.checked_sub(&decrement) {
            Some(nr) => nr,
            None => {
                return Err(TokenError::TargetPatronageRateIsHigherThanCurrentRate);
            },
        };
        let iss = self.tokens[i].state.total_issuance;
        let credit = settle_credit_value(
            p.rate,
            iss,
            p.last_settlement_block,
            current_block,
            p.unclaimed_credit,
        );
        let newp = PatronageState {
            rate: new_rate,
            last_settlement_block: if current_block > p.last_settlement_block {
                current_block
            } else {
                p.last_settlement_block
            },
            unclaimed_credit: credit,
        };
        let ghost pre = *self;
        self.tokens[i].state.patronage = newp;
        proof {
            let entry = TokenEntry {
                id: t,
                state: TokenState { patronage: newp, ..pre.tokens@[i as int].state },
            };
            assert(self.tokens@ =~= pre.tokens@.update(i as int, entry));
            Ledger::lemma_wf_restated(pre, *self, t, i as int, entry);
            crate::ledger::lemma_state_update(pre.tokens@, i as int, entry);
        }
        Ok(())
    }
}

} // verus!
