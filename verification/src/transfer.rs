//! The transfer engine: moves funds between accounts of one token, gated by
//! the token's transfer policy. A destination is an account wrapper that
//! validates itself against the policy (visitor pattern); a one-to-many
//! transfer validates every destination and the total before any funds move.

use vstd::prelude::*;

use crate::errors::TokenError;
use crate::ledger::{Ledger, TokenEntry, TokenState, TransferPolicy};
use crate::store::lemma_account_le_sum;

verus! {

/// An account wrapper that encapsulates destination validation for a
/// transfer policy.
pub trait TransferLocationTrait<AccountId> {
    /// Whether this destination satisfies `policy`.
    spec fn is_valid_spec(&self, policy: &TransferPolicy) -> bool;

    /// The wrapped account.
    spec fn account_spec(&self) -> AccountId;

    /// Decides whether this destination is acceptable under `policy`.
    fn is_valid_location_for_policy(&self, policy: &TransferPolicy) -> (r: bool)
        ensures
            r == self.is_valid_spec(policy),
    ;

    /// Returns the wrapped account.
    fn location_account(&self) -> (r: AccountId)
        ensures
            r == self.account_spec(),
    ;

    /// Under a permissionless policy every destination validates; policy
    /// relaxation can therefore never be re-tightened by a destination.
    proof fn permissionless_is_valid(&self, policy: &TransferPolicy)
        requires
            policy is Permissionless,
        ensures
            self.is_valid_spec(policy),
    ;
}

/// A plain account destination: valid under a permissioned policy exactly
/// when the account belongs to the committed set, and always valid under a
/// permissionless one.
#[derive(Clone, Copy, PartialEq, Eq, Structural, Debug)]
pub struct AccountLocation {
    /// The destination account.
    pub account: u64,
}

impl TransferLocationTrait<u64> for AccountLocation {
    open spec fn is_valid_spec(&self, policy: &TransferPolicy) -> bool {
        match policy {
            TransferPolicy::Permissioned(allowed) => allowed@.contains(self.account),
            TransferPolicy::Permissionless => true,
        }
    }

    open spec fn account_spec(&self) -> u64 {
        self.account
    }

    fn is_valid_location_for_policy(&self, policy: &TransferPolicy) -> (r: bool) {
        match policy {
            TransferPolicy::Permissioned(allowed) => {
                let n = allowed.len();
                let mut i: usize = 0;
                while i < n
                    invariant
                        policy is Permissioned,
                        policy->Permissioned_0 == *allowed,
                        n == allowed@.len(),
                        i <= n,
                        forall|j: int| 0 <= j < i ==> allowed@[j] != self.account,
                    decreases n - i,
                {
                    if allowed[i] == self.account {
                        proof {
                            assert(allowed@.contains(self.account)) by {
                                assert(allowed@[i as int] == self.account);
                            }
                        }
                        return true;
                    }
                    i = i + 1;
                }
                false
            },
            TransferPolicy::Permissionless => true,
        }
    }

    fn location_account(&self) -> (r: u64) {
        self.account
    }

    proof fn permissionless_is_valid(&self, policy: &TransferPolicy) {
    }
}


/// The sum of all requested output amounts.
pub open spec fn outputs_total<D>(s: Seq<(D, u64)>) -> int
    decreases s.len(),
{
    if s.len() == 0 {
        0
    } else {
        s[0].1 + outputs_total(s.drop_first())
    }
}

/// What the outputs credit to account `a` in total.
pub open spec fn credited_to<D: TransferLocationTrait<u64>>(s: Seq<(D, u64)>, a: u64) -> int
    decreases s.len(),
{
    if s.len() == 0 {
        0
    } else {
        (if s[0].0.account_spec() == a {
            s[0].1 as int
        } else {
            0
        }) + credited_to(s.drop_first(), a)
    }
}

/// Whether every output's destination satisfies `policy`.
pub open spec fn all_valid<D: TransferLocationTrait<u64>>(
    s: Seq<(D, u64)>,
    policy: TransferPolicy,
) -> bool {
    forall|k: int| 0 <= k < s.len() ==> s[k].0.is_valid_spec(&policy)
}

/// Output amounts are unsigned, so their sum is nonnegative.
pub proof fn lemma_outputs_total_nonneg<D>(s: Seq<(D, u64)>)
    ensures
        outputs_total(s) >= 0,
    decreases s.len(),
{
    if s.len() > 0 {
        lemma_outputs_total_nonneg(s.drop_first());
    }
}

/// Appending an output adds its amount to the total and its credit to its
/// account.
pub proof fn lemma_outputs_push<D: TransferLocationTrait<u64>>(s: Seq<(D, u64)>, e: (D, u64), a: u64)
    ensures
        outputs_total(s.push(e)) == outputs_total(s) + e.1,
        credited_to(s.push(e), a) == credited_to(s, a) + (if e.0.account_spec() == a {
            e.1 as int
        } else {
            0
        }),
    decreases s.len(),
{
    if s.len() == 0 {
        assert(s.push(e).len() == 1);
        assert(s.push(e)[0] == e);
        assert(s.push(e).drop_first() =~= Seq::<(D, u64)>::empty());
        assert(s =~= Seq::<(D, u64)>::empty());
        assert(outputs_total(s.push(e).drop_first()) == 0);
        assert(credited_to(s.push(e).drop_first(), a) == 0);
    } else {
        assert(s.push(e)[0] == s[0]);
        assert(s.push(e).drop_first() =~= s.drop_first().push(e));
        lemma_outputs_push(s.drop_first(), e, a);
    }
}

/// Taking one more output extends the prefix total and credits by that
/// output's amount.
pub proof fn lemma_outputs_take_succ<D: TransferLocationTrait<u64>>(s: Seq<(D, u64)>, k: int, a: u64)
    requires
        0 <= k < s.len(),
    ensures
        outputs_total(s.take(k + 1)) == outputs_total(s.take(k)) + s[k].1,
        credited_to(s.take(k + 1), a) == credited_to(s.take(k), a) + (if s[k].0.account_spec()
            == a {
            s[k].1 as int
        } else {
            0
        }),
{
    assert(s.take(k + 1) =~= s.take(k).push(s[k]));
    lemma_outputs_push(s.take(k), s[k], a);
}

/// The total splits at any point into the prefix total and the rest.
pub proof fn lemma_outputs_total_split<D>(s: Seq<(D, u64)>, k: int)
    requires
        0 <= k <= s.len(),
    ensures
        outputs_total(s) == outputs_total(s.take(k)) + outputs_total(s.skip(k)),
    decreases k,
{
    if k == 0 {
        assert(s.take(0) =~= Seq::<(D, u64)>::empty());
        assert(s.skip(0) =~= s);
    } else {
        lemma_outputs_total_split(s, k - 1);
        assert(s.take(k) =~= s.take(k - 1).push(s[k - 1]));
        assert(outputs_total(s.take(k)) == outputs_total(s.take(k - 1)) + s[k - 1].1) by {
            lemma_outputs_total_push_amount(s.take(k - 1), s[k - 1]);
        }
        assert(s.skip(k - 1)[0] == s[k - 1]);
        assert(s.skip(k - 1).drop_first() =~= s.skip(k));
        assert(outputs_total(s.skip(k - 1)) == s[k - 1].1 + outputs_total(s.skip(k)));
    }
}

/// Appending an output adds its amount to the total (without trait bounds).
proof fn lemma_outputs_total_push_amount<D>(s: Seq<(D, u64)>, e: (D, u64))
    ensures
        outputs_total(s.push(e)) == outputs_total(s) + e.1,
    decreases s.len(),
{
    if s.len() == 0 {
        assert(s.push(e).len() == 1);
        assert(s.push(e)[0] == e);
        assert(s.push(e).drop_first() =~= Seq::<(D, u64)>::empty());
        assert(outputs_total(s.push(e).drop_first()) == 0);
    } else {
        assert(s.push(e)[0] == s[0]);
        assert(s.push(e).drop_first() =~= s.drop_first().push(e));
        lemma_outputs_total_push_amount(s.drop_first(), e);
    }
}

/// Once a token's policy has been relaxed to permissionless, destination
/// validation for that token succeeds unconditionally: no destination can be
/// rejected any more.
pub proof fn lemma_relaxed_policy_accepts<D: TransferLocationTrait<u64>>(l: Ledger, t: u64, d: &D)
    requires
        l.policy_of(t) is Permissionless,
    ensures
        d.is_valid_spec(&l.policy_of(t)),
{
    d.permissionless_is_valid(&l.policy_of(t));
}

impl Ledger {
    /// Relaxes the policy of `t` to permissionless; idempotent and one-way —
    /// no operation of this engine ever re-tightens it.
    pub fn change_to_permissionless(&mut self, t: u64) -> (r: Result<(), TokenError>)
        requires
            old(self).wf(),
        ensures
            final(self).wf(),
            r is Ok <==> old(self).has_token(t),
            r is Err ==> *final(self) == *old(self) && r == Err::<(), TokenError>(
                TokenError::TokenDoesNotExist,
            ),
            r is Ok ==> final(self).policy_of(t) is Permissionless && final(self).issuance_of(t)
                == old(self).issuance_of(t) && final(self).patronage_of(t) == old(
                self,
            ).patronage_of(t),
            final(self).store == old(self).store,
            forall|t2: u64| final(self).has_token(t2) == old(self).has_token(t2),
            forall|t2: u64|
                t2 != t && old(self).has_token(t2) ==> final(self).state_of(t2) == old(
                    self,
                ).state_of(t2),
            final(self).next_token_id == old(self).next_token_id,
    {
        let i = match self.find_token(t) {
            Some(i) => i,
            None => {
                return Err(TokenError::TokenDoesNotExist);
            },
        };
        proof {
            crate::ledger::lemma_state_at_index(self.tokens@, i as int, t);
            assert(self.has_token(t)) by {
                assert(self.tokens@[i as int].id == t);
            }
        }
        let ghost pre = *self;
        self.tokens[i].state.policy = TransferPolicy::Permissionless;
        proof {
            let entry = TokenEntry {
                id: t,
                state: TokenState {
                    policy: TransferPolicy::Permissionless,
                    ..pre.tokens@[i as int].state
                },
            };
            assert(self.tokens@ =~= pre.tokens@.update(i as int, entry));
            Ledger::lemma_wf_restated(pre, *self, t, i as int, entry);
            crate::ledger::lemma_state_update(pre.tokens@, i as int, entry);
        }
        Ok(())
    }

    /// Moves `amount` of `t` from `src`'s free balance to the destination's
    /// account, after the destination validates against the token's policy.
    /// A self-transfer is validated like any other and nets to no change.
    pub fn transfer<D: TransferLocationTrait<u64>>(
        &mut self,
        t: u64,
        src: u64,
        dst: &D,
        amount: u64,
    ) -> (r: Result<(), TokenError>)
        requires
            old(self).wf(),
        ensures
            final(self).wf(),
            r is Ok <==> old(self).has_token(t) && dst.is_valid_spec(&old(self).policy_of(t))
                && amount <= old(self).free_of(t, src),
            r == Err::<(), TokenError>(TokenError::TokenDoesNotExist) <==> !old(self).has_token(t),
            r == Err::<(), TokenError>(TokenError::InvalidDestination) <==> old(self).has_token(t)
                && !dst.is_valid_spec(&old(self).policy_of(t)),
            r == Err::<(), TokenError>(TokenError::InsufficientBalance) <==> old(self).has_token(t)
                && dst.is_valid_spec(&old(self).policy_of(t)) && amount > old(self).free_of(
                t,
                src,
            ),
            r is Err ==> *final(self) == *old(self),
            r is Ok ==> forall|a: u64| #![trigger final(self).free_of(t, a)]
                final(self).free_of(t, a) == old(self).free_of(t, a) - (if a == src {
                    amount as int
                } else {
                    0
                }) + (if a == dst.account_spec() {
                    amount as int
                } else {
                    0
                }),
            forall|t2: u64, a2: u64|
                t2 != t ==> final(self).free_of(t2, a2) == old(self).free_of(t2, a2),
            forall|t2: u64, a2: u64|
                final(self).reserved_of(t2, a2) == old(self).reserved_of(t2, a2),
            final(self).tokens == old(self).tokens,
            final(self).next_token_id == old(self).next_token_id,
    {
        let i = match self.find_token(t) {
            Some(i) => i,
            None => {
                return Err(TokenError::TokenDoesNotExist);
            },
        };
        proof {
            crate::ledger::lemma_state_at_index(self.tokens@, i as int, t);
            assert(self.has_token(t)) by {
                assert(self.tokens@[i as int].id == t);
            }
        }
        let valid = dst.is_valid_location_for_policy(&self.tokens[i].state.policy);
        if !valid {
            return Err(TokenError::InvalidDestination);
        }
        let (free, _) = self.store.balance(t, src);
        if amount > free {
            return Err(TokenError::InsufficientBalance);
        }
        let dst_account = dst.location_account();
        proof {
            self.lemma_conservation(t);
            lemma_account_le_sum(self.store.entries@, t, src);
        }
        let ghost pre = *self;
        match self.store.debit(t, src, amount, false) {
            Ok(()) => {},
            Err(e) => {
                proof {
                    assert(false);
                }
                return Err(e);
            },
        }
        proof {
            lemma_account_le_sum(self.store.entries@, t, dst_account);
        }
        match self.store.credit(t, dst_account, amount) {
            Ok(()) => {},
            Err(e) => {
                proof {
                    assert(false);
                }
                return Err(e);
            },
        }
        proof {
            assert forall|j: int|
                0 <= j < self.tokens@.len() implies (#[trigger] self.tokens@[j]).state.total_issuance
                == crate::store::token_sum(self.store.entries@, self.tokens@[j].id) by {
                assert(self.tokens@[j] == pre.tokens@[j]);
                if self.tokens@[j].id == t {
                    assert(self.store.sum_of(t) == pre.store.sum_of(t));
                } else {
                    assert(self.store.sum_of(self.tokens@[j].id) == pre.store.sum_of(
                        self.tokens@[j].id,
                    ));
                }
            }
            assert forall|t2: u64, a2: u64|
                self.store.has_account(t2, a2) implies t2 < self.next_token_id by {
                if !(t2 == t && a2 == dst_account) && !(t2 == t && a2 == src) {
                    assert(pre.store.has_account(t2, a2));
                }
            }
        }
        Ok(())
    }

    /// Moves funds from `src` to many destinations at once: every destination
    /// is validated against the policy and the total is checked against
    /// `src`'s free balance before any funds move, so a failure leaves every
    /// balance untouched.
    pub fn multi_output_transfer<D: TransferLocationTrait<u64>>(
        &mut self,
        t: u64,
        src: u64,
        outputs: &Vec<(D, u64)>,
    ) -> (r: Result<(), TokenError>)
        requires
            old(self).wf(),
        ensures
            final(self).wf(),
            r is Ok <==> old(self).has_token(t) && all_valid(outputs@, old(self).policy_of(t))
                && outputs_total(outputs@) <= old(self).free_of(t, src),
            r == Err::<(), TokenError>(TokenError::TokenDoesNotExist) <==> !old(self).has_token(t),
            r == Err::<(), TokenError>(TokenError::InvalidDestination) <==> old(self).has_token(t)
                && !all_valid(outputs@, old(self).policy_of(t)),
            r == Err::<(), TokenError>(TokenError::InsufficientBalance) <==> old(self).has_token(t)
                && all_valid(outputs@, old(self).policy_of(t)) && outputs_total(outputs@) > old(
                self,
            ).free_of(t, src),
            r is Err ==> *final(self) == *old(self),
            r is Ok ==> forall|a: u64| #![trigger final(self).free_of(t, a)]
                final(self).free_of(t, a) == old(self).free_of(t, a) - (if a == src {
                    outputs_total(outputs@)
                } else {
                    0
                }) + credited_to(outputs@, a),
            forall|t2: u64, a2: u64|
                t2 != t ==> final(self).free_of(t2, a2) == old(self).free_of(t2, a2),
            forall|t2: u64, a2: u64|
                final(self).reserved_of(t2, a2) == old(self).reserved_of(t2, a2),
            final(self).tokens == old(self).tokens,
            final(self).next_token_id == old(self).next_token_id,
    {
        let i = match self.find_token(t) {
            Some(i) => i,
            None => {
                return Err(TokenError::TokenDoesNotExist);
            },
        };
        proof {
            crate::ledger::lemma_state_at_index(self.tokens@, i as int, t);
            assert(self.has_token(t)) by {
                assert(self.tokens@[i as int].id == t);
            }
        }
        let m = outputs.len();
        let mut k: usize = 0;
        while k < m
            invariant
                *self == *old(self),
                self.wf(),
                i < self.tokens@.len(),
                self.tokens@[i as int].id == t,
                self.has_token(t),
                m == outputs@.len(),
                k <= m,
                forall|j: int|
                    0 <= j < k ==> outputs@[j].0.is_valid_spec(&self.policy_of(t)),
            decreases m - k,
        {
            proof {
                crate::ledger::lemma_state_at_index(self.tokens@, i as int, t);
            }
            let valid = outputs[k].0.is_valid_location_for_policy(&self.tokens[i].state.policy);
            if !valid {
                proof {
                    assert(!all_valid(outputs@, self.policy_of(t))) by {
                        assert(!outputs@[k as int].0.is_valid_spec(&self.policy_of(t)));
                    }
                }
                return Err(TokenError::InvalidDestination);
            }
            k = k + 1;
        }
        let mut total: u64 = 0;
        let mut k2: usize = 0;
        while k2 < m
            invariant
                *self == *old(self),
                self.wf(),
                i < self.tokens@.len(),
                self.tokens@[i as int].id == t,
                self.has_token(t),
                all_valid(outputs@, self.policy_of(t)),
                m == outputs@.len(),
                k2 <= m,
                total == outputs_total(outputs@.take(k2 as int)),
            decreases m - k2,
        {
            let amt = outputs[k2].1;
            proof {
                lemma_outputs_take_succ(outputs@, k2 as int, src);
            }
            if amt > u64::MAX - total {
                proof {
                    lemma_outputs_total_split(outputs@, k2 as int + 1);
                    lemma_outputs_total_nonneg(outputs@.skip(k2 as int + 1));
                }
                return Err(TokenError::InsufficientBalance);
            }
            total = total + amt;
            k2 = k2 + 1;
        }
        proof {
            assert(outputs@.take(m as int) =~= outputs@);
        }
        let (free, _) = self.store.balance(t, src);
        if total > free {
            return Err(TokenError::InsufficientBalance);
        }
        proof {
            self.lemma_conservation(t);
            lemma_account_le_sum(self.store.entries@, t, src);
        }
        let ghost pre = *self;
        let ghost iss = self.issuance_of(t);
        match self.store.debit(t, src, total, false) {
            Ok(()) => {},
            Err(e) => {
                proof {
                    assert(false);
                }
                return Err(e);
            },
        }
        let ghost mid = *self;
        proof {
            assert(t < self.next_token_id);
        }
        let mut k3: usize = 0;
        while k3 < m
            invariant
                m == outputs@.len(),
                k3 <= m,
                total == outputs_total(outputs@),
                mid.tokens@ == pre.tokens@,
                mid.next_token_id == pre.next_token_id,
                mid.store.wf(),
                pre.wf(),
                iss == pre.issuance_of(t),
                mid.store.sum_of(t) == iss - total,
                t < self.next_token_id,
                self.tokens == pre.tokens,
                self.next_token_id == pre.next_token_id,
                self.store.wf(),
                self.store.sum_of(t) == mid.store.sum_of(t) + outputs_total(
                    outputs@.take(k3 as int),
                ),
                forall|t2: u64| t2 != t ==> self.store.sum_of(t2) == mid.store.sum_of(t2),
                forall|a: u64| #![trigger self.store.free_of(t, a)]
                    self.store.free_of(t, a) == mid.store.free_of(t, a) + credited_to(
                        outputs@.take(k3 as int),
                        a,
                    ),
                forall|t2: u64, a2: u64|
                    t2 != t ==> self.store.free_of(t2, a2) == mid.store.free_of(t2, a2),
                forall|t2: u64, a2: u64|
                    self.store.reserved_of(t2, a2) == mid.store.reserved_of(t2, a2),
                forall|t2: u64, a2: u64|
                    self.store.has_account(t2, a2) ==> t2 < self.next_token_id,
            decreases m - k3,
        {
            let amt = outputs[k3].1;
            let acct = outputs[k3].0.location_account();
            proof {
                lemma_outputs_total_split(outputs@, k3 as int + 1);
                lemma_outputs_total_nonneg(outputs@.skip(k3 as int + 1));
                lemma_account_le_sum(self.store.entries@, t, acct);
                lemma_outputs_take_succ(outputs@, k3 as int, acct);
            }
            let ghost before = *self;
            match self.store.credit(t, acct, amt) {
                Ok(()) => {},
                Err(e) => {
                    proof {
                        assert(false);
                    }
                    return Err(e);
                },
            }
            proof {
                assert forall|a: u64| #![trigger self.store.free_of(t, a)]
                    self.store.free_of(t, a) == mid.store.free_of(t, a) + credited_to(
                        outputs@.take(k3 as int + 1),
                        a,
                    ) by {
                    lemma_outputs_take_succ(outputs@, k3 as int, a);
                    if a == acct {
                    } else {
                        assert(self.store.free_of(t, a) == before.store.free_of(t, a));
                    }
                }
            }
            k3 = k3 + 1;
        }
        proof {
            assert(outputs@.take(m as int) =~= outputs@);
            assert forall|j: int|
                0 <= j < self.tokens@.len() implies (#[trigger] self.tokens@[j]).state.total_issuance
                == crate::store::token_sum(self.store.entries@, self.tokens@[j].id) by {
                assert(self.tokens@[j] == pre.tokens@[j]);
                if self.tokens@[j].id == t {
                    assert(self.store.sum_of(t) == iss);
                } else {
                    assert(self.store.sum_of(self.tokens@[j].id) == mid.store.sum_of(
                        self.tokens@[j].id,
                    ));
                    assert(mid.store.sum_of(self.tokens@[j].id) == pre.store.sum_of(
                        self.tokens@[j].id,
                    ));
                }
            }
        }
        Ok(())
    }
}

} // verus!
