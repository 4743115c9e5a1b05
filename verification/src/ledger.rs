//! The token registry over the balance store: issuance and deissuance,
//! supply-changing deposits and slashes, reservation, and the balance
//! queries. The patronage and transfer engines extend the same `Ledger`
//! type in their own modules.
//!
//! The registry's central invariant is conservation: for every registered
//! token, `total_issuance` equals the sum of `free + reserved` over all of
//! that token's accounts, after every completed operation.

use vstd::prelude::*;

use crate::errors::TokenError;
use crate::rate::Percent;
use crate::store::{
    LedgerStore, is_key, lemma_account_le_sum, lemma_sum_absent, lemma_sum_all_zero, share,
    token_sum,
};

verus! {

/// The destination-validation mode of a token.
///
/// A permissioned token only accepts destinations that satisfy the externally
/// supplied validation predicate against the committed destination set; a
/// permissionless token accepts any destination. The only mutation this core
/// offers is the one-way relaxation to `Permissionless`.
#[derive(Clone, Debug)]
pub enum TransferPolicy {
    /// Destinations must belong to the committed set of accounts.
    Permissioned(Vec<u64>),
    /// Any destination is accepted.
    Permissionless,
}

/// The patronage side of a token: a rate that only ever decreases, the block
/// accrual was last settled at, and the credit accrued but not yet claimed.
#[derive(Clone, Copy, PartialEq, Eq, Structural, Debug)]
pub struct PatronageState {
    /// Fraction of the outstanding supply credited per elapsed block.
    pub rate: Percent,
    /// The block number accrual has been settled up to.
    pub last_settlement_block: u64,
    /// Credit accrued by settlement and not yet claimed.
    pub unclaimed_credit: u64,
}

/// Everything the registry holds per token.
#[derive(Clone, Debug)]
pub struct TokenState {
    /// The sum of all accounts' holdings of this token.
    pub total_issuance: u64,
    /// The patronage accrual state.
    pub patronage: PatronageState,
    /// The destination-validation mode for transfers of this token.
    pub policy: TransferPolicy,
}

/// A registered token and its state.
#[derive(Clone, Debug)]
pub struct TokenEntry {
    /// The token's identifier, unique in the registry and never reused.
    pub id: u64,
    /// The token's registered state.
    pub state: TokenState,
}

/// The caller-specified characteristics of a token being issued.
#[derive(Clone, Debug)]
pub struct TokenIssuanceParameters {
    /// The initial patronage rate.
    pub patronage_rate: Percent,
    /// The initial transfer policy.
    pub policy: TransferPolicy,
}

/// Whether no two entries carry the same token identifier.
pub open spec fn distinct_ids(s: Seq<TokenEntry>) -> bool {
    forall|i: int, j: int| 0 <= i < j < s.len() ==> s[i].id != s[j].id
}

/// Whether some entry carries identifier `t`.
pub open spec fn has_id(s: Seq<TokenEntry>, t: u64) -> bool {
    exists|i: int| 0 <= i < s.len() && s[i].id == t
}

/// The state of the first entry carrying identifier `t`.
pub open spec fn state_at(s: Seq<TokenEntry>, t: u64) -> TokenState
    decreases s.len(),
{
    if s.len() == 0 {
        arbitrary()
    } else if s[0].id == t {
        s[0].state
    } else {
        state_at(s.drop_first(), t)
    }
}

/// With distinct identifiers, the state read for `t` is that of any entry
/// carrying `t`.
pub proof fn lemma_state_at_index(s: Seq<TokenEntry>, i: int, t: u64)
    requires
        distinct_ids(s),
        0 <= i < s.len(),
        s[i].id == t,
    ensures
        state_at(s, t) == s[i].state,
    decreases s.len(),
{
    if i > 0 {
        lemma_state_at_index(s.drop_first(), i - 1, t);
    }
}

/// Replacing the entry at `i` by one with the same identifier changes only
/// the state read for that identifier; identifiers stay distinct.
pub proof fn lemma_state_update(s: Seq<TokenEntry>, i: int, e: TokenEntry)
    requires
        distinct_ids(s),
        0 <= i < s.len(),
        e.id == s[i].id,
    ensures
        distinct_ids(s.update(i, e)),
        forall|t2: u64| #![trigger state_at(s.update(i, e), t2)]
            state_at(s.update(i, e), t2) == if t2 == e.id {
                e.state
            } else {
                state_at(s, t2)
            },
        forall|t2: u64| has_id(s.update(i, e), t2) == has_id(s, t2),
    decreases s.len(),
{
    assert forall|p: int, q: int|
        0 <= p < q < s.update(i, e).len() implies s.update(i, e)[p].id != s.update(
        i,
        e,
    )[q].id by {
        assert(s.update(i, e)[p] == if p == i { e } else { s[p] });
        assert(s.update(i, e)[q] == if q == i { e } else { s[q] });
    }
    assert forall|t2: u64| has_id(s.update(i, e), t2) == has_id(s, t2) by {
        if has_id(s.update(i, e), t2) {
            let j = choose|j: int| 0 <= j < s.update(i, e).len() && s.update(i, e)[j].id == t2;
            assert(s[j].id == if j == i { s[i].id } else { s[j].id });
            assert(s[j].id == t2);
        }
        if has_id(s, t2) {
            let j = choose|j: int| 0 <= j < s.len() && s[j].id == t2;
            assert(s.update(i, e)[j].id == t2);
        }
    }
    assert forall|t2: u64| #![trigger state_at(s.update(i, e), t2)]
        state_at(s.update(i, e), t2) == (if t2 == e.id {
            e.state
        } else {
            state_at(s, t2)
        }) by {
        lemma_state_update_one(s, i, e, t2);
    }
}

/// The single-identifier core of `lemma_state_update`.
proof fn lemma_state_update_one(s: Seq<TokenEntry>, i: int, e: TokenEntry, t2: u64)
    requires
        distinct_ids(s),
        0 <= i < s.len(),
        e.id == s[i].id,
    ensures
        state_at(s.update(i, e), t2) == if t2 == e.id {
            e.state
        } else {
            state_at(s, t2)
        },
    decreases s.len(),
{
    if i == 0 {
        assert(s.update(0, e).drop_first() =~= s.drop_first());
        if t2 != e.id && s[0].id == t2 {
            assert(false);
        }
    } else {
        assert(s.update(i, e).drop_first() =~= s.drop_first().update(i - 1, e));
        assert(distinct_ids(s.drop_first())) by {
            assert forall|p: int, q: int|
                0 <= p < q < s.drop_first().len() implies s.drop_first()[p].id
                != s.drop_first()[q].id by {
                assert(s.drop_first()[p] == s[p + 1]);
                assert(s.drop_first()[q] == s[q + 1]);
            }
        }
        lemma_state_update_one(s.drop_first(), i - 1, e, t2);
        if s[0].id == t2 {
            assert(s[i].id != t2);
        }
    }
}

/// Appending an entry with a fresh identifier changes only the state read
/// for that identifier; identifiers stay distinct.
pub proof fn lemma_state_push(s: Seq<TokenEntry>, e: TokenEntry)
    requires
        distinct_ids(s),
        !has_id(s, e.id),
    ensures
        distinct_ids(s.push(e)),
        state_at(s.push(e), e.id) == e.state,
        forall|t2: u64| #![trigger state_at(s.push(e), t2)]
            t2 != e.id ==> state_at(s.push(e), t2) == state_at(s, t2),
        forall|t2: u64| has_id(s.push(e), t2) == (has_id(s, t2) || t2 == e.id),
    decreases s.len(),
{
    assert forall|p: int, q: int|
        0 <= p < q < s.push(e).len() implies s.push(e)[p].id != s.push(e)[q].id by {
        if q == s.len() {
            assert(s.push(e)[p] == s[p]);
            assert(s.push(e)[q] == e);
            if s[p].id == e.id {
                assert(has_id(s, e.id));
            }
        } else {
            assert(s.push(e)[p] == s[p]);
            assert(s.push(e)[q] == s[q]);
        }
    }
    assert forall|t2: u64| has_id(s.push(e), t2) == (has_id(s, t2) || t2 == e.id) by {
        if has_id(s.push(e), t2) {
            let j = choose|j: int| 0 <= j < s.push(e).len() && s.push(e)[j].id == t2;
            if j < s.len() {
                assert(s[j].id == t2);
            }
        }
        if has_id(s, t2) {
            let j = choose|j: int| 0 <= j < s.len() && s[j].id == t2;
            assert(s.push(e)[j].id == t2);
        }
        if t2 == e.id {
            assert(s.push(e)[s.len() as int].id == t2);
        }
    }
    assert forall|t2: u64| #![trigger state_at(s.push(e), t2)]
        t2 != e.id ==> state_at(s.push(e), t2) == state_at(s, t2) by {
        if t2 != e.id {
            lemma_state_push_other(s, e, t2);
        }
    }
    lemma_state_push_same(s, e);
}

/// Pushing a fresh entry leaves the state of other identifiers unread.
proof fn lemma_state_push_other(s: Seq<TokenEntry>, e: TokenEntry, t2: u64)
    requires
        t2 != e.id,
    ensures
        state_at(s.push(e), t2) == state_at(s, t2),
    decreases s.len(),
{
    if s.len() == 0 {
        assert(s =~= Seq::<TokenEntry>::empty());
        assert(s.push(e).len() == 1);
        assert(s.push(e)[0] == e);
        assert(s.push(e).drop_first() =~= Seq::<TokenEntry>::empty());
    } else {
        assert(s.push(e)[0] == s[0]);
        assert(s.push(e).drop_first() =~= s.drop_first().push(e));
        lemma_state_push_other(s.drop_first(), e, t2);
    }
}

/// Pushing a fresh entry makes its state readable under its identifier.
proof fn lemma_state_push_same(s: Seq<TokenEntry>, e: TokenEntry)
    requires
        !has_id(s, e.id),
    ensures
        state_at(s.push(e), e.id) == e.state,
    decreases s.len(),
{
    if s.len() == 0 {
        assert(s.push(e).len() == 1);
        assert(s.push(e)[0] == e);
    } else {
        assert(s.push(e)[0] == s[0]);
        assert(s[0].id != e.id) by {
            if s[0].id == e.id {
                assert(has_id(s, e.id));
            }
        }
        assert(!has_id(s.drop_first(), e.id)) by {
            if has_id(s.drop_first(), e.id) {
                let j = choose|j: int| 0 <= j < s.drop_first().len() && s.drop_first()[j].id == e.id;
                assert(s[j + 1].id == e.id);
            }
        }
        assert(s.push(e).drop_first() =~= s.drop_first().push(e));
        lemma_state_push_same(s.drop_first(), e);
    }
}

/// Removing the entry at `i` forgets exactly its identifier; the states of
/// the remaining identifiers are unchanged.
pub proof fn lemma_state_remove(s: Seq<TokenEntry>, i: int)
    requires
        distinct_ids(s),
        0 <= i < s.len(),
    ensures
        distinct_ids(s.remove(i)),
        !has_id(s.remove(i), s[i].id),
        forall|t2: u64| t2 != s[i].id ==> has_id(s.remove(i), t2) == has_id(s, t2),
        forall|t2: u64| #![trigger state_at(s.remove(i), t2)]
            t2 != s[i].id ==> state_at(s.remove(i), t2) == state_at(s, t2),
    decreases s.len(),
{
    assert forall|p: int, q: int|
        0 <= p < q < s.remove(i).len() implies s.remove(i)[p].id != s.remove(i)[q].id by {
        assert(s.remove(i)[p] == if p < i { s[p] } else { s[p + 1] });
        assert(s.remove(i)[q] == if q < i { s[q] } else { s[q + 1] });
    }
    assert(!has_id(s.remove(i), s[i].id)) by {
        if has_id(s.remove(i), s[i].id) {
            let j = choose|j: int| 0 <= j < s.remove(i).len() && s.remove(i)[j].id == s[i].id;
            assert(s.remove(i)[j] == if j < i { s[j] } else { s[j + 1] });
        }
    }
    assert forall|t2: u64| t2 != s[i].id implies has_id(s.remove(i), t2) == has_id(s, t2) by {
        if has_id(s.remove(i), t2) {
            let j = choose|j: int| 0 <= j < s.remove(i).len() && s.remove(i)[j].id == t2;
            assert(s.remove(i)[j] == if j < i { s[j] } else { s[j + 1] });
        }
        if has_id(s, t2) {
            let j = choose|j: int| 0 <= j < s.len() && s[j].id == t2;
            if j < i {
                assert(s.remove(i)[j].id == t2);
            } else {
                assert(j != i);
                assert(s.remove(i)[j - 1].id == t2);
            }
        }
    }
    assert forall|t2: u64| #![trigger state_at(s.remove(i), t2)]
        t2 != s[i].id implies state_at(s.remove(i), t2) == state_at(s, t2) by {
        lemma_state_remove_one(s, i, t2);
    }
}

/// The single-identifier core of `lemma_state_remove`.
proof fn lemma_state_remove_one(s: Seq<TokenEntry>, i: int, t2: u64)
    requires
        0 <= i < s.len(),
        t2 != s[i].id,
    ensures
        state_at(s.remove(i), t2) == state_at(s, t2),
    decreases s.len(),
{
    if i == 0 {
        assert(s.remove(0) =~= s.drop_first());
    } else {
        assert(s.remove(i).drop_first() =~= s.drop_first().remove(i - 1));
        assert(s.remove(i)[0] == s[0]);
        lemma_state_remove_one(s.drop_first(), i - 1, t2);
    }
}


/// The multi-asset ledger: the balance store, the registered tokens, and the
/// next identifier to issue. Identifiers are never reused.
#[derive(Clone, Debug)]
pub struct Ledger {
    /// The per-token, per-account balance entries.
    pub store: LedgerStore,
    /// The registered tokens.
    pub tokens: Vec<TokenEntry>,
    /// The identifier the next issued token will get.
    pub next_token_id: u64,
}

impl Ledger {
    /// Well-formedness: distinct entries, identifiers below the issuance
    /// cursor, rates within bounds, and conservation — every registered
    /// token's `total_issuance` equals the summed holdings of its accounts.
    pub open spec fn wf(self) -> bool {
        &&& self.store.wf()
        &&& distinct_ids(self.tokens@)
        &&& forall|i: int|
            0 <= i < self.tokens@.len() ==> (#[trigger] self.tokens@[i]).id < self.next_token_id
        &&& forall|i: int|
            0 <= i < self.tokens@.len() ==> (#[trigger] self.tokens@[i]).state.patronage.rate.wf()
        &&& forall|t2: u64, a2: u64|
            self.store.has_account(t2, a2) ==> t2 < self.next_token_id
        &&& forall|i: int|
            0 <= i < self.tokens@.len() ==> (#[trigger] self.tokens@[i]).state.total_issuance
                == token_sum(self.store.entries@, self.tokens@[i].id)
    }

    /// Whether token `t` is registered.
    pub open spec fn has_token(self, t: u64) -> bool {
        has_id(self.tokens@, t)
    }

    /// The registered state of token `t`.
    pub open spec fn state_of(self, t: u64) -> TokenState {
        state_at(self.tokens@, t)
    }

    /// The total issuance of token `t`.
    pub open spec fn issuance_of(self, t: u64) -> u64 {
        self.state_of(t).total_issuance
    }

    /// The patronage state of token `t`.
    pub open spec fn patronage_of(self, t: u64) -> PatronageState {
        self.state_of(t).patronage
    }

    /// The transfer policy of token `t`.
    pub open spec fn policy_of(self, t: u64) -> TransferPolicy {
        self.state_of(t).policy
    }

    /// The free balance of account `a` for token `t`.
    pub open spec fn free_of(self, t: u64, a: u64) -> u64 {
        self.store.free_of(t, a)
    }

    /// The reserved balance of account `a` for token `t`.
    pub open spec fn reserved_of(self, t: u64, a: u64) -> u64 {
        self.store.reserved_of(t, a)
    }

    /// For a registered token, conservation gives the sum explicitly.
    pub proof fn lemma_conservation(self, t: u64)
        requires
            self.wf(),
            self.has_token(t),
        ensures
            self.issuance_of(t) == token_sum(self.store.entries@, t),
    {
        let i = choose|i: int| 0 <= i < self.tokens@.len() && self.tokens@[i].id == t;
        lemma_state_at_index(self.tokens@, i, t);
    }

    /// Well-formedness survives a balance change of one `(t, who)` account
    /// matched by an equal issuance adjustment of token `t`, whatever else of
    /// the token's state the replacement entry carries.
    pub(crate) proof fn lemma_wf_rebalanced(
        pre: Ledger,
        post: Ledger,
        t: u64,
        who: u64,
        i: int,
        delta: int,
        entry: TokenEntry,
    )
        requires
            pre.wf(),
            0 <= i < pre.tokens@.len(),
            pre.tokens@[i].id == t,
            post.next_token_id == pre.next_token_id,
            entry.id == t,
            entry.state.total_issuance == pre.tokens@[i].state.total_issuance + delta,
            entry.state.patronage.rate.wf(),
            post.tokens@ == pre.tokens@.update(i, entry),
            post.store.wf(),
            post.store.sum_of(t) == pre.store.sum_of(t) + delta,
            forall|t2: u64| t2 != t ==> post.store.sum_of(t2) == pre.store.sum_of(t2),
            forall|t2: u64, a2: u64|
                !(t2 == t && a2 == who) ==> post.store.has_account(t2, a2) == pre.store.has_account(
                    t2,
                    a2,
                ),
        ensures
            post.wf(),
    {
        lemma_state_update(pre.tokens@, i, entry);
        assert forall|j: int|
            0 <= j < post.tokens@.len() implies (#[trigger] post.tokens@[j]).id
            < post.next_token_id by {
            assert(post.tokens@[j] == if j == i {
                entry
            } else {
                pre.tokens@[j]
            });
        }
        assert forall|j: int|
            0 <= j < post.tokens@.len() implies (
            #[trigger] post.tokens@[j]).state.patronage.rate.wf() by {
            assert(post.tokens@[j] == if j == i {
                entry
            } else {
                pre.tokens@[j]
            });
        }
        assert forall|t2: u64, a2: u64|
            post.store.has_account(t2, a2) implies t2 < post.next_token_id by {
            if !(t2 == t && a2 == who) {
                assert(pre.store.has_account(t2, a2));
            }
        }
        assert forall|j: int|
            0 <= j < post.tokens@.len() implies (#[trigger] post.tokens@[j]).state.total_issuance
            == token_sum(post.store.entries@, post.tokens@[j].id) by {
            if j == i {
                assert(pre.tokens@[i].state.total_issuance == token_sum(pre.store.entries@, t));
                assert(post.store.sum_of(t) == pre.store.sum_of(t) + delta);
            } else {
                assert(post.tokens@[j] == pre.tokens@[j]);
                assert(pre.tokens@[j].id != t);
                assert(post.store.sum_of(pre.tokens@[j].id) == pre.store.sum_of(
                    pre.tokens@[j].id,
                ));
            }
        }
    }

    /// Well-formedness survives a store change that moves no sums and
    /// occupies no new keys, with the registry untouched.
    pub(crate) proof fn lemma_wf_moved(pre: Ledger, post: Ledger)
        requires
            pre.wf(),
            post.tokens@ == pre.tokens@,
            post.next_token_id == pre.next_token_id,
            post.store.wf(),
            forall|t2: u64| post.store.sum_of(t2) == pre.store.sum_of(t2),
            forall|t2: u64, a2: u64|
                post.store.has_account(t2, a2) == pre.store.has_account(t2, a2),
        ensures
            post.wf(),
    {
        assert forall|j: int|
            0 <= j < post.tokens@.len() implies (#[trigger] post.tokens@[j]).state.total_issuance
            == token_sum(post.store.entries@, post.tokens@[j].id) by {
            assert(post.tokens@[j] == pre.tokens@[j]);
            assert(post.store.sum_of(pre.tokens@[j].id) == pre.store.sum_of(pre.tokens@[j].id));
        }
    }

    /// Well-formedness survives replacing one token's state without touching
    /// its issuance or the store.
    pub(crate) proof fn lemma_wf_restated(pre: Ledger, post: Ledger, t: u64, i: int, entry: TokenEntry)
        requires
            pre.wf(),
            0 <= i < pre.tokens@.len(),
            pre.tokens@[i].id == t,
            post.next_token_id == pre.next_token_id,
            entry.id == t,
            entry.state.total_issuance == pre.tokens@[i].state.total_issuance,
            entry.state.patronage.rate.wf(),
            post.tokens@ == pre.tokens@.update(i, entry),
            post.store == pre.store,
        ensures
            post.wf(),
    {
        Ledger::lemma_wf_rebalanced(pre, post, t, pre.tokens@[i].id, i, 0, entry);
    }

    /// An empty ledger: no tokens, every balance zero.
    pub fn new() -> (r: Ledger)
        ensures
            r.wf(),
            forall|t: u64| !r.has_token(t),
            forall|t: u64, a: u64| r.free_of(t, a) == 0 && r.reserved_of(t, a) == 0,
            r.next_token_id == 1,
    {
        Ledger { store: LedgerStore::new(), tokens: Vec::new(), next_token_id: 1 }
    }

    /// Finds the index of the entry registered for `t`, if any.
    pub(crate) fn find_token(&self, t: u64) -> (r: Option<usize>)
        ensures
            match r {
                Some(i) => i < self.tokens@.len() && self.tokens@[i as int].id == t,
                None => !self.has_token(t),
            },
    {
        let n = self.tokens.len();
        let mut i: usize = 0;
        while i < n
            invariant
                n == self.tokens@.len(),
                i <= n,
                forall|j: int| 0 <= j < i ==> self.tokens@[j].id != t,
            decreases n - i,
        {
            if self.tokens[i].id == t {
                return Some(i);
            }
            i = i + 1;
        }
        None
    }

    /// The total issuance of a registered token.
    pub fn current_issuance(&self, t: u64) -> (r: Result<u64, TokenError>)
        requires
            self.wf(),
        ensures
            r matches Ok(v) ==> self.has_token(t) && v == self.issuance_of(t),
            r is Err <==> !self.has_token(t),
            r is Err ==> r == Err::<u64, TokenError>(TokenError::TokenDoesNotExist),
    {
        match self.find_token(t) {
            Some(i) => {
                proof {
                    lemma_state_at_index(self.tokens@, i as int, t);
                }
                Ok(self.tokens[i].state.total_issuance)
            },
            None => Err(TokenError::TokenDoesNotExist),
        }
    }

    /// The free balance of `who` for a registered token.
    pub fn balance(&self, t: u64, who: u64) -> (r: Result<u64, TokenError>)
        requires
            self.wf(),
        ensures
            r matches Ok(v) ==> self.has_token(t) && v == self.free_of(t, who),
            r is Err <==> !self.has_token(t),
            r is Err ==> r == Err::<u64, TokenError>(TokenError::TokenDoesNotExist),
    {
        match self.find_token(t) {
            Some(_) => {
                let (free, _) = self.store.balance(t, who);
                Ok(free)
            },
            None => Err(TokenError::TokenDoesNotExist),
        }
    }

    /// The reserved balance of `who` for a registered token.
    pub fn reserved_balance(&self, t: u64, who: u64) -> (r: Result<u64, TokenError>)
        requires
            self.wf(),
        ensures
            r matches Ok(v) ==> self.has_token(t) && v == self.reserved_of(t, who),
            r is Err <==> !self.has_token(t),
            r is Err ==> r == Err::<u64, TokenError>(TokenError::TokenDoesNotExist),
    {
        match self.find_token(t) {
            Some(_) => {
                let (_, reserved) = self.store.balance(t, who);
                Ok(reserved)
            },
            None => Err(TokenError::TokenDoesNotExist),
        }
    }

    /// The free plus reserved balance of `who` for a registered token.
    pub fn total_balance(&self, t: u64, who: u64) -> (r: Result<u64, TokenError>)
        requires
            self.wf(),
        ensures
            r matches Ok(v) ==> self.has_token(t) && v == self.free_of(t, who) + self.reserved_of(
                t,
                who,
            ),
            r is Err <==> !self.has_token(t),
            r is Err ==> r == Err::<u64, TokenError>(TokenError::TokenDoesNotExist),
    {
        match self.find_token(t) {
            Some(i) => {
                proof {
                    lemma_state_at_index(self.tokens@, i as int, t);
                    lemma_account_le_sum(self.store.entries@, t, who);
                    self.lemma_conservation(t);
                }
                let (free, reserved) = self.store.balance(t, who);
                Ok(free + reserved)
            },
            None => Err(TokenError::TokenDoesNotExist),
        }
    }

    /// Registers a fresh token with zero issuance, the caller-specified
    /// patronage rate, the caller-specified policy, and accrual settled at
    /// `current_block`. Fails only on identifier exhaustion.
    pub fn issue_token(&mut self, params: TokenIssuanceParameters, current_block: u64) -> (r:
        Result<u64, TokenError>)
        requires
            old(self).wf(),
            params.patronage_rate.wf(),
        ensures
            final(self).wf(),
            r is Ok <==> old(self).next_token_id < u64::MAX,
            r is Err ==> *final(self) == *old(self) && r == Err::<u64, TokenError>(
                TokenError::Overflow,
            ),
            r matches Ok(id) ==> id == old(self).next_token_id && !old(self).has_token(id)
                && final(self).next_token_id == old(self).next_token_id + 1 && final(self).has_token(id) && final(self).state_of(id) == (TokenState {
                total_issuance: 0,
                patronage: (PatronageState {
                    rate: params.patronage_rate,
                    last_settlement_block: current_block,
                    unclaimed_credit: 0,
                }),
                policy: params.policy,
            }),
            forall|t2: u64|
                t2 != old(self).next_token_id ==> final(self).has_token(t2) == old(
                    self,
                ).has_token(t2),
            forall|t2: u64|
                t2 != old(self).next_token_id && old(self).has_token(t2) ==> final(self).state_of(t2) == old(self).state_of(t2),
            final(self).store == old(self).store,
    {
        if self.next_token_id == u64::MAX {
            return Err(TokenError::Overflow);
        }
        let id = self.next_token_id;
        let entry = TokenEntry {
            id,
            state: TokenState {
                total_issuance: 0,
                patronage: PatronageState {
                    rate: params.patronage_rate,
                    last_settlement_block: current_block,
                    unclaimed_credit: 0,
                },
                policy: params.policy,
            },
        };
        let ghost e0 = entry;
        let ghost toks0 = self.tokens@;
        proof {
            assert(!has_id(toks0, id)) by {
                if has_id(toks0, id) {
                    let j = choose|j: int| 0 <= j < toks0.len() && toks0[j].id == id;
                }
            }
            lemma_state_push(toks0, e0);
            assert(token_sum(self.store.entries@, id) == 0) by {
                assert forall|j: int|
                    0 <= j < self.store.entries@.len()
                        implies self.store.entries@[j].token != id by {
                    let e = self.store.entries@[j];
                    assert(is_key(e, e.token, e.account));
                    assert(self.store.has_account(e.token, e.account));
                }
                lemma_sum_absent(self.store.entries@, id);
            }
        }
        self.tokens.push(entry);
        self.next_token_id = id + 1;
        Ok(id)
    }

    /// Unregisters a token; rejected with `TokenStillInUse` while any account
    /// still holds a nonzero balance of it.
    pub fn deissue_token(&mut self, t: u64) -> (r: Result<(), TokenError>)
        requires
            old(self).wf(),
        ensures
            final(self).wf(),
            r is Ok <==> old(self).has_token(t) && old(self).store.sum_of(t) == 0,
            r == Err::<(), TokenError>(TokenError::TokenDoesNotExist) <==> !old(self).has_token(t),
            r == Err::<(), TokenError>(TokenError::TokenStillInUse) <==> old(self).has_token(t)
                && old(self).store.sum_of(t) != 0,
            r is Err ==> *final(self) == *old(self),
            r is Ok ==> !final(self).has_token(t),
            forall|t2: u64|
                t2 != t ==> final(self).has_token(t2) == old(self).has_token(t2),
            forall|t2: u64|
                t2 != t && old(self).has_token(t2) ==> final(self).state_of(t2) == old(self).state_of(t2),
            final(self).store == old(self).store,
            final(self).next_token_id == old(self).next_token_id,
    {
        let i = match self.find_token(t) {
            Some(i) => i,
            None => {
                return Err(TokenError::TokenDoesNotExist);
            },
        };
        proof {
            assert(self.has_token(t)) by {
                assert(self.tokens@[i as int].id == t);
            }
        }
        let n = self.store.entries.len();
        let mut j: usize = 0;
        while j < n
            invariant
                *self == *old(self),
                self.wf(),
                i < self.tokens@.len(),
                self.tokens@[i as int].id == t,
                self.has_token(t),
                n == self.store.entries@.len(),
                j <= n,
                forall|k: int| 0 <= k < j ==> share(self.store.entries@[k], t) == 0,
            decreases n - j,
        {
            let e = self.store.entries[j];
            if e.token == t && (e.free > 0 || e.reserved > 0) {
                proof {
                    crate::store::lemma_contrib_le_sum(self.store.entries@, j as int, t);
                }
                return Err(TokenError::TokenStillInUse);
            }
            j = j + 1;
        }
        proof {
            lemma_sum_all_zero(self.store.entries@, t);
            lemma_state_remove(self.tokens@, i as int);
        }
        self.tokens.remove(i);
        Ok(())
    }

    /// Mints `amount` of `t` into `who`, creating the account if absent, and
    /// raises the total issuance by the same amount atomically.
    pub fn deposit_creating(&mut self, t: u64, who: u64, amount: u64) -> (r: Result<
        (),
        TokenError,
    >)
        requires
            old(self).wf(),
        ensures
            final(self).wf(),
            r is Ok <==> old(self).has_token(t) && old(self).issuance_of(t) + amount <= u64::MAX,
            r == Err::<(), TokenError>(TokenError::TokenDoesNotExist) <==> !old(self).has_token(t),
            r == Err::<(), TokenError>(TokenError::Overflow) <==> old(self).has_token(t) && old(self).issuance_of(t) + amount > u64::MAX,
            r is Err ==> *final(self) == *old(self),
            r is Ok ==> final(self).free_of(t, who) == old(self).free_of(t, who) + amount
                && final(self).reserved_of(t, who) == old(self).reserved_of(t, who)
                && final(self).issuance_of(t) == old(self).issuance_of(t) + amount
                && final(self).patronage_of(t) == old(self).patronage_of(t)
                && final(self).policy_of(t) == old(self).policy_of(t),
            forall|t2: u64, a2: u64|
                !(t2 == t && a2 == who) ==> final(self).free_of(t2, a2) == old(self).free_of(
                    t2,
                    a2,
                ) && final(self).reserved_of(t2, a2) == old(self).reserved_of(t2, a2),
            forall|t2: u64| final(self).has_token(t2) == old(self).has_token(t2),
            forall|t2: u64|
                t2 != t && old(self).has_token(t2) ==> final(self).state_of(t2) == old(self).state_of(t2),
            final(self).next_token_id == old(self).next_token_id,
    {
        let i = match self.find_token(t) {
            Some(i) => i,
            None => {
                return Err(TokenError::TokenDoesNotExist);
            },
        };
        proof {
            lemma_state_at_index(self.tokens@, i as int, t);
            assert(self.has_token(t)) by {
                assert(self.tokens@[i as int].id == t);
            }
        }
        let iss = self.tokens[i].state.total_issuance;
        if amount > u64::MAX - iss {
            return Err(TokenError::Overflow);
        }
        proof {
            lemma_account_le_sum(self.store.entries@, t, who);
        }
        let ghost pre = *self;
        match self.store.credit(t, who, amount) {
            Ok(()) => {},
            Err(e) => {
                proof {
                    assert(false);
                }
                return Err(e);
            },
        }
        self.tokens[i].state.total_issuance = iss + amount;
        proof {
            let entry = TokenEntry {
                id: t,
                state: TokenState {
                    total_issuance: (iss + amount) as u64,
                    ..pre.tokens@[i as int].state
                },
            };
            assert(self.tokens@ =~= pre.tokens@.update(i as int, entry));
            Ledger::lemma_wf_rebalanced(pre, *self, t, who, i as int, amount as int, entry);
            lemma_state_update(pre.tokens@, i as int, entry);
        }
        Ok(())
    }

    /// Mints `amount` of `t` into an account that already holds a nonzero
    /// balance of it, raising the total issuance by the same amount.
    pub fn deposit_into_existing(&mut self, t: u64, who: u64, amount: u64) -> (r: Result<
        (),
        TokenError,
    >)
        requires
            old(self).wf(),
        ensures
            final(self).wf(),
            r is Ok <==> old(self).has_token(t) && old(self).free_of(t, who) + old(self).reserved_of(t, who) > 0 && old(self).issuance_of(t) + amount <= u64::MAX,
            r == Err::<(), TokenError>(TokenError::TokenDoesNotExist) <==> !old(self).has_token(t),
            r == Err::<(), TokenError>(TokenError::AccountDoesNotExist) <==> old(self).has_token(t) && old(self).free_of(t, who) + old(self).reserved_of(t, who) == 0,
            r == Err::<(), TokenError>(TokenError::Overflow) <==> old(self).has_token(t) && old(self).free_of(t, who) + old(self).reserved_of(t, who) > 0 && old(self).issuance_of(t) + amount > u64::MAX,
            r is Err ==> *final(self) == *old(self),
            r is Ok ==> final(self).free_of(t, who) == old(self).free_of(t, who) + amount
                && final(self).reserved_of(t, who) == old(self).reserved_of(t, who)
                && final(self).issuance_of(t) == old(self).issuance_of(t) + amount
                && final(self).patronage_of(t) == old(self).patronage_of(t)
                && final(self).policy_of(t) == old(self).policy_of(t),
            forall|t2: u64, a2: u64|
                !(t2 == t && a2 == who) ==> final(self).free_of(t2, a2) == old(self).free_of(
                    t2,
                    a2,
                ) && final(self).reserved_of(t2, a2) == old(self).reserved_of(t2, a2),
            forall|t2: u64| final(self).has_token(t2) == old(self).has_token(t2),
            forall|t2: u64|
                t2 != t && old(self).has_token(t2) ==> final(self).state_of(t2) == old(self).state_of(t2),
            final(self).next_token_id == old(self).next_token_id,
    {
        match self.find_token(t) {
            Some(_) => {},
            None => {
                return Err(TokenError::TokenDoesNotExist);
            },
        }
        let (free, reserved) = self.store.balance(t, who);
        if free == 0 && reserved == 0 {
            return Err(TokenError::AccountDoesNotExist);
        }
        self.deposit_creating(t, who, amount)
    }

    /// Burns `amount` of `t` from `who`'s free balance and lowers the total
    /// issuance by the same amount.
    pub fn slash(&mut self, t: u64, who: u64, amount: u64) -> (r: Result<(), TokenError>)
        requires
            old(self).wf(),
        ensures
            final(self).wf(),
            r is Ok <==> old(self).has_token(t) && amount <= old(self).free_of(t, who),
            r == Err::<(), TokenError>(TokenError::TokenDoesNotExist) <==> !old(self).has_token(t),
            r == Err::<(), TokenError>(TokenError::InsufficientBalance) <==> old(self).has_token(t) && amount > old(self).free_of(t, who),
            r is Err ==> *final(self) == *old(self),
            r is Ok ==> final(self).free_of(t, who) == old(self).free_of(t, who) - amount
                && final(self).reserved_of(t, who) == old(self).reserved_of(t, who)
                && final(self).issuance_of(t) == old(self).issuance_of(t) - amount
                && final(self).patronage_of(t) == old(self).patronage_of(t)
                && final(self).policy_of(t) == old(self).policy_of(t),
            forall|t2: u64, a2: u64|
                !(t2 == t && a2 == who) ==> final(self).free_of(t2, a2) == old(self).free_of(
                    t2,
                    a2,
                ) && final(self).reserved_of(t2, a2) == old(self).reserved_of(t2, a2),
            forall|t2: u64| final(self).has_token(t2) == old(self).has_token(t2),
            forall|t2: u64|
                t2 != t && old(self).has_token(t2) ==> final(self).state_of(t2) == old(self).state_of(t2),
            final(self).next_token_id == old(self).next_token_id,
    {
        let i = match self.find_token(t) {
            Some(i) => i,
            None => {
                return Err(TokenError::TokenDoesNotExist);
            },
        };
        proof {
            lemma_state_at_index(self.tokens@, i as int, t);
            assert(self.has_token(t)) by {
                assert(self.tokens@[i as int].id == t);
            }
            lemma_account_le_sum(self.store.entries@, t, who);
        }
        let iss = self.tokens[i].state.total_issuance;
        let ghost pre = *self;
        match self.store.debit(t, who, amount, false) {
            Ok(()) => {},
            Err(e) => {
                return Err(e);
            },
        }
        self.tokens[i].state.total_issuance = iss - amount;
        proof {
            let entry = TokenEntry {
                id: t,
                state: TokenState {
                    total_issuance: (iss - amount) as u64,
                    ..pre.tokens@[i as int].state
                },
            };
            assert(self.tokens@ =~= pre.tokens@.update(i as int, entry));
            Ledger::lemma_wf_rebalanced(pre, *self, t, who, i as int, -(amount as int), entry);
            lemma_state_update(pre.tokens@, i as int, entry);
        }
        Ok(())
    }

    /// Locks `amount` of `who`'s free balance of `t` as reserved.
    pub fn reserve(&mut self, t: u64, who: u64, amount: u64) -> (r: Result<(), TokenError>)
        requires
            old(self).wf(),
        ensures
            final(self).wf(),
            r is Ok <==> old(self).has_token(t) && amount <= old(self).free_of(t, who),
            r == Err::<(), TokenError>(TokenError::TokenDoesNotExist) <==> !old(self).has_token(t),
            r == Err::<(), TokenError>(TokenError::InsufficientBalance) <==> old(self).has_token(t) && amount > old(self).free_of(t, who),
            r is Err ==> *final(self) == *old(self),
            r is Ok ==> final(self).free_of(t, who) == old(self).free_of(t, who) - amount
                && final(self).reserved_of(t, who) == old(self).reserved_of(t, who) + amount,
            forall|t2: u64, a2: u64|
                !(t2 == t && a2 == who) ==> final(self).free_of(t2, a2) == old(self).free_of(
                    t2,
                    a2,
                ) && final(self).reserved_of(t2, a2) == old(self).reserved_of(t2, a2),
            forall|t2: u64| final(self).has_token(t2) == old(self).has_token(t2),
            forall|t2: u64|
                old(self).has_token(t2) ==> final(self).state_of(t2) == old(self).state_of(t2),
            final(self).next_token_id == old(self).next_token_id,
            final(self).tokens == old(self).tokens,
    {
        let i = match self.find_token(t) {
            Some(i) => i,
            None => {
                return Err(TokenError::TokenDoesNotExist);
            },
        };
        proof {
            assert(self.has_token(t)) by {
                assert(self.tokens@[i as int].id == t);
            }
            self.lemma_conservation(t);
            lemma_account_le_sum(self.store.entries@, t, who);
        }
        let ghost pre = *self;
        let r = self.store.reserve(t, who, amount);
        proof {
            Ledger::lemma_wf_moved(pre, *self);
        }
        r
    }

    /// Releases `amount` of `who`'s reserved balance of `t` back to free;
    /// the inverse of `reserve`.
    pub fn unreserve(&mut self, t: u64, who: u64, amount: u64) -> (r: Result<(), TokenError>)
        requires
            old(self).wf(),
        ensures
            final(self).wf(),
            r is Ok <==> old(self).has_token(t) && amount <= old(self).reserved_of(t, who),
            r == Err::<(), TokenError>(TokenError::TokenDoesNotExist) <==> !old(self).has_token(t),
            r == Err::<(), TokenError>(TokenError::InsufficientReservedBalance) <==> old(self).has_token(t) && amount > old(self).reserved_of(t, who),
            r is Err ==> *final(self) == *old(self),
            r is Ok ==> final(self).free_of(t, who) == old(self).free_of(t, who) + amount
                && final(self).reserved_of(t, who) == old(self).reserved_of(t, who) - amount,
            forall|t2: u64, a2: u64|
                !(t2 == t && a2 == who) ==> final(self).free_of(t2, a2) == old(self).free_of(
                    t2,
                    a2,
                ) && final(self).reserved_of(t2, a2) == old(self).reserved_of(t2, a2),
            forall|t2: u64| final(self).has_token(t2) == old(self).has_token(t2),
            forall|t2: u64|
                old(self).has_token(t2) ==> final(self).state_of(t2) == old(self).state_of(t2),
            final(self).next_token_id == old(self).next_token_id,
            final(self).tokens == old(self).tokens,
    {
        let i = match self.find_token(t) {
            Some(i) => i,
            None => {
                return Err(TokenError::TokenDoesNotExist);
            },
        };
        proof {
            assert(self.has_token(t)) by {
                assert(self.tokens@[i as int].id == t);
            }
            self.lemma_conservation(t);
            lemma_account_le_sum(self.store.entries@, t, who);
        }
        let ghost pre = *self;
        let r = self.store.unreserve(t, who, amount);
        proof {
            Ledger::lemma_wf_moved(pre, *self);
        }
        r
    }
}

} // verus!
