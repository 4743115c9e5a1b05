//! The balance store: the only place per-token, per-account balances are
//! mutated. Each account's holding is split into a free and a reserved
//! portion; an entry whose two portions are both zero behaves exactly like an
//! absent one for every read operation.

use vstd::prelude::*;

use crate::errors::TokenError;

verus! {

/// One account's holding of one token.
#[derive(Clone, Copy, PartialEq, Eq, Structural, Debug)]
pub struct BalanceEntry {
    /// The token this entry belongs to.
    pub token: u64,
    /// The account this entry belongs to.
    pub account: u64,
    /// The spendable, unreserved portion of the holding.
    pub free: u64,
    /// The locked portion, movable only via reserve and unreserve.
    pub reserved: u64,
}

/// Whether `e` is the entry of account `a` for token `t`.
pub open spec fn is_key(e: BalanceEntry, t: u64, a: u64) -> bool {
    e.token == t && e.account == a
}

/// What `e` adds to token `t`'s summed holdings: its total holding
/// when it belongs to `t`, nothing otherwise.
pub open spec fn share(e: BalanceEntry, t: u64) -> int {
    if e.token == t {
        e.free + e.reserved
    } else {
        0
    }
}

/// The sum of `free + reserved` over all entries of token `t`.
pub open spec fn token_sum(s: Seq<BalanceEntry>, t: u64) -> int
    decreases s.len(),
{
    if s.len() == 0 {
        0
    } else {
        share(s[0], t) + token_sum(s.drop_first(), t)
    }
}

/// The free balance of account `a` for token `t`: the first matching entry's
/// free portion, or zero when no entry matches.
pub open spec fn free_at(s: Seq<BalanceEntry>, t: u64, a: u64) -> u64
    decreases s.len(),
{
    if s.len() == 0 {
        0
    } else if is_key(s[0], t, a) {
        s[0].free
    } else {
        free_at(s.drop_first(), t, a)
    }
}

/// The reserved balance of account `a` for token `t`.
pub open spec fn reserved_at(s: Seq<BalanceEntry>, t: u64, a: u64) -> u64
    decreases s.len(),
{
    if s.len() == 0 {
        0
    } else if is_key(s[0], t, a) {
        s[0].reserved
    } else {
        reserved_at(s.drop_first(), t, a)
    }
}

/// Whether some entry of the sequence is keyed by `(t, a)`.
pub open spec fn has_key(s: Seq<BalanceEntry>, t: u64, a: u64) -> bool {
    exists|i: int| 0 <= i < s.len() && is_key(s[i], t, a)
}

/// Whether no two entries share a `(token, account)` key.
pub open spec fn distinct_keys(s: Seq<BalanceEntry>) -> bool {
    forall|i: int, j: int|
        0 <= i < j < s.len() ==> !(s[i].token == s[j].token && s[i].account == s[j].account)
}

/// Every entry contributes at least nothing, so a token's sum is nonnegative.
pub proof fn lemma_sum_nonneg(s: Seq<BalanceEntry>, t: u64)
    ensures
        token_sum(s, t) >= 0,
    decreases s.len(),
{
    if s.len() > 0 {
        lemma_sum_nonneg(s.drop_first(), t);
    }
}

/// A single entry's contribution never exceeds the token's sum.
pub proof fn lemma_contrib_le_sum(s: Seq<BalanceEntry>, i: int, t: u64)
    requires
        0 <= i < s.len(),
    ensures
        share(s[i], t) <= token_sum(s, t),
    decreases s.len(),
{
    lemma_sum_nonneg(s.drop_first(), t);
    if i > 0 {
        lemma_contrib_le_sum(s.drop_first(), i - 1, t);
    }
}

/// A token no entry belongs to sums to zero.
pub proof fn lemma_sum_absent(s: Seq<BalanceEntry>, t: u64)
    requires
        forall|i: int| 0 <= i < s.len() ==> s[i].token != t,
    ensures
        token_sum(s, t) == 0,
    decreases s.len(),
{
    if s.len() > 0 {
        assert(forall|i: int|
            0 <= i < s.drop_first().len() ==> s.drop_first()[i].token != t);
        lemma_sum_absent(s.drop_first(), t);
    }
}

/// A token all of whose entries are zeroed sums to zero.
pub proof fn lemma_sum_all_zero(s: Seq<BalanceEntry>, t: u64)
    requires
        forall|i: int| 0 <= i < s.len() ==> share(s[i], t) == 0,
    ensures
        token_sum(s, t) == 0,
    decreases s.len(),
{
    if s.len() > 0 {
        assert(forall|i: int|
            0 <= i < s.drop_first().len() ==> share(s.drop_first()[i], t) == 0);
        lemma_sum_all_zero(s.drop_first(), t);
    }
}

/// Replacing the entry at `i` moves the token's sum by the difference of the
/// two contributions.
pub proof fn lemma_sum_update(s: Seq<BalanceEntry>, i: int, e: BalanceEntry, t: u64)
    requires
        0 <= i < s.len(),
    ensures
        token_sum(s.update(i, e), t) == token_sum(s, t) - share(s[i], t) + share(e, t),
    decreases s.len(),
{
    if i == 0 {
        assert(s.update(0, e).drop_first() =~= s.drop_first());
    } else {
        assert(s.update(i, e).drop_first() =~= s.drop_first().update(i - 1, e));
        lemma_sum_update(s.drop_first(), i - 1, e, t);
    }
}

/// Appending an entry adds exactly its contribution to the token's sum.
pub proof fn lemma_sum_push(s: Seq<BalanceEntry>, e: BalanceEntry, t: u64)
    ensures
        token_sum(s.push(e), t) == token_sum(s, t) + share(e, t),
    decreases s.len(),
{
    if s.len() == 0 {
        assert(s.push(e).len() == 1);
        assert(s.push(e)[0] == e);
        assert(s.push(e).drop_first() =~= Seq::<BalanceEntry>::empty());
        assert(token_sum(s.push(e).drop_first(), t) == 0);
        assert(token_sum(s.push(e), t) == share(e, t) + token_sum(s.push(e).drop_first(), t));
    } else {
        assert(s.push(e)[0] == s[0]);
        assert(s.push(e).drop_first() =~= s.drop_first().push(e));
        lemma_sum_push(s.drop_first(), e, t);
    }
}

/// An account's total holding never exceeds its token's sum, which is itself
/// nonnegative.
pub proof fn lemma_account_le_sum(s: Seq<BalanceEntry>, t: u64, a: u64)
    requires
        distinct_keys(s),
    ensures
        token_sum(s, t) >= 0,
        free_at(s, t, a) + reserved_at(s, t, a) <= token_sum(s, t),
{
    lemma_sum_nonneg(s, t);
    if has_key(s, t, a) {
        let i = choose|i: int| 0 <= i < s.len() && is_key(s[i], t, a);
        lemma_read_at_index(s, i, t, a);
        lemma_contrib_le_sum(s, i, t);
    } else {
        lemma_read_absent(s, t, a);
    }
}


/// With distinct keys, the balances read for `(t, a)` are those of any entry
/// keyed by `(t, a)`.
pub proof fn lemma_read_at_index(s: Seq<BalanceEntry>, i: int, t: u64, a: u64)
    requires
        distinct_keys(s),
        0 <= i < s.len(),
        is_key(s[i], t, a),
    ensures
        free_at(s, t, a) == s[i].free,
        reserved_at(s, t, a) == s[i].reserved,
    decreases s.len(),
{
    if i > 0 {
        assert(!is_key(s[0], t, a));
        lemma_read_at_index(s.drop_first(), i - 1, t, a);
    }
}

/// An account without an entry reads as zero in both portions.
pub proof fn lemma_read_absent(s: Seq<BalanceEntry>, t: u64, a: u64)
    requires
        !has_key(s, t, a),
    ensures
        free_at(s, t, a) == 0,
        reserved_at(s, t, a) == 0,
    decreases s.len(),
{
    if s.len() > 0 {
        assert(!is_key(s[0], t, a));
        assert(!has_key(s.drop_first(), t, a)) by {
            if has_key(s.drop_first(), t, a) {
                let j = choose|j: int|
                    0 <= j < s.drop_first().len() && is_key(s.drop_first()[j], t, a);
                assert(is_key(s[j + 1], t, a));
            }
        }
        lemma_read_absent(s.drop_first(), t, a);
    }
}

/// Replacing the entry at `i` with one of the same key changes only the
/// balances read for that key.
pub proof fn lemma_read_update(s: Seq<BalanceEntry>, i: int, e: BalanceEntry, t: u64, a: u64)
    requires
        distinct_keys(s),
        0 <= i < s.len(),
        e.token == s[i].token,
        e.account == s[i].account,
    ensures
        free_at(s.update(i, e), t, a) == if is_key(e, t, a) {
            e.free
        } else {
            free_at(s, t, a)
        },
        reserved_at(s.update(i, e), t, a) == if is_key(e, t, a) {
            e.reserved
        } else {
            reserved_at(s, t, a)
        },
    decreases s.len(),
{
    if i == 0 {
        assert(s.update(0, e).drop_first() =~= s.drop_first());
        if is_key(e, t, a) {
        } else if is_key(s[0], t, a) {
            // The old entry at 0 matched but the new one does not share
            // `(t, a)`; impossible since they share a key.
            assert(false);
        }
    } else {
        assert(s.update(i, e).drop_first() =~= s.drop_first().update(i - 1, e));
        lemma_read_update(s.drop_first(), i - 1, e, t, a);
        if is_key(s[0], t, a) {
            assert(!is_key(s[i], t, a));
            assert(!is_key(e, t, a));
        }
    }
}

/// Appending an entry with a fresh key changes only the balances read for
/// that key; distinctness is preserved.
pub proof fn lemma_read_push(s: Seq<BalanceEntry>, e: BalanceEntry, t: u64, a: u64)
    requires
        distinct_keys(s),
        !has_key(s, e.token, e.account),
    ensures
        distinct_keys(s.push(e)),
        free_at(s.push(e), t, a) == if is_key(e, t, a) {
            e.free
        } else {
            free_at(s, t, a)
        },
        reserved_at(s.push(e), t, a) == if is_key(e, t, a) {
            e.reserved
        } else {
            reserved_at(s, t, a)
        },
    decreases s.len(),
{
    assert forall|i: int, j: int|
        0 <= i < j < s.push(e).len() implies !(s.push(e)[i].token == s.push(e)[j].token
        && s.push(e)[i].account == s.push(e)[j].account) by {
        if j == s.len() {
            assert(s.push(e)[i] == s[i]);
            assert(s.push(e)[j] == e);
            if s[i].token == e.token && s[i].account == e.account {
                assert(is_key(s[i], e.token, e.account));
                assert(has_key(s, e.token, e.account));
            }
        } else {
            assert(s.push(e)[i] == s[i]);
            assert(s.push(e)[j] == s[j]);
        }
    }
    if s.len() == 0 {
        assert(s.push(e).len() == 1);
        assert(s.push(e)[0] == e);
        assert(s.push(e).drop_first() =~= Seq::<BalanceEntry>::empty());
        assert(free_at(s.push(e).drop_first(), t, a) == 0);
        assert(reserved_at(s.push(e).drop_first(), t, a) == 0);
    } else {
        assert(s.push(e)[0] == s[0]);
        assert(distinct_keys(s.drop_first())) by {
            assert forall|i: int, j: int|
                0 <= i < j < s.drop_first().len() implies !(s.drop_first()[i].token
                == s.drop_first()[j].token && s.drop_first()[i].account
                == s.drop_first()[j].account) by {
                assert(s.drop_first()[i] == s[i + 1]);
                assert(s.drop_first()[j] == s[j + 1]);
            }
        }
        assert(!has_key(s.drop_first(), e.token, e.account)) by {
            if has_key(s.drop_first(), e.token, e.account) {
                let j = choose|j: int|
                    0 <= j < s.drop_first().len() && is_key(
                        s.drop_first()[j],
                        e.token,
                        e.account,
                    );
                assert(is_key(s[j + 1], e.token, e.account));
            }
        }
        assert(s.push(e).drop_first() =~= s.drop_first().push(e));
        lemma_read_push(s.drop_first(), e, t, a);
        if is_key(s[0], t, a) {
            assert(has_key(s, t, a));
            if is_key(e, t, a) {
                assert(has_key(s, e.token, e.account));
            }
        }
    }
}


/// Same-key replacement keeps exactly the same set of occupied keys.
pub proof fn lemma_has_key_update(s: Seq<BalanceEntry>, i: int, e: BalanceEntry)
    requires
        0 <= i < s.len(),
        e.token == s[i].token,
        e.account == s[i].account,
    ensures
        forall|t2: u64, a2: u64| has_key(s.update(i, e), t2, a2) == has_key(s, t2, a2),
        distinct_keys(s) ==> distinct_keys(s.update(i, e)),
{
    assert forall|t2: u64, a2: u64|
        has_key(s.update(i, e), t2, a2) == has_key(s, t2, a2) by {
        if has_key(s.update(i, e), t2, a2) {
            let j = choose|j: int| 0 <= j < s.update(i, e).len() && is_key(s.update(i, e)[j], t2, a2);
            if j == i {
                assert(is_key(s[i], t2, a2));
            } else {
                assert(is_key(s[j], t2, a2));
            }
        }
        if has_key(s, t2, a2) {
            let j = choose|j: int| 0 <= j < s.len() && is_key(s[j], t2, a2);
            if j == i {
                assert(is_key(s.update(i, e)[i], t2, a2));
            } else {
                assert(is_key(s.update(i, e)[j], t2, a2));
            }
        }
    }
    if distinct_keys(s) {
        assert forall|p: int, q: int|
            0 <= p < q < s.update(i, e).len() implies !(s.update(i, e)[p].token
            == s.update(i, e)[q].token && s.update(i, e)[p].account
            == s.update(i, e)[q].account) by {
            assert(s.update(i, e)[p] == if p == i { e } else { s[p] });
            assert(s.update(i, e)[q] == if q == i { e } else { s[q] });
        }
    }
}

/// Appending an entry occupies exactly its key in addition to the old ones.
pub proof fn lemma_has_key_push(s: Seq<BalanceEntry>, e: BalanceEntry)
    ensures
        forall|t2: u64, a2: u64|
            has_key(s.push(e), t2, a2) == (has_key(s, t2, a2) || is_key(e, t2, a2)),
{
    assert forall|t2: u64, a2: u64|
        has_key(s.push(e), t2, a2) == (has_key(s, t2, a2) || is_key(e, t2, a2)) by {
        if has_key(s.push(e), t2, a2) {
            let j = choose|j: int| 0 <= j < s.push(e).len() && is_key(s.push(e)[j], t2, a2);
            if j == s.len() {
                assert(s.push(e)[j] == e);
            } else {
                assert(is_key(s[j], t2, a2));
            }
        }
        if has_key(s, t2, a2) {
            let j = choose|j: int| 0 <= j < s.len() && is_key(s[j], t2, a2);
            assert(is_key(s.push(e)[j], t2, a2));
        }
        if is_key(e, t2, a2) {
            assert(is_key(s.push(e)[s.len() as int], t2, a2));
        }
    }
}

/// The keyed store of `(token, account)` balance entries.
#[derive(Clone, Debug)]
pub struct LedgerStore {
    /// The balance entries, at most one per `(token, account)` key.
    pub entries: Vec<BalanceEntry>,
}

impl LedgerStore {
    /// The store is well formed when no two entries share a key.
    pub open spec fn wf(self) -> bool {
        distinct_keys(self.entries@)
    }

    /// The free balance of account `a` for token `t`.
    pub open spec fn free_of(self, t: u64, a: u64) -> u64 {
        free_at(self.entries@, t, a)
    }

    /// The reserved balance of account `a` for token `t`.
    pub open spec fn reserved_of(self, t: u64, a: u64) -> u64 {
        reserved_at(self.entries@, t, a)
    }

    /// The sum of `free + reserved` over all accounts of token `t`.
    pub open spec fn sum_of(self, t: u64) -> int {
        token_sum(self.entries@, t)
    }

    /// Whether an entry for `(t, a)` is present, zeroed or not.
    pub open spec fn has_account(self, t: u64, a: u64) -> bool {
        has_key(self.entries@, t, a)
    }

    /// An empty store: every account of every token reads as zero.
    pub fn new() -> (r: LedgerStore)
        ensures
            r.wf(),
            forall|t: u64, a: u64| r.free_of(t, a) == 0 && r.reserved_of(t, a) == 0,
            forall|t: u64| r.sum_of(t) == 0,
            forall|t: u64, a: u64| !r.has_account(t, a),
    {
        let r = LedgerStore { entries: Vec::new() };
        proof {
            assert forall|t: u64, a: u64|
                r.free_of(t, a) == 0 && r.reserved_of(t, a) == 0 && !r.has_account(t, a) by {
                assert(r.entries@.len() == 0);
            }
        }
        r
    }

    /// Finds the index of the entry keyed by `(t, a)`, if one is present.
    fn find(&self, t: u64, a: u64) -> (r: Option<usize>)
        ensures
            match r {
                Some(i) => i < self.entries@.len() && is_key(self.entries@[i as int], t, a),
                None => !self.has_account(t, a),
            },
    {
        let n = self.entries.len();
        let mut i: usize = 0;
        while i < n
            invariant
                n == self.entries@.len(),
                i <= n,
                forall|j: int| 0 <= j < i ==> !is_key(self.entries@[j], t, a),
            decreases n - i,
        {
            let e = self.entries[i];
            if e.token == t && e.account == a {
                return Some(i);
            }
            i = i + 1;
        }
        None
    }

    /// Reads `(free, reserved)` for `(t, a)`; an absent entry reads as zeroes.
    pub fn balance(&self, t: u64, a: u64) -> (r: (u64, u64))
        requires
            self.wf(),
        ensures
            r.0 == self.free_of(t, a),
            r.1 == self.reserved_of(t, a),
    {
        match self.find(t, a) {
            Some(i) => {
                proof {
                    lemma_read_at_index(self.entries@, i as int, t, a);
                }
                let e = self.entries[i];
                (e.free, e.reserved)
            },
            None => {
                proof {
                    lemma_read_absent(self.entries@, t, a);
                }
                (0, 0)
            },
        }
    }

    /// Replaces the entry at `i` by one with the same key and states the
    /// effect on every read, sum and key.
    fn put_at(&mut self, i: usize, e: BalanceEntry)
        requires
            old(self).wf(),
            i < old(self).entries@.len(),
            e.token == old(self).entries@[i as int].token,
            e.account == old(self).entries@[i as int].account,
        ensures
            final(self).wf(),
            final(self).entries@ == old(self).entries@.update(i as int, e),
            final(self).free_of(e.token, e.account) == e.free,
            final(self).reserved_of(e.token, e.account) == e.reserved,
            forall|t2: u64, a2: u64|
                !(t2 == e.token && a2 == e.account) ==> final(self).free_of(t2, a2) == old(
                    self,
                ).free_of(t2, a2) && final(self).reserved_of(t2, a2) == old(self).reserved_of(
                    t2,
                    a2,
                ),
            forall|t2: u64|
                final(self).sum_of(t2) == old(self).sum_of(t2) - share(
                    old(self).entries@[i as int],
                    t2,
                ) + share(e, t2),
            forall|t2: u64, a2: u64|
                final(self).has_account(t2, a2) == old(self).has_account(t2, a2),
    {
        let ghost s0 = self.entries@;
        self.entries[i] = e;
        proof {
            lemma_has_key_update(s0, i as int, e);
            assert forall|t2: u64, a2: u64|
                free_at(s0.update(i as int, e), t2, a2) == (if is_key(e, t2, a2) {
                    e.free
                } else {
                    free_at(s0, t2, a2)
                }) && reserved_at(s0.update(i as int, e), t2, a2) == (if is_key(e, t2, a2) {
                    e.reserved
                } else {
                    reserved_at(s0, t2, a2)
                }) by {
                lemma_read_update(s0, i as int, e, t2, a2);
            }
            assert forall|t2: u64|
                token_sum(s0.update(i as int, e), t2) == token_sum(s0, t2) - share(
                    s0[i as int],
                    t2,
                ) + share(e, t2) by {
                lemma_sum_update(s0, i as int, e, t2);
            }
            lemma_read_at_index(s0, i as int, e.token, e.account);
            lemma_read_at_index(s0.update(i as int, e), i as int, e.token, e.account);
        }
    }

    /// Appends an entry under a key that is not yet present and states the
    /// effect on every read, sum and key.
    fn put_new(&mut self, e: BalanceEntry)
        requires
            old(self).wf(),
            !old(self).has_account(e.token, e.account),
        ensures
            final(self).wf(),
            final(self).free_of(e.token, e.account) == e.free,
            final(self).reserved_of(e.token, e.account) == e.reserved,
            forall|t2: u64, a2: u64|
                !(t2 == e.token && a2 == e.account) ==> final(self).free_of(t2, a2) == old(
                    self,
                ).free_of(t2, a2) && final(self).reserved_of(t2, a2) == old(self).reserved_of(
                    t2,
                    a2,
                ),
            forall|t2: u64| final(self).sum_of(t2) == old(self).sum_of(t2) + share(e, t2),
            forall|t2: u64, a2: u64| #![trigger final(self).has_account(t2, a2)]
                final(self).has_account(t2, a2) == (old(self).has_account(t2, a2) || is_key(
                    e,
                    t2,
                    a2,
                )),
    {
        let ghost s0 = self.entries@;
        self.entries.push(e);
        proof {
            lemma_has_key_push(s0, e);
            assert forall|t2: u64, a2: u64|
                free_at(s0.push(e), t2, a2) == (if is_key(e, t2, a2) {
                    e.free
                } else {
                    free_at(s0, t2, a2)
                }) && reserved_at(s0.push(e), t2, a2) == (if is_key(e, t2, a2) {
                    e.reserved
                } else {
                    reserved_at(s0, t2, a2)
                }) by {
                lemma_read_push(s0, e, t2, a2);
            }
            assert forall|t2: u64| token_sum(s0.push(e), t2) == token_sum(s0, t2) + share(e, t2) by {
                lemma_sum_push(s0, e, t2);
            }
            lemma_read_push(s0, e, e.token, e.account);
        }
    }

    /// Increases `(t, a)`'s free balance by `amount`, creating the entry if
    /// absent; rejected with `Overflow` past the representable maximum.
    pub fn credit(&mut self, t: u64, a: u64, amount: u64) -> (r: Result<(), TokenError>)
        requires
            old(self).wf(),
        ensures
            final(self).wf(),
            r is Ok <==> old(self).free_of(t, a) + amount <= u64::MAX,
            r is Err ==> *final(self) == *old(self) && r == Err::<(), TokenError>(
                TokenError::Overflow,
            ),
            r is Ok ==> final(self).free_of(t, a) == old(self).free_of(t, a) + amount
                && final(self).reserved_of(t, a) == old(self).reserved_of(t, a)
                && final(self).sum_of(t) == old(self).sum_of(t) + amount,
            forall|t2: u64, a2: u64|
                !(t2 == t && a2 == a) ==> final(self).free_of(t2, a2) == old(self).free_of(t2, a2)
                    && final(self).reserved_of(t2, a2) == old(self).reserved_of(t2, a2),
            forall|t2: u64| t2 != t ==> final(self).sum_of(t2) == old(self).sum_of(t2),
            r is Ok ==> final(self).has_account(t, a),
            forall|t2: u64, a2: u64|
                !(t2 == t && a2 == a) ==> final(self).has_account(t2, a2) == old(
                    self,
                ).has_account(t2, a2),
    {
        match self.find(t, a) {
            Some(i) => {
                proof {
                    lemma_read_at_index(self.entries@, i as int, t, a);
                    assert(self.has_account(t, a)) by {
                        assert(is_key(self.entries@[i as int], t, a));
                    }
                }
                let e = self.entries[i];
                if amount > u64::MAX - e.free {
                    return Err(TokenError::Overflow);
                }
                self.put_at(i, BalanceEntry { free: e.free + amount, ..e });
                proof {
                    assert(self.has_account(t, a));
                }
                Ok(())
            },
            None => {
                proof {
                    lemma_read_absent(self.entries@, t, a);
                }
                let newe = BalanceEntry { token: t, account: a, free: amount, reserved: 0 };
                self.put_new(newe);
                proof {
                    assert(is_key(newe, t, a));
                    assert(self.has_account(t, a));
                }
                Ok(())
            },
        }
    }

    /// Decreases one bucket of `(t, a)` by `amount`; rejected with
    /// `InsufficientBalance` when the chosen bucket holds less.
    pub fn debit(&mut self, t: u64, a: u64, amount: u64, from_reserved: bool) -> (r: Result<
        (),
        TokenError,
    >)
        requires
            old(self).wf(),
        ensures
            final(self).wf(),
            r is Ok <==> amount <= (if from_reserved {
                old(self).reserved_of(t, a)
            } else {
                old(self).free_of(t, a)
            }),
            r is Err ==> *final(self) == *old(self) && r == Err::<(), TokenError>(
                TokenError::InsufficientBalance,
            ),
            r is Ok ==> final(self).free_of(t, a) == old(self).free_of(t, a) - (if from_reserved {
                0
            } else {
                amount as int
            }) && final(self).reserved_of(t, a) == old(self).reserved_of(t, a)
                - (if from_reserved {
                amount as int
            } else {
                0
            }) && final(self).sum_of(t) == old(self).sum_of(t) - amount,
            forall|t2: u64, a2: u64|
                !(t2 == t && a2 == a) ==> final(self).free_of(t2, a2) == old(self).free_of(t2, a2)
                    && final(self).reserved_of(t2, a2) == old(self).reserved_of(t2, a2),
            forall|t2: u64| t2 != t ==> final(self).sum_of(t2) == old(self).sum_of(t2),
            forall|t2: u64, a2: u64|
                final(self).has_account(t2, a2) == old(self).has_account(t2, a2),
    {
        match self.find(t, a) {
            Some(i) => {
                proof {
                    lemma_read_at_index(self.entries@, i as int, t, a);
                }
                let e = self.entries[i];
                if from_reserved {
                    if amount > e.reserved {
                        return Err(TokenError::InsufficientBalance);
                    }
                    self.put_at(i, BalanceEntry { reserved: e.reserved - amount, ..e });
                } else {
                    if amount > e.free {
                        return Err(TokenError::InsufficientBalance);
                    }
                    self.put_at(i, BalanceEntry { free: e.free - amount, ..e });
                }
                Ok(())
            },
            None => {
                proof {
                    lemma_read_absent(self.entries@, t, a);
                }
                if amount == 0 {
                    Ok(())
                } else {
                    Err(TokenError::InsufficientBalance)
                }
            },
        }
    }

    /// Moves `amount` from free to reserved atomically; rejected with
    /// `InsufficientBalance` when the free balance holds less.
    pub fn reserve(&mut self, t: u64, a: u64, amount: u64) -> (r: Result<(), TokenError>)
        requires
            old(self).wf(),
            old(self).free_of(t, a) + old(self).reserved_of(t, a) <= u64::MAX,
        ensures
            final(self).wf(),
            r is Ok <==> amount <= old(self).free_of(t, a),
            r is Err ==> *final(self) == *old(self) && r == Err::<(), TokenError>(
                TokenError::InsufficientBalance,
            ),
            r is Ok ==> final(self).free_of(t, a) == old(self).free_of(t, a) - amount
                && final(self).reserved_of(t, a) == old(self).reserved_of(t, a) + amount,
            forall|t2: u64, a2: u64|
                !(t2 == t && a2 == a) ==> final(self).free_of(t2, a2) == old(self).free_of(t2, a2)
                    && final(self).reserved_of(t2, a2) == old(self).reserved_of(t2, a2),
            forall|t2: u64| final(self).sum_of(t2) == old(self).sum_of(t2),
            forall|t2: u64, a2: u64|
                final(self).has_account(t2, a2) == old(self).has_account(t2, a2),
    {
        match self.find(t, a) {
            Some(i) => {
                proof {
                    lemma_read_at_index(self.entries@, i as int, t, a);
                }
                let e = self.entries[i];
                if amount > e.free {
                    return Err(TokenError::InsufficientBalance);
                }
                self.put_at(
                    i,
                    BalanceEntry { free: e.free - amount, reserved: e.reserved + amount, ..e },
                );
                Ok(())
            },
            None => {
                proof {
                    lemma_read_absent(self.entries@, t, a);
                }
                if amount == 0 {
                    Ok(())
                } else {
                    Err(TokenError::InsufficientBalance)
                }
            },
        }
    }

    /// Moves `amount` from reserved back to free; the inverse of `reserve`,
    /// rejected with `InsufficientReservedBalance`.
    pub fn unreserve(&mut self, t: u64, a: u64, amount: u64) -> (r: Result<(), TokenError>)
        requires
            old(self).wf(),
            old(self).free_of(t, a) + old(self).reserved_of(t, a) <= u64::MAX,
        ensures
            final(self).wf(),
            r is Ok <==> amount <= old(self).reserved_of(t, a),
            r is Err ==> *final(self) == *old(self) && r == Err::<(), TokenError>(
                TokenError::InsufficientReservedBalance,
            ),
            r is Ok ==> final(self).free_of(t, a) == old(self).free_of(t, a) + amount
                && final(self).reserved_of(t, a) == old(self).reserved_of(t, a) - amount,
            forall|t2: u64, a2: u64|
                !(t2 == t && a2 == a) ==> final(self).free_of(t2, a2) == old(self).free_of(t2, a2)
                    && final(self).reserved_of(t2, a2) == old(self).reserved_of(t2, a2),
            forall|t2: u64| final(self).sum_of(t2) == old(self).sum_of(t2),
            forall|t2: u64, a2: u64|
                final(self).has_account(t2, a2) == old(self).has_account(t2, a2),
    {
        match self.find(t, a) {
            Some(i) => {
                proof {
                    lemma_read_at_index(self.entries@, i as int, t, a);
                }
                let e = self.entries[i];
                if amount > e.reserved {
                    return Err(TokenError::InsufficientReservedBalance);
                }
                self.put_at(
                    i,
                    BalanceEntry { free: e.free + amount, reserved: e.reserved - amount, ..e },
                );
                Ok(())
            },
            None => {
                proof {
                    lemma_read_absent(self.entries@, t, a);
                }
                if amount == 0 {
                    Ok(())
                } else {
                    Err(TokenError::InsufficientReservedBalance)
                }
            },
        }
    }
}

} // verus!
