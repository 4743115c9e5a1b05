//! The payout claim verifier: recomputes a Merkle root from a claimed leaf
//! and a proof path, holds it against the committed payout root, and
//! enforces that each payout source's cumulative claimed total strictly
//! advances, so the delta paid per claim is exact and replays are
//! structurally impossible.

use vstd::prelude::*;

use crate::errors::TokenError;
use crate::hashing::{append_bytes, blake2_256, blake2_256_of, push_u64_le, u64_le_bytes};

verus! {

/// The side on which a proof element's hash is adjoined when the
/// accumulated hash is recombined with it.
#[derive(Clone, Copy, PartialEq, Eq, Structural, Debug)]
pub enum Side {
    Left,
    Right,
}

impl Default for Side {
    /// The canonical default side.
    fn default() -> (r: Self)
        ensures
            r == Side::Right,
    {
        Side::Right
    }
}

/// One step of a Merkle proof path: a sibling hash and the side on which it
/// is adjoined to the accumulated hash.
#[derive(Clone, PartialEq, Eq, Debug)]
pub struct ProofElementRecord<Hash, Side> {
    /// The sibling node's hash.
    pub hash: Hash,
    /// The side on which `hash` stands in the concatenation.
    pub side: Side,
}

/// A payment claim by a payout source: the source's identifier, the running
/// cumulative total being claimed, and the reason commitment.
#[derive(Copy, Clone, PartialEq, Eq, Debug)]
pub struct PullPaymentElement<ChannelId, Balance, Hash> {
    pub channel_id: ChannelId,
    pub cumulative_payout_claimed: Balance,
    pub reason: Hash,
}

/// A proof element over plain hash bytes.
pub type ProofElement = ProofElementRecord<Vec<u8>, Side>;

/// A payment claim over plain values.
pub type PullPayment = PullPaymentElement<u64, u64, Vec<u8>>;

/// The bytes a claim's leaf hash is computed over: the source identifier and
/// the cumulative total in fixed-width little-endian form, then the reason.
pub open spec fn leaf_bytes(item: PullPayment) -> Seq<u8> {
    u64_le_bytes(item.channel_id) + u64_le_bytes(item.cumulative_payout_claimed) + item.reason@
}

/// One recombination step: the element's hash is adjoined on its recorded
/// side and the pair is hashed.
pub open spec fn combine(acc: Seq<u8>, elem: ProofElement) -> Seq<u8> {
    match elem.side {
        Side::Left => blake2_256_of(elem.hash@ + acc),
        Side::Right => blake2_256_of(acc + elem.hash@),
    }
}

/// The root reconstructed by folding the proof path over an accumulated
/// hash, in proof order.
pub open spec fn root_from(acc: Seq<u8>, path: Seq<ProofElement>) -> Seq<u8>
    decreases path.len(),
{
    if path.len() == 0 {
        acc
    } else {
        root_from(combine(acc, path[0]), path.drop_first())
    }
}

/// Whether a claim's proof reconstructs exactly the committed root.
pub open spec fn claim_valid(root: Seq<u8>, item: PullPayment, path: Seq<ProofElement>) -> bool {
    root_from(blake2_256_of(leaf_bytes(item)), path) == root
}

/// What a claim against stored cumulative `stored` decides: the proof must
/// hold and the requested total must strictly advance; the delta paid is
/// exactly the advance.
pub open spec fn claim_outcome(stored: u64, requested: u64, proof_ok: bool) -> Result<
    u64,
    TokenError,
> {
    if !proof_ok {
        Err(TokenError::InvalidPayoutProof)
    } else if requested <= stored {
        Err(TokenError::PayoutCumulativeAmountDoesNotIncrease)
    } else {
        Ok((requested - stored) as u64)
    }
}

/// Two claims for one source with increasing cumulative totals pay out
/// exactly the increments — first `c1`, then `c2 - c1` — and replaying the
/// first claim afterwards is rejected because the stored total no longer
/// increases.
pub proof fn lemma_payout_claims_monotonic(c1: u64, c2: u64)
    requires
        0 < c1 < c2,
    ensures
        claim_outcome(0, c1, true) == Ok::<u64, TokenError>(c1),
        claim_outcome(c1, c2, true) == Ok::<u64, TokenError>((c2 - c1) as u64),
        claim_outcome(c2, c1, true) == Err::<u64, TokenError>(
            TokenError::PayoutCumulativeAmountDoesNotIncrease,
        ),
{
}

/// Recomputes the Merkle root for a claim from its proof path.
pub fn compute_payout_root(item: &PullPayment, path: &Vec<ProofElement>) -> (r: Vec<u8>)
    ensures
        r@ == root_from(blake2_256_of(leaf_bytes(*item)), path@),
{
    let mut buf: Vec<u8> = Vec::new();
    push_u64_le(&mut buf, item.channel_id);
    push_u64_le(&mut buf, item.cumulative_payout_claimed);
    append_bytes(&mut buf, &item.reason);
    proof {
        assert(buf@ =~= leaf_bytes(*item));
    }
    let mut acc = blake2_256(&buf);
    proof {
        assert(path@.skip(0) =~= path@);
    }
    let n = path.len();
    let mut k: usize = 0;
    while k < n
        invariant
            n == path@.len(),
            k <= n,
            root_from(acc@, path@.skip(k as int)) == root_from(
                blake2_256_of(leaf_bytes(*item)),
                path@,
            ),
        decreases n - k,
    {
        let elem = &path[k];
        let ghost acc0 = acc@;
        let mut cat: Vec<u8> = Vec::new();
        match elem.side {
            Side::Left => {
                append_bytes(&mut cat, &elem.hash);
                append_bytes(&mut cat, &acc);
                proof {
                    assert(cat@ =~= elem.hash@ + acc0);
                }
            },
            Side::Right => {
                append_bytes(&mut cat, &acc);
                append_bytes(&mut cat, &elem.hash);
                proof {
                    assert(cat@ =~= acc0 + elem.hash@);
                }
            },
        }
        acc = blake2_256(&cat);
        proof {
            assert(acc@ == combine(acc0, path@[k as int]));
            assert(path@.skip(k as int)[0] == path@[k as int]);
            assert(path@.skip(k as int).drop_first() =~= path@.skip(k as int + 1));
        }
        k = k + 1;
    }
    proof {
        assert(path@.skip(n as int) =~= Seq::<ProofElement>::empty());
    }
    acc
}

/// The persisted cumulative total claimed by one payout source.
#[derive(Clone, Copy, PartialEq, Eq, Structural, Debug)]
pub struct CumulativePayoutRecord {
    /// The payout source's identifier.
    pub source: u64,
    /// The cumulative total claimed so far; only ever advances.
    pub cumulative_payout_claimed: u64,
}

/// The cumulative total stored for `source`: the first matching record's,
/// or zero while the source has never claimed.
pub open spec fn claimed_at(s: Seq<CumulativePayoutRecord>, source: u64) -> u64
    decreases s.len(),
{
    if s.len() == 0 {
        0
    } else if s[0].source == source {
        s[0].cumulative_payout_claimed
    } else {
        claimed_at(s.drop_first(), source)
    }
}

/// Whether some record carries `source`.
pub open spec fn has_source(s: Seq<CumulativePayoutRecord>, source: u64) -> bool {
    exists|i: int| 0 <= i < s.len() && s[i].source == source
}

/// Whether no two records share a source.
pub open spec fn distinct_sources(s: Seq<CumulativePayoutRecord>) -> bool {
    forall|i: int, j: int| 0 <= i < j < s.len() ==> s[i].source != s[j].source
}

/// With distinct sources, the stored total is that of any matching record.
proof fn lemma_claimed_at_index(s: Seq<CumulativePayoutRecord>, i: int, source: u64)
    requires
        distinct_sources(s),
        0 <= i < s.len(),
        s[i].source == source,
    ensures
        claimed_at(s, source) == s[i].cumulative_payout_claimed,
    decreases s.len(),
{
    if i > 0 {
        lemma_claimed_at_index(s.drop_first(), i - 1, source);
    }
}

/// A source without a record reads as zero.
proof fn lemma_claimed_absent(s: Seq<CumulativePayoutRecord>, source: u64)
    requires
        !has_source(s, source),
    ensures
        claimed_at(s, source) == 0,
    decreases s.len(),
{
    if s.len() > 0 {
        assert(s[0].source != source);
        assert(!has_source(s.drop_first(), source)) by {
            if has_source(s.drop_first(), source) {
                let j = choose|j: int|
                    0 <= j < s.drop_first().len() && s.drop_first()[j].source == source;
                assert(s[j + 1].source == source);
            }
        }
        lemma_claimed_absent(s.drop_first(), source);
    }
}

/// Replacing the record at `i` with one of the same source changes only the
/// total read for that source; sources stay distinct.
proof fn lemma_claimed_update(s: Seq<CumulativePayoutRecord>, i: int, e: CumulativePayoutRecord)
    requires
        distinct_sources(s),
        0 <= i < s.len(),
        e.source == s[i].source,
    ensures
        distinct_sources(s.update(i, e)),
        claimed_at(s.update(i, e), e.source) == e.cumulative_payout_claimed,
        forall|s2: u64| #![trigger claimed_at(s.update(i, e), s2)]
            s2 != e.source ==> claimed_at(s.update(i, e), s2) == claimed_at(s, s2),
    decreases s.len(),
{
    assert forall|p: int, q: int|
        0 <= p < q < s.update(i, e).len() implies s.update(i, e)[p].source != s.update(
        i,
        e,
    )[q].source by {
        assert(s.update(i, e)[p] == if p == i { e } else { s[p] });
        assert(s.update(i, e)[q] == if q == i { e } else { s[q] });
    }
    assert forall|s2: u64| #![trigger claimed_at(s.update(i, e), s2)]
        (s2 != e.source ==> claimed_at(s.update(i, e), s2) == claimed_at(s, s2)) && (s2 == e.source
            ==> claimed_at(s.update(i, e), s2) == e.cumulative_payout_claimed) by {
        lemma_claimed_update_one(s, i, e, s2);
    }
}

/// The single-source core of `lemma_claimed_update`.
proof fn lemma_claimed_update_one(
    s: Seq<CumulativePayoutRecord>,
    i: int,
    e: CumulativePayoutRecord,
    s2: u64,
)
    requires
        distinct_sources(s),
        0 <= i < s.len(),
        e.source == s[i].source,
    ensures
        claimed_at(s.update(i, e), s2) == if s2 == e.source {
            e.cumulative_payout_claimed
        } else {
            claimed_at(s, s2)
        },
    decreases s.len(),
{
    if i == 0 {
        assert(s.update(0, e).drop_first() =~= s.drop_first());
    } else {
        assert(s.update(i, e).drop_first() =~= s.drop_first().update(i - 1, e));
        assert(distinct_sources(s.drop_first())) by {
            assert forall|p: int, q: int|
                0 <= p < q < s.drop_first().len() implies s.drop_first()[p].source
                != s.drop_first()[q].source by {
                assert(s.drop_first()[p] == s[p + 1]);
                assert(s.drop_first()[q] == s[q + 1]);
            }
        }
        lemma_claimed_update_one(s.drop_first(), i - 1, e, s2);
        if s[0].source == s2 {
            assert(s[i].source != s2);
        }
    }
}

/// Appending a record with a fresh source changes only the total read for
/// that source; sources stay distinct.
proof fn lemma_claimed_push(s: Seq<CumulativePayoutRecord>, e: CumulativePayoutRecord, s2: u64)
    requires
        distinct_sources(s),
        !has_source(s, e.source),
    ensures
        distinct_sources(s.push(e)),
        claimed_at(s.push(e), s2) == if s2 == e.source {
            e.cumulative_payout_claimed
        } else {
            claimed_at(s, s2)
        },
    decreases s.len(),
{
    assert forall|p: int, q: int|
        0 <= p < q < s.push(e).len() implies s.push(e)[p].source != s.push(e)[q].source by {
        if q == s.len() {
            assert(s.push(e)[p] == s[p]);
            assert(s.push(e)[q] == e);
            if s[p].source == e.source {
                assert(has_source(s, e.source));
            }
        } else {
            assert(s.push(e)[p] == s[p]);
            assert(s.push(e)[q] == s[q]);
        }
    }
    if s.len() == 0 {
        assert(s.push(e).len() == 1);
        assert(s.push(e)[0] == e);
        assert(s.push(e).drop_first() =~= Seq::<CumulativePayoutRecord>::empty());
        assert(s =~= Seq::<CumulativePayoutRecord>::empty());
        assert(claimed_at(s.push(e).drop_first(), s2) == 0);
    } else {
        assert(s.push(e)[0] == s[0]);
        assert(s[0].source != e.source) by {
            if s[0].source == e.source {
                assert(has_source(s, e.source));
            }
        }
        assert(!has_source(s.drop_first(), e.source)) by {
            if has_source(s.drop_first(), e.source) {
                let j = choose|j: int|
                    0 <= j < s.drop_first().len() && s.drop_first()[j].source == e.source;
                assert(s[j + 1].source == e.source);
            }
        }
        assert(s.push(e).drop_first() =~= s.drop_first().push(e));
        lemma_claimed_push(s.drop_first(), e, s2);
    }
}

/// The persisted per-source cumulative payout records.
#[derive(Clone, Debug)]
pub struct PayoutRegistry {
    /// The records, at most one per source.
    pub records: Vec<CumulativePayoutRecord>,
}

impl PayoutRegistry {
    /// The registry is well formed when no two records share a source.
    pub open spec fn wf(self) -> bool {
        distinct_sources(self.records@)
    }

    /// The cumulative total stored for `source`; zero while it never claimed.
    pub open spec fn claimed_of(self, source: u64) -> u64 {
        claimed_at(self.records@, source)
    }

    /// An empty registry: every source reads as zero.
    pub fn new() -> (r: PayoutRegistry)
        ensures
            r.wf(),
            forall|s2: u64| r.claimed_of(s2) == 0,
    {
        let r = PayoutRegistry { records: Vec::new() };
        proof {
            assert forall|s2: u64| r.claimed_of(s2) == 0 by {
                assert(r.records@.len() == 0);
            }
        }
        r
    }

    /// Finds the index of the record for `source`, if any.
    fn find(&self, source: u64) -> (r: Option<usize>)
        ensures
            match r {
                Some(i) => i < self.records@.len() && self.records@[i as int].source == source,
                None => !has_source(self.records@, source),
            },
    {
        let n = self.records.len();
        let mut i: usize = 0;
        while i < n
            invariant
                n == self.records@.len(),
                i <= n,
                forall|j: int| 0 <= j < i ==> self.records@[j].source != source,
            decreases n - i,
        {
            if self.records[i].source == source {
                return Some(i);
            }
            i = i + 1;
        }
        None
    }

    /// Reads the cumulative total stored for `source`.
    pub fn cumulative_claimed(&self, source: u64) -> (r: u64)
        requires
            self.wf(),
        ensures
            r == self.claimed_of(source),
    {
        match self.find(source) {
            Some(i) => {
                proof {
                    lemma_claimed_at_index(self.records@, i as int, source);
                }
                self.records[i].cumulative_payout_claimed
            },
            None => {
                proof {
                    lemma_claimed_absent(self.records@, source);
                }
                0
            },
        }
    }

    /// Verifies a claim without mutating anything: the proof must
    /// reconstruct the committed root and the requested total must strictly
    /// exceed the stored one; the result is the exact delta owed.
    pub fn verify_claim(
        &self,
        committed_root: &Vec<u8>,
        item: &PullPayment,
        path: &Vec<ProofElement>,
    ) -> (r: Result<u64, TokenError>)
        requires
            self.wf(),
        ensures
            r == claim_outcome(
                self.claimed_of(item.channel_id),
                item.cumulative_payout_claimed,
                claim_valid(committed_root@, *item, path@),
            ),
    {
        let root = compute_payout_root(item, path);
        let matches_root = bytes_eq(&root, committed_root);
        if !matches_root {
            return Err(TokenError::InvalidPayoutProof);
        }
        let stored = self.cumulative_claimed(item.channel_id);
        if item.cumulative_payout_claimed <= stored {
            return Err(TokenError::PayoutCumulativeAmountDoesNotIncrease);
        }
        Ok(item.cumulative_payout_claimed - stored)
    }

    /// Records that `source` has claimed up to `requested`; rejected unless
    /// the stored total strictly advances.
    pub fn record_claim(&mut self, source: u64, requested: u64) -> (r: Result<(), TokenError>)
        requires
            old(self).wf(),
        ensures
            final(self).wf(),
            r is Ok <==> requested > old(self).claimed_of(source),
            r is Err ==> *final(self) == *old(self) && r == Err::<(), TokenError>(
                TokenError::PayoutCumulativeAmountDoesNotIncrease,
            ),
            r is Ok ==> final(self).claimed_of(source) == requested,
            forall|s2: u64| #![trigger final(self).claimed_of(s2)]
                s2 != source ==> final(self).claimed_of(s2) == old(self).claimed_of(s2),
    {
        match self.find(source) {
            Some(i) => {
                proof {
                    lemma_claimed_at_index(self.records@, i as int, source);
                }
                let stored = self.records[i].cumulative_payout_claimed;
                if requested <= stored {
                    return Err(TokenError::PayoutCumulativeAmountDoesNotIncrease);
                }
                let ghost s0 = self.records@;
                let e = CumulativePayoutRecord { source, cumulative_payout_claimed: requested };
                self.records[i] = e;
                proof {
                    lemma_claimed_update(s0, i as int, e);
                }
                Ok(())
            },
            None => {
                proof {
                    lemma_claimed_absent(self.records@, source);
                }
                if requested == 0 {
                    return Err(TokenError::PayoutCumulativeAmountDoesNotIncrease);
                }
                let ghost s0 = self.records@;
                let e = CumulativePayoutRecord { source, cumulative_payout_claimed: requested };
                self.records.push(e);
                proof {
                    assert forall|s2: u64| #![trigger claimed_at(s0.push(e), s2)]
                        claimed_at(s0.push(e), s2) == (if s2 == source {
                            requested
                        } else {
                            claimed_at(s0, s2)
                        }) by {
                        lemma_claimed_push(s0, e, s2);
                    }
                    lemma_claimed_push(s0, e, source);
                }
                Ok(())
            },
        }
    }

    /// Verifies a claim against the committed root and, when it holds,
    /// advances the stored total and returns the delta the treasury owes
    /// the claimant; a failed claim changes nothing.
    pub fn claim_payout(
        &mut self,
        committed_root: &Vec<u8>,
        item: &PullPayment,
        path: &Vec<ProofElement>,
    ) -> (r: Result<u64, TokenError>)
        requires
            old(self).wf(),
        ensures
            final(self).wf(),
            r == claim_outcome(
                old(self).claimed_of(item.channel_id),
                item.cumulative_payout_claimed,
                claim_valid(committed_root@, *item, path@),
            ),
            r is Err ==> *final(self) == *old(self),
            r is Ok ==> final(self).claimed_of(item.channel_id)
                == item.cumulative_payout_claimed,
            forall|s2: u64| #![trigger final(self).claimed_of(s2)]
                s2 != item.channel_id ==> final(self).claimed_of(s2) == old(self).claimed_of(s2),
    {
        let delta = match self.verify_claim(committed_root, item, path) {
            Ok(d) => d,
            Err(e) => {
                return Err(e);
            },
        };
        match self.record_claim(item.channel_id, item.cumulative_payout_claimed) {
            Ok(()) => Ok(delta),
            Err(e) => {
                proof {
                    assert(false);
                }
                Err(e)
            },
        }
    }
}

/// Compares two byte vectors for equality of contents.
fn bytes_eq(a: &Vec<u8>, b: &Vec<u8>) -> (r: bool)
    ensures
        r == (a@ == b@),
{
    if a.len() != b.len() {
        proof {
            assert(a@ != b@);
        }
        return false;
    }
    let n = a.len();
    let mut i: usize = 0;
    while i < n
        invariant
            n == a@.len(),
            n == b@.len(),
            i <= n,
            forall|j: int| 0 <= j < i ==> a@[j] == b@[j],
        decreases n - i,
    {
        if a[i] != b[i] {
            return false;
        }
        i = i + 1;
    }
    proof {
        assert(a@ =~= b@);
    }
    true
}

} // verus!
