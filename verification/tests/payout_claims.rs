use token_ledger::errors::TokenError;
use token_ledger::payout::{
    PayoutRegistry, ProofElementRecord, PullPaymentElement, Side, compute_payout_root,
};

type Claim = PullPaymentElement<u64, u64, Vec<u8>>;
type Step = ProofElementRecord<Vec<u8>, Side>;

fn leaf_hash(item: &Claim) -> Vec<u8> {
    let mut bytes = Vec::new();
    bytes.extend_from_slice(&item.channel_id.to_le_bytes());
    bytes.extend_from_slice(&item.cumulative_payout_claimed.to_le_bytes());
    bytes.extend_from_slice(&item.reason);
    sp_core_hashing::blake2_256(&bytes).to_vec()
}

fn parent_hash(left: &[u8], right: &[u8]) -> Vec<u8> {
    let mut bytes = Vec::new();
    bytes.extend_from_slice(left);
    bytes.extend_from_slice(right);
    sp_core_hashing::blake2_256(&bytes).to_vec()
}

#[test]
fn computed_root_matches_the_recombination_order() {
    let item = Claim { channel_id: 7, cumulative_payout_claimed: 100, reason: vec![9; 32] };
    let sibling = vec![0xAB; 32];
    // The sibling stands on the left, so the parent is H(sibling ++ leaf).
    let path = vec![Step { hash: sibling.clone(), side: Side::Left }];
    let expected = parent_hash(&sibling, &leaf_hash(&item));
    assert_eq!(compute_payout_root(&item, &path), expected);
    // With the sibling on the right the parent is H(leaf ++ sibling).
    let path = vec![Step { hash: sibling.clone(), side: Side::Right }];
    let expected = parent_hash(&leaf_hash(&item), &sibling);
    assert_eq!(compute_payout_root(&item, &path), expected);
}

#[test]
fn valid_claim_pays_the_delta() {
    let mut registry = PayoutRegistry::new();
    let item = Claim { channel_id: 7, cumulative_payout_claimed: 100, reason: vec![1; 32] };
    let sibling = vec![0x55; 32];
    let path = vec![Step { hash: sibling.clone(), side: Side::Left }];
    let root = parent_hash(&sibling, &leaf_hash(&item));
    assert_eq!(registry.claim_payout(&root, &item, &path), Ok(100));
    assert_eq!(registry.cumulative_claimed(7), 100);
}

#[test]
fn cumulative_claims_pay_increments_and_replay_is_rejected() {
    let mut registry = PayoutRegistry::new();
    let c1 = Claim { channel_id: 7, cumulative_payout_claimed: 100, reason: vec![1; 32] };
    let c2 = Claim { channel_id: 7, cumulative_payout_claimed: 250, reason: vec![2; 32] };
    let root1 = leaf_hash(&c1);
    let root2 = leaf_hash(&c2);
    let empty: Vec<Step> = Vec::new();
    // A single-leaf commitment: the leaf hash is itself the root.
    assert_eq!(registry.claim_payout(&root1, &c1, &empty), Ok(100));
    assert_eq!(registry.claim_payout(&root2, &c2, &empty), Ok(150));
    assert_eq!(registry.cumulative_claimed(7), 250);
    // Replaying the first claim no longer advances the stored total.
    assert_eq!(
        registry.claim_payout(&root1, &c1, &empty),
        Err(TokenError::PayoutCumulativeAmountDoesNotIncrease)
    );
    assert_eq!(registry.cumulative_claimed(7), 250);
}

#[test]
fn sources_are_tracked_independently() {
    let mut registry = PayoutRegistry::new();
    let a = Claim { channel_id: 1, cumulative_payout_claimed: 10, reason: vec![0; 32] };
    let b = Claim { channel_id: 2, cumulative_payout_claimed: 30, reason: vec![0; 32] };
    let empty: Vec<Step> = Vec::new();
    assert_eq!(registry.claim_payout(&leaf_hash(&a), &a, &empty), Ok(10));
    assert_eq!(registry.claim_payout(&leaf_hash(&b), &b, &empty), Ok(30));
    assert_eq!(registry.cumulative_claimed(1), 10);
    assert_eq!(registry.cumulative_claimed(2), 30);
}

#[test]
fn tampered_proof_hash_is_rejected() {
    let mut registry = PayoutRegistry::new();
    let item = Claim { channel_id: 7, cumulative_payout_claimed: 100, reason: vec![1; 32] };
    let sibling = vec![0x55; 32];
    let root = parent_hash(&sibling, &leaf_hash(&item));
    // Flip one bit at a time in the sibling hash: every claim must fail.
    for (byte, bit) in [(0usize, 0u8), (0, 7), (15, 3), (31, 0), (31, 7)] {
        let mut tampered = sibling.clone();
        tampered[byte] ^= 1 << bit;
        let path = vec![Step { hash: tampered, side: Side::Left }];
        assert_eq!(
            registry.claim_payout(&root, &item, &path),
            Err(TokenError::InvalidPayoutProof)
        );
        assert_eq!(registry.cumulative_claimed(7), 0);
    }
}

#[test]
fn swapped_proof_side_is_rejected() {
    let mut registry = PayoutRegistry::new();
    let item = Claim { channel_id: 7, cumulative_payout_claimed: 100, reason: vec![1; 32] };
    let sibling = vec![0x55; 32];
    let root = parent_hash(&sibling, &leaf_hash(&item));
    let path = vec![Step { hash: sibling.clone(), side: Side::Right }];
    assert_eq!(registry.claim_payout(&root, &item, &path), Err(TokenError::InvalidPayoutProof));
    assert_eq!(registry.cumulative_claimed(7), 0);
}

#[test]
fn wrong_cumulative_value_fails_the_proof() {
    let mut registry = PayoutRegistry::new();
    let item = Claim { channel_id: 7, cumulative_payout_claimed: 100, reason: vec![1; 32] };
    let root = leaf_hash(&item);
    let empty: Vec<Step> = Vec::new();
    let inflated = Claim { cumulative_payout_claimed: 101, ..item.clone() };
    assert_eq!(
        registry.claim_payout(&root, &inflated, &empty),
        Err(TokenError::InvalidPayoutProof)
    );
}

#[test]
fn first_claim_must_exceed_zero() {
    let mut registry = PayoutRegistry::new();
    let item = Claim { channel_id: 7, cumulative_payout_claimed: 0, reason: vec![1; 32] };
    let root = leaf_hash(&item);
    let empty: Vec<Step> = Vec::new();
    assert_eq!(
        registry.claim_payout(&root, &item, &empty),
        Err(TokenError::PayoutCumulativeAmountDoesNotIncrease)
    );
}

#[test]
fn two_level_proof_reconstructs_the_committed_root() {
    let mut registry = PayoutRegistry::new();
    let item = Claim { channel_id: 3, cumulative_payout_claimed: 42, reason: vec![7; 32] };
    let other_leaf = vec![0x11; 32];
    let uncle = vec![0x22; 32];
    let parent = parent_hash(&leaf_hash(&item), &other_leaf);
    let root = parent_hash(&uncle, &parent);
    let path = vec![
        Step { hash: other_leaf, side: Side::Right },
        Step { hash: uncle, side: Side::Left },
    ];
    assert_eq!(registry.claim_payout(&root, &item, &path), Ok(42));
}
