use k256::ecdsa::{signature::Signer, Signature, SigningKey};
use sequencer::codec::push_u64_le;
use sequencer::digest::digests_equal;
use sequencer::rollup::{settle_trade, verify_state_transition, AccountState, BatchPayload, MerkleProof};
use sequencer::trade::Trade;
use sha2::{Digest, Sha256};

fn sha(parts: &[&[u8]]) -> [u8; 32] {
    let mut h = Sha256::new();
    for p in parts {
        h.update(p);
    }
    h.finalize().into()
}

fn leaf(s: &AccountState) -> [u8; 32] {
    sha(&[&s.nonce.to_le_bytes(), &s.base_balance.to_le_bytes(), &s.quote_balance.to_le_bytes()])
}

fn key() -> SigningKey {
    SigningKey::from_slice(&[7u8; 32]).unwrap()
}

struct Scenario {
    payload: BatchPayload,
}

/// One maker selling 10 base at 50 quote to a taker, with a two-leaf state
/// tree holding both accounts.
fn scenario() -> Scenario {
    let signing_key = key();
    let maker_pubkey = signing_key.verifying_key().to_sec1_bytes().to_vec();
    let taker_pubkey = vec![0u8; 33];
    let maker_state = AccountState { nonce: 0, base_balance: 100, quote_balance: 0 };
    let taker_state = AccountState { nonce: 0, base_balance: 0, quote_balance: 1000 };
    let mut trade = Trade { maker_pubkey, taker_pubkey, amount: 10, price: 50, maker_signature: vec![] };
    let order_hash = trade.order_hash();
    let signature: Signature = signing_key.sign(&order_hash);
    trade.maker_signature = signature.to_vec();

    let maker_leaf = leaf(&maker_state);
    let taker_leaf = leaf(&taker_state);
    let previous_state_root = sha(&[&maker_leaf, &taker_leaf]);
    let maker_proof = MerkleProof { sibling_hashes: vec![taker_leaf], is_left: vec![false] };
    let taker_proof = MerkleProof { sibling_hashes: vec![maker_leaf], is_left: vec![true] };

    let new_taker_state = AccountState { nonce: 1, base_balance: 10, quote_balance: 500 };
    let new_state_root = sha(&[&maker_leaf, &leaf(&new_taker_state)]);

    Scenario {
        payload: BatchPayload {
            previous_state_root,
            new_state_root,
            trades: vec![trade],
            maker_states: vec![maker_state],
            maker_proofs: vec![maker_proof],
            taker_states: vec![taker_state],
            taker_proofs: vec![taker_proof],
        },
    }
}

#[test]
fn le_encoding_matches_std() {
    let mut out = vec![9u8];
    push_u64_le(&mut out, 0x0102_0304_0506_0708);
    assert_eq!(out, vec![9, 8, 7, 6, 5, 4, 3, 2, 1]);
}

#[test]
fn account_leaf_bytes_are_little_endian_fields() {
    let s = AccountState { nonce: 1, base_balance: 256, quote_balance: u64::MAX };
    let mut expected = Vec::new();
    expected.extend_from_slice(&1u64.to_le_bytes());
    expected.extend_from_slice(&256u64.to_le_bytes());
    expected.extend_from_slice(&u64::MAX.to_le_bytes());
    assert_eq!(s.leaf_bytes(), expected);
}

#[test]
fn account_hash_is_sha256_of_leaf_bytes() {
    let s = AccountState { nonce: 3, base_balance: 40, quote_balance: 500 };
    assert_eq!(s.hash(), leaf(&s));
}

#[test]
fn order_hash_is_sha256_of_signed_bytes() {
    let t = Trade {
        maker_pubkey: vec![1, 2, 3],
        taker_pubkey: vec![4, 5],
        amount: 10,
        price: 50,
        maker_signature: vec![9; 64],
    };
    let expected = sha(&[&[1, 2, 3], &[4, 5], &10u64.to_le_bytes(), &50u64.to_le_bytes()]);
    assert_eq!(t.order_hash(), expected);
    let mut bytes = vec![1, 2, 3, 4, 5];
    bytes.extend_from_slice(&10u64.to_le_bytes());
    bytes.extend_from_slice(&50u64.to_le_bytes());
    assert_eq!(t.signed_bytes(), bytes);
}

#[test]
fn empty_proof_root_is_the_leaf() {
    let p = MerkleProof { sibling_hashes: vec![], is_left: vec![] };
    assert_eq!(p.compute_root([5u8; 32]), [5u8; 32]);
}

#[test]
fn proof_hashes_sibling_on_the_given_side() {
    let leaf = [1u8; 32];
    let a = [2u8; 32];
    let b = [3u8; 32];
    let p = MerkleProof { sibling_hashes: vec![a, b], is_left: vec![true, false] };
    let level1 = sha(&[&a, &leaf]);
    let root = sha(&[&level1, &b]);
    assert_eq!(p.compute_root(leaf), root);
}

#[test]
fn proof_depth_is_the_shorter_list() {
    let leaf = [1u8; 32];
    let a = [2u8; 32];
    let p = MerkleProof { sibling_hashes: vec![a, [4u8; 32]], is_left: vec![false] };
    assert_eq!(p.compute_root(leaf), sha(&[&leaf, &a]));
}

#[test]
fn digests_compare_bytewise() {
    assert!(digests_equal(&[1u8; 32], &[1u8; 32]));
    let mut b = [1u8; 32];
    b[31] = 2;
    assert!(!digests_equal(&[1u8; 32], &b));
}

#[test]
fn settle_moves_base_for_quote() {
    let maker = AccountState { nonce: 0, base_balance: 100, quote_balance: 0 };
    let taker = AccountState { nonce: 5, base_balance: 0, quote_balance: 1000 };
    let (m, t) = settle_trade(&maker, &taker, 10, 50).unwrap();
    assert_eq!(m, AccountState { nonce: 1, base_balance: 90, quote_balance: 500 });
    assert_eq!(t, AccountState { nonce: 6, base_balance: 10, quote_balance: 500 });
    assert_eq!(m.base_balance + t.base_balance, 100);
    assert_eq!(m.quote_balance + t.quote_balance, 1000);
}

#[test]
fn settle_refuses_short_maker() {
    let maker = AccountState { nonce: 0, base_balance: 9, quote_balance: 0 };
    let taker = AccountState { nonce: 0, base_balance: 0, quote_balance: 1000 };
    assert_eq!(settle_trade(&maker, &taker, 10, 50), None);
}

#[test]
fn settle_refuses_short_taker() {
    let maker = AccountState { nonce: 0, base_balance: 100, quote_balance: 0 };
    let taker = AccountState { nonce: 0, base_balance: 0, quote_balance: 499 };
    assert_eq!(settle_trade(&maker, &taker, 10, 50), None);
}

#[test]
fn settle_refuses_overflowing_quote() {
    let maker = AccountState { nonce: 0, base_balance: 10, quote_balance: 7 };
    let taker = AccountState { nonce: 0, base_balance: 0, quote_balance: u64::MAX };
    assert_eq!(settle_trade(&maker, &taker, 2, u64::MAX), None);
}

#[test]
fn settle_refuses_overflowing_credit() {
    let maker = AccountState { nonce: 0, base_balance: 10, quote_balance: u64::MAX };
    let taker = AccountState { nonce: 0, base_balance: 0, quote_balance: 100 };
    assert_eq!(settle_trade(&maker, &taker, 1, 1), None);
    let maker = AccountState { nonce: u64::MAX, base_balance: 10, quote_balance: 0 };
    assert_eq!(settle_trade(&maker, &taker, 1, 1), None);
    let maker = AccountState { nonce: 0, base_balance: 10, quote_balance: 0 };
    let taker = AccountState { nonce: 0, base_balance: u64::MAX, quote_balance: 100 };
    assert_eq!(settle_trade(&maker, &taker, 1, 1), None);
}

#[test]
fn valid_batch_is_accepted() {
    let s = scenario();
    assert!(verify_state_transition(&s.payload));
}

#[test]
fn wrong_new_root_is_rejected() {
    let mut s = scenario();
    s.payload.new_state_root = [0u8; 32];
    assert!(!verify_state_transition(&s.payload));
}

#[test]
fn wrong_previous_root_is_rejected() {
    let mut s = scenario();
    s.payload.previous_state_root[0] ^= 1;
    assert!(!verify_state_transition(&s.payload));
}

#[test]
fn forged_signature_is_rejected() {
    let mut s = scenario();
    s.payload.trades[0].amount = 11;
    assert!(!verify_state_transition(&s.payload));
}

#[test]
fn missing_signature_is_rejected() {
    let mut s = scenario();
    s.payload.trades[0].maker_signature = vec![];
    assert!(!verify_state_transition(&s.payload));
}

#[test]
fn malformed_maker_key_is_rejected() {
    let mut s = scenario();
    s.payload.trades[0].maker_pubkey = vec![0u8; 33];
    assert!(!verify_state_transition(&s.payload));
}

#[test]
fn out_of_range_signature_is_rejected() {
    let mut s = scenario();
    s.payload.trades[0].maker_signature = vec![0xffu8; 64];
    assert!(!verify_state_transition(&s.payload));
}

#[test]
fn signature_by_another_key_is_rejected() {
    let mut s = scenario();
    let other = SigningKey::from_slice(&[9u8; 32]).unwrap();
    let order_hash = s.payload.trades[0].order_hash();
    let sig: Signature = other.sign(&order_hash);
    s.payload.trades[0].maker_signature = sig.to_vec();
    assert!(!verify_state_transition(&s.payload));
}

#[test]
fn short_taker_balance_is_rejected() {
    let mut s = scenario();
    s.payload.taker_states[0].quote_balance = 499;
    assert!(!verify_state_transition(&s.payload));
}

#[test]
fn empty_batch_is_rejected() {
    let payload = BatchPayload {
        previous_state_root: [0u8; 32],
        new_state_root: [0u8; 32],
        trades: vec![],
        maker_states: vec![],
        maker_proofs: vec![],
        taker_states: vec![],
        taker_proofs: vec![],
    };
    assert!(!verify_state_transition(&payload));
}

#[test]
fn misaligned_batch_is_rejected() {
    let mut s = scenario();
    s.payload.maker_states.push(AccountState { nonce: 0, base_balance: 0, quote_balance: 0 });
    assert!(!verify_state_transition(&s.payload));
}

#[test]
fn batch_missing_a_proof_is_rejected() {
    let mut s = scenario();
    s.payload.taker_proofs.clear();
    assert!(!verify_state_transition(&s.payload));
}

#[test]
fn batch_with_an_extra_proof_is_rejected() {
    let mut s = scenario();
    let extra = s.payload.maker_proofs[0].clone();
    s.payload.maker_proofs.push(extra);
    assert!(!verify_state_transition(&s.payload));
}

#[test]
fn overflowing_quote_is_rejected() {
    // amount * price = 2^64 does not fit; the taker holds no quote tokens.
    let signing_key = key();
    let maker_pubkey = signing_key.verifying_key().to_sec1_bytes().to_vec();
    let maker_state = AccountState { nonce: 0, base_balance: 1 << 32, quote_balance: 0 };
    let taker_state = AccountState { nonce: 0, base_balance: 0, quote_balance: 0 };
    let mut trade = Trade {
        maker_pubkey,
        taker_pubkey: vec![0u8; 33],
        amount: 1 << 32,
        price: 1 << 32,
        maker_signature: vec![],
    };
    let sig: Signature = signing_key.sign(&trade.order_hash());
    trade.maker_signature = sig.to_vec();
    let maker_leaf = leaf(&maker_state);
    let taker_leaf = leaf(&taker_state);
    let previous_state_root = sha(&[&maker_leaf, &taker_leaf]);
    let new_taker = AccountState { nonce: 1, base_balance: 1 << 32, quote_balance: 0 };
    let payload = BatchPayload {
        previous_state_root,
        new_state_root: sha(&[&maker_leaf, &leaf(&new_taker)]),
        trades: vec![trade],
        maker_states: vec![maker_state],
        maker_proofs: vec![MerkleProof { sibling_hashes: vec![taker_leaf], is_left: vec![false] }],
        taker_states: vec![taker_state],
        taker_proofs: vec![MerkleProof { sibling_hashes: vec![maker_leaf], is_left: vec![true] }],
    };
    assert!(!verify_state_transition(&payload));
}

#[test]
fn batch_overflowing_a_nonce_is_rejected() {
    let mut s = scenario();
    let maker_state = AccountState { nonce: u64::MAX, base_balance: 100, quote_balance: 0 };
    let taker_leaf = leaf(&s.payload.taker_states[0]);
    s.payload.maker_states[0] = maker_state;
    s.payload.previous_state_root = sha(&[&leaf(&maker_state), &taker_leaf]);
    s.payload.taker_proofs[0].sibling_hashes[0] = leaf(&maker_state);
    assert!(!verify_state_transition(&s.payload));
}
