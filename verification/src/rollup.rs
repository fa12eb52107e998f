//! Account states, Merkle proofs over them, and the check that a batch of
//! trades moves the state root as claimed.
use vstd::prelude::*;

use crate::codec::{le_value, push_bytes, push_u64_le, u64_le, u64_le_decodes};
use crate::digest::{digests_equal, sha256, sha256_digest};
use crate::signatures::{check_signature, signature_accepted};
use crate::trade::{order_preimage, Trade, TradeView};

verus! {

/// The balances and nonce of one account: a leaf of the state tree.
#[derive(Clone, Copy, Debug, PartialEq, Eq, Structural)]
pub struct AccountState {
    pub nonce: u64,
    pub base_balance: u64,
    pub quote_balance: u64,
}

/// The bytes hashed into an account's leaf: nonce, base balance and quote
/// balance, each 8 bytes little-endian.
pub open spec fn leaf_preimage(s: AccountState) -> Seq<u8> {
    u64_le(s.nonce) + u64_le(s.base_balance) + u64_le(s.quote_balance)
}

/// The leaf hash of an account.
pub open spec fn leaf_hash(s: AccountState) -> Seq<u8> {
    sha256(leaf_preimage(s))
}

impl AccountState {
    /// The bytes hashed into this account's leaf.
    pub fn leaf_bytes(&self) -> (r: Vec<u8>)
        ensures
            r@ == leaf_preimage(*self),
            r@.len() == 24,
            le_value(r@.subrange(0, 8)) == self.nonce,
            le_value(r@.subrange(8, 16)) == self.base_balance,
            le_value(r@.subrange(16, 24)) == self.quote_balance,
    {
        let mut out: Vec<u8> = Vec::new();
        push_u64_le(&mut out, self.nonce);
        push_u64_le(&mut out, self.base_balance);
        push_u64_le(&mut out, self.quote_balance);
        assert(out@ =~= leaf_preimage(*self));
        proof {
            leaf_preimage_decodes(*self);
        }
        out
    }

    /// Hashes the account state into a leaf of the state tree.
    pub fn hash(&self) -> (r: [u8; 32])
        ensures
            r@ == leaf_hash(*self),
    {
        let bytes = self.leaf_bytes();
        sha256_digest(bytes.as_slice())
    }
}

/// A path from a leaf to the root: at each level the sibling hash and
/// whether the sibling sits on the left.
#[derive(Clone, Debug)]
pub struct MerkleProof {
    pub sibling_hashes: Vec<[u8; 32]>,
    pub is_left: Vec<bool>,
}

/// The parent of `current` and `sibling`.
pub open spec fn parent_hash(current: Seq<u8>, sibling: Seq<u8>, sibling_is_left: bool) -> Seq<u8> {
    if sibling_is_left {
        sha256(sibling + current)
    } else {
        sha256(current + sibling)
    }
}

/// The hash reached from `leaf` after the first `n` levels of the path.
pub open spec fn fold_path(leaf: Seq<u8>, siblings: Seq<Seq<u8>>, is_left: Seq<bool>, n: nat) -> Seq<u8>
    decreases n,
{
    if n == 0 {
        leaf
    } else {
        parent_hash(
            fold_path(leaf, siblings, is_left, (n - 1) as nat),
            siblings[n - 1],
            is_left[n - 1],
        )
    }
}

impl MerkleProof {
    /// The sibling hashes as byte strings.
    pub open spec fn siblings(&self) -> Seq<Seq<u8>> {
        self.sibling_hashes@.map_values(|h: [u8; 32]| h@)
    }

    /// The number of levels of the path: pairs beyond the shorter of the two
    /// lists are ignored.
    pub open spec fn depth(&self) -> nat {
        if self.sibling_hashes@.len() <= self.is_left@.len() {
            self.sibling_hashes@.len()
        } else {
            self.is_left@.len()
        }
    }

    /// The root that this path leads to from `leaf`.
    pub open spec fn root_from(&self, leaf: Seq<u8>) -> Seq<u8> {
        fold_path(leaf, self.siblings(), self.is_left@, self.depth())
    }

    /// Computes the tree root given a leaf hash and this proof path.
    pub fn compute_root(&self, leaf: [u8; 32]) -> (r: [u8; 32])
        ensures
            r@ == self.root_from(leaf@),
    {
        let n = if self.sibling_hashes.len() <= self.is_left.len() {
            self.sibling_hashes.len()
        } else {
            self.is_left.len()
        };
        let mut current = leaf;
        let mut i: usize = 0;
        while i < n
            invariant
                n == self.depth(),
                i <= n,
                current@ == fold_path(leaf@, self.siblings(), self.is_left@, i as nat),
            decreases n - i,
        {
            let sibling = &self.sibling_hashes[i];
            let mut buf: Vec<u8> = Vec::new();
            if self.is_left[i] {
                push_bytes(&mut buf, sibling);
                push_bytes(&mut buf, &current);
            } else {
                push_bytes(&mut buf, &current);
                push_bytes(&mut buf, sibling);
            }
            assert(self.siblings()[i as int] == sibling@);
            current = sha256_digest(buf.as_slice());
            i = i + 1;
        }
        current
    }
}

/// A batch of trades with the account pre-states of their makers and takers
/// and the Merkle proofs that tie those pre-states to the previous root.
#[derive(Debug)]
pub struct BatchPayload {
    pub previous_state_root: [u8; 32],
    pub new_state_root: [u8; 32],
    pub trades: Vec<Trade>,
    pub maker_states: Vec<AccountState>,
    pub maker_proofs: Vec<MerkleProof>,
    pub taker_states: Vec<AccountState>,
    pub taker_proofs: Vec<MerkleProof>,
}

/// Whether the quote amount `amount * price` fits in a `u64`.
pub open spec fn quote_fits(amount: u64, price: u64) -> bool {
    amount * price <= u64::MAX
}

/// The quote amount a trade moves: `amount * price`.
pub open spec fn quote_amount(amount: u64, price: u64) -> int {
    amount * price
}

/// Whether a trade can settle: its quote amount fits, the maker holds the
/// base tokens, the taker holds the quote tokens, and no credited balance or
/// nonce leaves the `u64` range.
pub open spec fn can_settle(maker: AccountState, taker: AccountState, amount: u64, price: u64) -> bool {
    &&& quote_fits(amount, price)
    &&& amount <= maker.base_balance
    &&& quote_amount(amount, price) <= taker.quote_balance
    &&& maker.quote_balance + quote_amount(amount, price) <= u64::MAX
    &&& maker.nonce + 1 <= u64::MAX
    &&& taker.base_balance + amount <= u64::MAX
    &&& taker.nonce + 1 <= u64::MAX
}

/// The maker after selling `amount` base tokens at `price`.
pub open spec fn settled_maker(maker: AccountState, amount: u64, price: u64) -> AccountState {
    AccountState {
        nonce: (maker.nonce + 1) as u64,
        base_balance: (maker.base_balance - amount) as u64,
        quote_balance: (maker.quote_balance + quote_amount(amount, price)) as u64,
    }
}

/// The taker after buying `amount` base tokens at `price`.
pub open spec fn settled_taker(taker: AccountState, amount: u64, price: u64) -> AccountState {
    AccountState {
        nonce: (taker.nonce + 1) as u64,
        base_balance: (taker.base_balance + amount) as u64,
        quote_balance: (taker.quote_balance - quote_amount(amount, price)) as u64,
    }
}

/// Settles one trade: the maker sells `amount` base tokens to the taker for
/// `amount * price` quote tokens, and both nonces advance. `None` when the
/// quote amount does not fit in a `u64`, when either side lacks the tokens,
/// or when a credited balance or nonce would overflow.
pub fn settle_trade(maker: &AccountState, taker: &AccountState, amount: u64, price: u64) -> (r: Option<(AccountState, AccountState)>)
    ensures
        r == (if can_settle(*maker, *taker, amount, price) {
            Some((settled_maker(*maker, amount, price), settled_taker(*taker, amount, price)))
        } else {
            None
        }),
        r is Some <==> {
            &&& maker.base_balance >= amount
            &&& amount * price <= taker.quote_balance
            &&& amount * price <= u64::MAX
            &&& maker.quote_balance + amount * price <= u64::MAX
            &&& taker.base_balance + amount <= u64::MAX
            &&& maker.nonce < u64::MAX
            &&& taker.nonce < u64::MAX
        },
{
    let quote = match amount.checked_mul(price) {
        Some(q) => q,
        None => {
            return None;
        },
    };
    if maker.base_balance < amount {
        return None;
    }
    if taker.quote_balance < quote {
        return None;
    }
    if maker.quote_balance > u64::MAX - quote || maker.nonce == u64::MAX || taker.base_balance
        > u64::MAX - amount || taker.nonce == u64::MAX {
        return None;
    }
    let new_maker = AccountState {
        nonce: maker.nonce + 1,
        base_balance: maker.base_balance - amount,
        quote_balance: maker.quote_balance + quote,
    };
    let new_taker = AccountState {
        nonce: taker.nonce + 1,
        base_balance: taker.base_balance + amount,
        quote_balance: taker.quote_balance - quote,
    };
    Some((new_maker, new_taker))
}

/// Whether the batch is not empty and every list (maker and taker states,
/// maker and taker proofs) has exactly one entry per trade.
pub open spec fn batch_aligned(p: BatchPayload) -> bool {
    &&& p.trades@.len() == p.maker_states@.len()
    &&& p.trades@.len() == p.taker_states@.len()
    &&& p.trades@.len() == p.maker_proofs@.len()
    &&& p.trades@.len() == p.taker_proofs@.len()
    &&& p.trades@.len() > 0
}

/// Whether the maker authorized the trade: its key and signature parse and
/// the signature verifies over the trade's order hash.
pub open spec fn maker_authorized(t: TradeView) -> bool {
    signature_accepted(t.maker_pubkey, sha256(order_preimage(t)), t.maker_signature)
}

/// Whether trade `i` of the batch passes: both pre-states are leaves under
/// the previous root, the maker authorized the trade, it can settle, and,
/// for the last trade, the taker's updated leaf leads to the new root.
pub open spec fn trade_valid(p: BatchPayload, i: int) -> bool {
    let t = p.trades@[i]@;
    let maker = p.maker_states@[i];
    let taker = p.taker_states@[i];
    &&& p.maker_proofs@[i].root_from(leaf_hash(maker)) == p.previous_state_root@
    &&& p.taker_proofs@[i].root_from(leaf_hash(taker)) == p.previous_state_root@
    &&& maker_authorized(t)
    &&& can_settle(maker, taker, t.amount, t.price)
    &&& (i == p.trades@.len() - 1 ==> p.taker_proofs@[i].root_from(
        leaf_hash(settled_taker(taker, t.amount, t.price)),
    ) == p.new_state_root@)
}

/// Whether the batch is a valid state transition.
pub open spec fn valid_transition(p: BatchPayload) -> bool {
    &&& batch_aligned(p)
    &&& forall|i: int| 0 <= i < p.trades@.len() ==> trade_valid(p, i)
}

/// Verifies a batch: all lists must align with the trades; then for each
/// trade both account pre-states must lead to the previous root, the
/// maker's signature must verify over the order hash, the quote amount must
/// fit, maker and taker must hold the tokens, no credited balance or nonce
/// may overflow, and the last trade's updated taker leaf must lead to the
/// new root.
pub fn verify_state_transition(payload: &BatchPayload) -> (r: bool)
    ensures
        r == valid_transition(*payload),
{
    let n = payload.trades.len();
    if n != payload.maker_states.len() || n != payload.taker_states.len()
        || n != payload.maker_proofs.len() || n != payload.taker_proofs.len() || n == 0 {
        return false;
    }
    let mut i: usize = 0;
    while i < n
        invariant
            n == payload.trades@.len(),
            batch_aligned(*payload),
            i <= n,
            forall|j: int| 0 <= j < i ==> trade_valid(*payload, j),
        decreases n - i,
    {
        let trade = &payload.trades[i];
        let maker_state = payload.maker_states[i];
        let taker_state = payload.taker_states[i];
        let maker_proof = &payload.maker_proofs[i];
        let taker_proof = &payload.taker_proofs[i];

        let maker_leaf = maker_state.hash();
        let taker_leaf = taker_state.hash();
        if !digests_equal(&maker_proof.compute_root(maker_leaf), &payload.previous_state_root) {
            assert(!trade_valid(*payload, i as int));
            return false;
        }
        if !digests_equal(&taker_proof.compute_root(taker_leaf), &payload.previous_state_root) {
            assert(!trade_valid(*payload, i as int));
            return false;
        }

        let order_hash = trade.order_hash();
        if !check_signature(trade.maker_pubkey.as_slice(), &order_hash, trade.maker_signature.as_slice()) {
            assert(!trade_valid(*payload, i as int));
            return false;
        }

        let (_new_maker, new_taker) = match settle_trade(
            &maker_state,
            &taker_state,
            trade.amount,
            trade.price,
        ) {
            Some(pair) => pair,
            None => {
                assert(!trade_valid(*payload, i as int));
                return false;
            },
        };

        let new_taker_leaf = new_taker.hash();
        let proposed_taker_root = taker_proof.compute_root(new_taker_leaf);
        if i == n - 1 && !digests_equal(&proposed_taker_root, &payload.new_state_root) {
            assert(!trade_valid(*payload, i as int));
            return false;
        }
        assert(trade_valid(*payload, i as int));
        i = i + 1;
    }
    true
}

/// Settlement moves tokens between maker and taker without creating or
/// destroying any: the base and quote totals of the pair are unchanged,
/// and both nonces advance by one.
pub proof fn settlement_conserves_tokens(maker: AccountState, taker: AccountState, amount: u64, price: u64)
    requires
        can_settle(maker, taker, amount, price),
    ensures
        ({
            let m = settled_maker(maker, amount, price);
            let t = settled_taker(taker, amount, price);
            &&& m.base_balance + t.base_balance == maker.base_balance + taker.base_balance
            &&& m.quote_balance + t.quote_balance == maker.quote_balance + taker.quote_balance
            &&& m.nonce == maker.nonce + 1
            &&& t.nonce == taker.nonce + 1
        }),
{
}

/// A path with no levels leads from a leaf to the leaf itself.
pub proof fn empty_path_root_is_leaf(proof: MerkleProof, leaf: Seq<u8>)
    requires
        proof.depth() == 0,
    ensures
        proof.root_from(leaf) == leaf,
{
}

/// The leaf preimage of an account is 24 bytes, and its three 8-byte
/// slices decode, little-endian, to the full nonce, base balance and quote
/// balance.
pub proof fn leaf_preimage_decodes(s: AccountState)
    ensures
        leaf_preimage(s).len() == 24,
        le_value(leaf_preimage(s).subrange(0, 8)) == s.nonce,
        le_value(leaf_preimage(s).subrange(8, 16)) == s.base_balance,
        le_value(leaf_preimage(s).subrange(16, 24)) == s.quote_balance,
{
    u64_le_decodes(s.nonce);
    u64_le_decodes(s.base_balance);
    u64_le_decodes(s.quote_balance);
    let b = leaf_preimage(s);
    assert(b.subrange(0, 8) =~= u64_le(s.nonce));
    assert(b.subrange(8, 16) =~= u64_le(s.base_balance));
    assert(b.subrange(16, 24) =~= u64_le(s.quote_balance));
}

/// Distinct account states have distinct leaf preimages.
pub proof fn leaf_preimage_injective(a: AccountState, b: AccountState)
    ensures
        leaf_preimage(a) == leaf_preimage(b) ==> a == b,
{
    leaf_preimage_decodes(a);
    leaf_preimage_decodes(b);
}

/// A trade settles exactly when the maker holds at least `amount` base
/// tokens, the taker holds at least `amount * price` quote tokens, and
/// neither that product, nor a credited balance, nor a nonce leaves the
/// `u64` range; the maker then gives `amount` base tokens for
/// `amount * price` quote tokens, the taker the reverse, and both nonces
/// advance by one.
pub proof fn settlement_exactly_when_funded(maker: AccountState, taker: AccountState, amount: u64, price: u64)
    ensures
        can_settle(maker, taker, amount, price) <==> {
            &&& maker.base_balance >= amount
            &&& amount * price <= taker.quote_balance
            &&& amount * price <= u64::MAX
            &&& maker.quote_balance + amount * price <= u64::MAX
            &&& taker.base_balance + amount <= u64::MAX
            &&& maker.nonce < u64::MAX
            &&& taker.nonce < u64::MAX
        },
        can_settle(maker, taker, amount, price) ==> {
            let m = settled_maker(maker, amount, price);
            let t = settled_taker(taker, amount, price);
            &&& m.nonce == maker.nonce + 1
            &&& m.base_balance == maker.base_balance - amount
            &&& m.quote_balance == maker.quote_balance + amount * price
            &&& t.nonce == taker.nonce + 1
            &&& t.base_balance == taker.base_balance + amount
            &&& t.quote_balance == taker.quote_balance - amount * price
        },
{
}

/// The path prefix of `siblings` and `is_left` up to level `n` alone decides
/// the hash reached there.
proof fn lemma_fold_path_prefix(
    leaf: Seq<u8>,
    s1: Seq<Seq<u8>>,
    l1: Seq<bool>,
    s2: Seq<Seq<u8>>,
    l2: Seq<bool>,
    n: nat,
)
    requires
        n <= s1.len(),
        n <= s2.len(),
        n <= l1.len(),
        n <= l2.len(),
        forall|i: int| 0 <= i < n ==> s1[i] == s2[i] && l1[i] == l2[i],
    ensures
        fold_path(leaf, s1, l1, n) == fold_path(leaf, s2, l2, n),
    decreases n,
{
    if n > 0 {
        lemma_fold_path_prefix(leaf, s1, l1, s2, l2, (n - 1) as nat);
    }
}

/// Every level of a path hashes its sibling on the side its flag names: a
/// path one level longer than another with the same leading levels leads to
/// `sha256(sibling ++ r)` when the added sibling is on the left and to
/// `sha256(r ++ sibling)` otherwise, where `r` is the root of the shorter
/// path.
pub proof fn root_of_one_more_level(longer: MerkleProof, shorter: MerkleProof, leaf: Seq<u8>)
    requires
        longer.sibling_hashes@.len() == longer.is_left@.len(),
        longer.sibling_hashes@.len() > 0,
        shorter.sibling_hashes@ == longer.sibling_hashes@.drop_last(),
        shorter.is_left@ == longer.is_left@.drop_last(),
    ensures
        longer.root_from(leaf) == if longer.is_left@.last() {
            sha256(longer.sibling_hashes@.last()@ + shorter.root_from(leaf))
        } else {
            sha256(shorter.root_from(leaf) + longer.sibling_hashes@.last()@)
        },
{
    let n = longer.sibling_hashes@.len();
    assert(longer.depth() == n);
    assert(shorter.depth() == n - 1);
    lemma_fold_path_prefix(
        leaf,
        longer.siblings(),
        longer.is_left@,
        shorter.siblings(),
        shorter.is_left@,
        (n - 1) as nat,
    );
    assert(longer.siblings()[n - 1] == longer.sibling_hashes@.last()@);
}

/// A batch is accepted exactly when it is aligned and not empty, every
/// trade's maker and taker pre-states lead to the previous root, every
/// maker signature verifies, every trade can settle, and the last trade's
/// updated taker leaf leads to the new root: the updated leaves of the
/// earlier trades play no part.
pub proof fn batch_accepted_exactly_when(p: BatchPayload)
    ensures
        valid_transition(p) <==> {
            &&& batch_aligned(p)
            &&& forall|i: int|
                0 <= i < p.trades@.len() ==> {
                    &&& (#[trigger] p.maker_proofs@[i]).root_from(leaf_hash(p.maker_states@[i]))
                        == p.previous_state_root@
                    &&& p.taker_proofs@[i].root_from(leaf_hash(p.taker_states@[i]))
                        == p.previous_state_root@
                    &&& maker_authorized(p.trades@[i]@)
                    &&& can_settle(
                        p.maker_states@[i],
                        p.taker_states@[i],
                        p.trades@[i].amount,
                        p.trades@[i].price,
                    )
                }
            &&& p.taker_proofs@.last().root_from(
                leaf_hash(
                    settled_taker(
                        p.taker_states@.last(),
                        p.trades@.last().amount,
                        p.trades@.last().price,
                    ),
                ),
            ) == p.new_state_root@
        },
{
    let n = p.trades@.len();
    if valid_transition(p) {
        assert(batch_aligned(p));
        assert(trade_valid(p, n - 1));
        assert forall|i: int| 0 <= i < n implies {
            &&& (#[trigger] p.maker_proofs@[i]).root_from(leaf_hash(p.maker_states@[i]))
                == p.previous_state_root@
            &&& p.taker_proofs@[i].root_from(leaf_hash(p.taker_states@[i])) == p.previous_state_root@
            &&& maker_authorized(p.trades@[i]@)
            &&& can_settle(
                p.maker_states@[i],
                p.taker_states@[i],
                p.trades@[i].amount,
                p.trades@[i].price,
            )
        } by {
            assert(trade_valid(p, i));
        }
        assert(p.taker_proofs@.last() == p.taker_proofs@[n - 1]);
        assert(p.taker_states@.last() == p.taker_states@[n - 1]);
        assert(p.trades@.last() == p.trades@[n - 1]);
    }
    if batch_aligned(p) {
        let last_ok = p.taker_proofs@.last().root_from(
            leaf_hash(
                settled_taker(p.taker_states@.last(), p.trades@.last().amount, p.trades@.last().price),
            ),
        ) == p.new_state_root@;
        if last_ok && forall|i: int|
            0 <= i < n ==> {
                &&& (#[trigger] p.maker_proofs@[i]).root_from(leaf_hash(p.maker_states@[i]))
                    == p.previous_state_root@
                &&& p.taker_proofs@[i].root_from(leaf_hash(p.taker_states@[i])) == p.previous_state_root@
                &&& maker_authorized(p.trades@[i]@)
                &&& can_settle(
                    p.maker_states@[i],
                    p.taker_states@[i],
                    p.trades@[i].amount,
                    p.trades@[i].price,
                )
            } {
            assert forall|i: int| 0 <= i < n implies trade_valid(p, i) by {
                assert(p.maker_proofs@[i].root_from(leaf_hash(p.maker_states@[i])) == p.previous_state_root@);
            }
        }
    }
}

} // verus!
