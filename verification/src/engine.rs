//! The single-threaded engine step: one request against the book, and the
//! buffering of fills into batches for proving.
use vstd::prelude::*;

use crate::book_model::{cancel_result, place_result, place_trades};
use crate::orderbook::{same_order, Order, OrderBook};
use crate::rollup::{AccountState, BatchPayload, MerkleProof};
use crate::trade::{trades_view, Trade, TradeView};

verus! {

/// Number of fills to accumulate before a batch is dispatched for proving.
pub const BATCH_SIZE: usize = 10;

/// A request to the engine.
pub enum EngineMessage {
    PlaceOrder(Order),
    CancelOrder { id: u64 },
    GetOrder { id: u64 },
}

/// The engine's answer to one request.
pub enum EngineReply {
    /// The order was placed; `fills` fills happened, and `batch` holds the
    /// batch to prove when the buffer reached the threshold.
    Placed { fills: usize, batch: Option<BatchPayload> },
    /// Whether the cancelled order was live.
    Cancelled(bool),
    /// A copy of the requested order, if live.
    Found(Option<Order>),
}

/// The engine's state: the book and the fills not yet batched.
pub struct Engine {
    pub book: OrderBook,
    pub trade_buffer: Vec<Trade>,
}

/// The all-zero account state that stands in for state not yet tracked.
pub open spec fn blank_account() -> AccountState {
    AccountState { nonce: 0, base_balance: 0, quote_balance: 0 }
}

/// Whether `b` is the batch dispatched for `trades` while account state is
/// not yet tracked: zero roots, one all-zero maker and taker state and one
/// empty proof per trade.
pub open spec fn is_placeholder_batch(b: BatchPayload, trades: Seq<TradeView>) -> bool {
    let n = trades.len();
    &&& b.previous_state_root@ == Seq::new(32, |i: int| 0u8)
    &&& b.new_state_root@ == Seq::new(32, |i: int| 0u8)
    &&& trades_view(b.trades@) == trades
    &&& b.maker_states@ == Seq::new(n, |i: int| blank_account())
    &&& b.taker_states@ == Seq::new(n, |i: int| blank_account())
    &&& b.maker_proofs@.len() == n
    &&& b.taker_proofs@.len() == n
    &&& forall|i: int|
        0 <= i < n ==> #[trigger] b.maker_proofs@[i].sibling_hashes@.len() == 0
            && b.maker_proofs@[i].is_left@.len() == 0
    &&& forall|i: int|
        0 <= i < n ==> #[trigger] b.taker_proofs@[i].sibling_hashes@.len() == 0
            && b.taker_proofs@[i].is_left@.len() == 0
}

/// A proof with no levels.
fn empty_proof() -> (p: MerkleProof)
    ensures
        p.sibling_hashes@.len() == 0,
        p.is_left@.len() == 0,
{
    MerkleProof { sibling_hashes: Vec::new(), is_left: Vec::new() }
}

/// The batch for `trades`, with placeholder states and proofs.
pub fn placeholder_batch(trades: Vec<Trade>) -> (b: BatchPayload)
    ensures
        is_placeholder_batch(b, trades_view(trades@)),
{
    let n = trades.len();
    let ghost trades_ghost = trades@;
    let blank = AccountState { nonce: 0, base_balance: 0, quote_balance: 0 };
    let mut maker_states: Vec<AccountState> = Vec::new();
    let mut taker_states: Vec<AccountState> = Vec::new();
    let mut maker_proofs: Vec<MerkleProof> = Vec::new();
    let mut taker_proofs: Vec<MerkleProof> = Vec::new();
    let mut i: usize = 0;
    while i < n
        invariant
            i <= n,
            blank == blank_account(),
            n == trades@.len(),
            maker_states@ == Seq::new(i as nat, |k: int| blank_account()),
            taker_states@ == Seq::new(i as nat, |k: int| blank_account()),
            maker_proofs@.len() == i,
            taker_proofs@.len() == i,
            forall|k: int|
                0 <= k < i ==> #[trigger] maker_proofs@[k].sibling_hashes@.len() == 0
                    && maker_proofs@[k].is_left@.len() == 0,
            forall|k: int|
                0 <= k < i ==> #[trigger] taker_proofs@[k].sibling_hashes@.len() == 0
                    && taker_proofs@[k].is_left@.len() == 0,
        decreases n - i,
    {
        maker_states.push(blank);
        taker_states.push(blank);
        maker_proofs.push(empty_proof());
        taker_proofs.push(empty_proof());
        i = i + 1;
        assert(maker_states@ =~= Seq::new(i as nat, |k: int| blank_account()));
        assert(taker_states@ =~= Seq::new(i as nat, |k: int| blank_account()));
    }
    let b = BatchPayload {
        previous_state_root: [0u8; 32],
        new_state_root: [0u8; 32],
        trades,
        maker_states,
        maker_proofs,
        taker_states,
        taker_proofs,
    };
    assert(b.previous_state_root@ =~= Seq::new(32, |i: int| 0u8));
    assert(b.new_state_root@ =~= Seq::new(32, |i: int| 0u8));
    assert(trades_view(b.trades@) == trades_view(trades_ghost));
    assert(b.maker_states@ == Seq::new(n as nat, |k: int| blank_account()));
    assert(b.maker_proofs@.len() == n);
    b
}

impl Engine {
    /// A fresh engine: an empty book and no buffered fills.
    pub fn new() -> (e: Self)
        ensures
            e.book@.orders == Map::<u64, Order>::empty(),
            e.book@.asks == Map::<u64, Seq<u64>>::empty(),
            e.book@.bids == Map::<u64, Seq<u64>>::empty(),
            e.trade_buffer@.len() == 0,
    {
        Engine { book: OrderBook::new(), trade_buffer: Vec::new() }
    }

    /// Handles one request: places, cancels or looks up an order. After a
    /// placement the fills join the buffer; once it holds at least
    /// [`BATCH_SIZE`] fills it is emptied into a batch for proving.
    pub fn handle(&mut self, msg: EngineMessage) -> (reply: EngineReply)
        ensures
            old(self).trade_buffer@.len() < BATCH_SIZE ==> final(self).trade_buffer@.len() < BATCH_SIZE,
            match msg {
                EngineMessage::PlaceOrder(o) => {
                    let fills = place_trades(old(self).book@, o);
                    let buffered = trades_view(old(self).trade_buffer@) + fills;
                    &&& final(self).book@ == place_result(old(self).book@, o)
                    &&& reply matches EngineReply::Placed { fills: k, batch } && {
                        &&& k == fills.len()
                        &&& if buffered.len() >= BATCH_SIZE {
                            &&& batch matches Some(b) && is_placeholder_batch(b, buffered)
                            &&& final(self).trade_buffer@.len() == 0
                        } else {
                            &&& batch is None
                            &&& trades_view(final(self).trade_buffer@) == buffered
                        }
                    }
                },
                EngineMessage::CancelOrder { id } => {
                    &&& final(self).book@ == cancel_result(old(self).book@, id)
                    &&& reply == EngineReply::Cancelled(old(self).book@.orders.contains_key(id))
                    &&& final(self).trade_buffer == old(self).trade_buffer
                },
                EngineMessage::GetOrder { id } => {
                    &&& final(self).book == old(self).book
                    &&& final(self).trade_buffer == old(self).trade_buffer
                    &&& reply matches EngineReply::Found(r) && match r {
                        Some(o) => old(self).book@.orders.contains_key(id) && same_order(
                            o,
                            old(self).book@.orders[id],
                        ),
                        None => !old(self).book@.orders.contains_key(id),
                    }
                },
            },
    {
        match msg {
            EngineMessage::PlaceOrder(order) => {
                let mut fills = self.book.place_order(order);
                let k = fills.len();
                let ghost before = self.trade_buffer@;
                let ghost fills_seq = fills@;
                self.trade_buffer.append(&mut fills);
                proof {
                    assert(trades_view(self.trade_buffer@) =~= trades_view(before) + trades_view(
                        fills_seq,
                    ));
                }
                if self.trade_buffer.len() >= BATCH_SIZE {
                    let mut batch_trades: Vec<Trade> = Vec::new();
                    std::mem::swap(&mut batch_trades, &mut self.trade_buffer);
                    let batch = placeholder_batch(batch_trades);
                    EngineReply::Placed { fills: k, batch: Some(batch) }
                } else {
                    EngineReply::Placed { fills: k, batch: None }
                }
            },
            EngineMessage::CancelOrder { id } => {
                let was_found = self.book.cancel_order(id).is_some();
                EngineReply::Cancelled(was_found)
            },
            EngineMessage::GetOrder { id } => {
                let found = match self.book.get_order(id) {
                    Some(o) => Some(o.clone()),
                    None => None,
                };
                EngineReply::Found(found)
            },
        }
    }
}

} // verus!
