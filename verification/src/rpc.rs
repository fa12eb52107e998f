//! What the WebSocket front end hands the engine: a client's order request
//! and the order built from it.
use vstd::prelude::*;

use crate::orderbook::Order;

verus! {

/// The order request a client sends.
#[derive(Debug)]
pub struct RawOrderPayload {
    pub user_address: String,
    pub price: u64,
    pub amount: u64,
    pub is_buy: bool,
    /// EIP-712 signature over the request, hex encoded.
    pub signature: String,
}

impl RawOrderPayload {
    /// The engine order for this request, under the sequencer-assigned `id`
    /// and arrival `timestamp` (seconds since the Unix epoch).
    pub fn into_order(self, id: u64, timestamp: u64) -> (o: Order)
        ensures
            o.id == id,
            o.user_address == self.user_address,
            o.price == self.price,
            o.amount == self.amount,
            o.is_buy == self.is_buy,
            o.timestamp == timestamp,
    {
        Order {
            id,
            user_address: self.user_address,
            price: self.price,
            amount: self.amount,
            is_buy: self.is_buy,
            timestamp,
        }
    }
}

} // verus!
