//! Trades: the fills the book produces and the order hash a maker signs.
use vstd::prelude::*;

use crate::codec::{le_value, push_bytes, push_u64_le, u64_le, u64_le_decodes};
use crate::digest::{sha256, sha256_digest};

verus! {

/// One fill between a resting (maker) order and an incoming (taker) order.
#[derive(Clone, Debug)]
pub struct Trade {
    /// Expected to be a 33-byte compressed secp256k1 key.
    pub maker_pubkey: Vec<u8>,
    /// Expected to be a 33-byte compressed secp256k1 key.
    pub taker_pubkey: Vec<u8>,
    /// Base token amount traded.
    pub amount: u64,
    /// Quote tokens per base token.
    pub price: u64,
    /// Expected to be a 64-byte (r, s) ECDSA signature.
    pub maker_signature: Vec<u8>,
}

/// The mathematical content of a [`Trade`].
pub ghost struct TradeView {
    pub maker_pubkey: Seq<u8>,
    pub taker_pubkey: Seq<u8>,
    pub amount: u64,
    pub price: u64,
    pub maker_signature: Seq<u8>,
}

impl View for Trade {
    type V = TradeView;

    open spec fn view(&self) -> TradeView {
        TradeView {
            maker_pubkey: self.maker_pubkey@,
            taker_pubkey: self.taker_pubkey@,
            amount: self.amount,
            price: self.price,
            maker_signature: self.maker_signature@,
        }
    }
}

/// The views of a sequence of trades.
pub open spec fn trades_view(trades: Seq<Trade>) -> Seq<TradeView> {
    trades.map_values(|t: Trade| t@)
}

/// The bytes a maker signs to authorize a trade: both public keys, then the
/// amount and the price, each 8 bytes little-endian.
pub open spec fn order_preimage(t: TradeView) -> Seq<u8> {
    t.maker_pubkey + t.taker_pubkey + u64_le(t.amount) + u64_le(t.price)
}

impl Trade {
    /// The bytes whose digest the maker signs.
    pub fn signed_bytes(&self) -> (r: Vec<u8>)
        ensures
            r@ == order_preimage(self@),
    {
        let mut out: Vec<u8> = Vec::new();
        push_bytes(&mut out, self.maker_pubkey.as_slice());
        push_bytes(&mut out, self.taker_pubkey.as_slice());
        push_u64_le(&mut out, self.amount);
        push_u64_le(&mut out, self.price);
        assert(out@ =~= order_preimage(self@));
        out
    }

    /// The order hash the maker signed to authorize this trade.
    pub fn order_hash(&self) -> (r: [u8; 32])
        ensures
            r@ == sha256(order_preimage(self@)),
    {
        let bytes = self.signed_bytes();
        sha256_digest(bytes.as_slice())
    }
}

/// The signed bytes start with the maker's key, then the taker's key, and
/// end with 16 bytes whose two 8-byte halves decode, little-endian, to the
/// full amount and price.
pub proof fn order_preimage_decodes(t: TradeView)
    ensures
        ({
            let b = order_preimage(t);
            let k: int = (t.maker_pubkey.len() + t.taker_pubkey.len()) as int;
            &&& b.len() == k + 16
            &&& b.subrange(0, t.maker_pubkey.len() as int) == t.maker_pubkey
            &&& b.subrange(t.maker_pubkey.len() as int, k) == t.taker_pubkey
            &&& le_value(b.subrange(k, k + 8)) == t.amount
            &&& le_value(b.subrange(k + 8, k + 16)) == t.price
        }),
{
    u64_le_decodes(t.amount);
    u64_le_decodes(t.price);
    let b = order_preimage(t);
    let m = t.maker_pubkey.len() as int;
    let k: int = (t.maker_pubkey.len() + t.taker_pubkey.len()) as int;
    assert(b.subrange(0, m) =~= t.maker_pubkey);
    assert(b.subrange(m, k) =~= t.taker_pubkey);
    assert(b.subrange(k, k + 8) =~= u64_le(t.amount));
    assert(b.subrange(k + 8, k + 16) =~= u64_le(t.price));
}

} // verus!
