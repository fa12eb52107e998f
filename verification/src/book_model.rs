//! The mathematical model of the order book and of price-time priority
//! matching, against which the executable book is proved.
use vstd::prelude::*;
use vstd::utf8::encode_utf8;

use crate::orderbook::Order;
use crate::price_levels::strictly_increasing;
use crate::trade::TradeView;

verus! {

/// One side of the book: for each price level, the queue of order ids in
/// arrival order (front first).
pub type SideView = Map<u64, Seq<u64>>;

/// The abstract state of an order book.
pub ghost struct BookState {
    /// Every live order, by id.
    pub orders: Map<u64, Order>,
    /// Sell side, keyed by price.
    pub asks: SideView,
    /// Buy side, keyed by price.
    pub bids: SideView,
}

/// The prices of a side, lowest first.
pub open spec fn ascending_prices(side: SideView) -> Seq<u64> {
    choose|s: Seq<u64>| strictly_increasing(s) && s.to_set() == side.dom()
}

/// The order in which an incoming order visits the opposite side: a buy
/// walks the asks from the lowest price up, a sell walks the bids from the
/// highest price down.
pub open spec fn visiting_order(side: SideView, incoming_is_buy: bool) -> Seq<u64> {
    if incoming_is_buy {
        ascending_prices(side)
    } else {
        ascending_prices(side).reverse()
    }
}

/// Whether a resting level at `level` can trade with an incoming order
/// whose limit price is `limit`.
pub open spec fn crosses(incoming_is_buy: bool, limit: u64, level: u64) -> bool {
    if incoming_is_buy {
        level <= limit
    } else {
        level >= limit
    }
}

/// The state carried through one matching pass.
pub ghost struct Walk {
    /// The orders map, with resting amounts reduced by the fills so far.
    pub orders: Map<u64, Order>,
    /// What is left of the incoming order.
    pub remaining: u64,
    /// The fills so far, in order.
    pub trades: Seq<TradeView>,
    /// Ids of resting orders that reached zero, in order.
    pub filled: Seq<u64>,
}

/// The smaller of two amounts.
pub open spec fn min_amount(a: u64, b: u64) -> u64 {
    if a <= b {
        a
    } else {
        b
    }
}

/// The bytes that identify an account in a trade: the UTF-8 encoding of
/// its address.
pub open spec fn address_bytes(addr: Seq<char>) -> Seq<u8> {
    encode_utf8(addr)
}

/// Visiting one queue entry: returns the new walk state and whether the
/// entry stays in its queue.
/// With nothing left to fill the entry stays untouched; an id whose order is
/// gone (cancelled) is dropped; otherwise the resting order fills as much as
/// it can at the level price, and leaves the queue once it reaches zero.
pub open spec fn visit_entry(w: Walk, id: u64, price: u64, taker: Seq<u8>) -> (Walk, bool) {
    if w.remaining == 0 {
        (w, true)
    } else if w.orders.contains_key(id) {
        let maker = w.orders[id];
        let fill = min_amount(w.remaining, maker.amount);
        let left = (maker.amount - fill) as u64;
        let trade = TradeView {
            maker_pubkey: address_bytes(maker.user_address@),
            taker_pubkey: taker,
            amount: fill,
            price: price,
            maker_signature: Seq::empty(),
        };
        let w2 = Walk {
            orders: w.orders.insert(id, Order { amount: left, ..maker }),
            remaining: (w.remaining - fill) as u64,
            trades: w.trades.push(trade),
            filled: if left == 0 {
                w.filled.push(id)
            } else {
                w.filled
            },
        };
        (w2, left != 0)
    } else {
        (w, false)
    }
}

/// Visiting a queue front to back: the walk state afterwards and the ids
/// that stay in the queue, in their order.
pub open spec fn visit_queue(w: Walk, queue: Seq<u64>, price: u64, taker: Seq<u8>) -> (
    Walk,
    Seq<u64>,
)
    decreases queue.len(),
{
    if queue.len() == 0 {
        (w, Seq::empty())
    } else {
        let (w1, kept) = visit_queue(w, queue.drop_last(), price, taker);
        let (w2, keep) = visit_entry(w1, queue.last(), price, taker);
        (
            w2,
            if keep {
                kept.push(queue.last())
            } else {
                kept
            },
        )
    }
}

/// Visiting price levels in the given order. A level is matched only while
/// something is left of the incoming order and the level crosses its limit;
/// a level whose queue empties is removed from the side.
pub open spec fn visit_levels(
    w: Walk,
    side: SideView,
    prices: Seq<u64>,
    incoming_is_buy: bool,
    limit: u64,
    taker: Seq<u8>,
) -> (Walk, SideView)
    decreases prices.len(),
{
    if prices.len() == 0 {
        (w, side)
    } else {
        let (w1, s1) = visit_levels(w, side, prices.drop_last(), incoming_is_buy, limit, taker);
        let p = prices.last();
        if w1.remaining == 0 || !crosses(incoming_is_buy, limit, p) {
            (w1, s1)
        } else {
            let (w2, kept) = visit_queue(w1, s1[p], p, taker);
            (
                w2,
                if kept.len() == 0 {
                    s1.remove(p)
                } else {
                    s1.insert(p, kept)
                },
            )
        }
    }
}

/// A side with `id` appended to the queue at `price`.
pub open spec fn enqueue(side: SideView, price: u64, id: u64) -> SideView {
    if side.contains_key(price) {
        side.insert(price, side[price].push(id))
    } else {
        side.insert(price, seq![id])
    }
}

/// The matching pass of `order` against the opposite side of `book`.
pub open spec fn match_pass(book: BookState, order: Order) -> (Walk, SideView) {
    let start = Walk {
        orders: book.orders,
        remaining: order.amount,
        trades: Seq::empty(),
        filled: Seq::empty(),
    };
    let opposite = if order.is_buy {
        book.asks
    } else {
        book.bids
    };
    visit_levels(
        start,
        opposite,
        visiting_order(opposite, order.is_buy),
        order.is_buy,
        order.price,
        address_bytes(order.user_address@),
    )
}

/// The book after `order` is placed: the opposite side as the matching pass
/// left it, fully filled resting orders removed, and the unfilled remainder
/// (if any) queued at its own price on its own side.
pub open spec fn place_result(book: BookState, order: Order) -> BookState {
    let (w, opposite) = match_pass(book, order);
    let orders = w.orders.remove_keys(w.filled.to_set());
    let rests = w.remaining > 0;
    let orders = if rests {
        orders.insert(order.id, Order { amount: w.remaining, ..order })
    } else {
        orders
    };
    if order.is_buy {
        BookState {
            orders,
            asks: opposite,
            bids: if rests {
                enqueue(book.bids, order.price, order.id)
            } else {
                book.bids
            },
        }
    } else {
        BookState {
            orders,
            asks: if rests {
                enqueue(book.asks, order.price, order.id)
            } else {
                book.asks
            },
            bids: opposite,
        }
    }
}

/// The fills produced by placing `order`, in the order they happened.
pub open spec fn place_trades(book: BookState, order: Order) -> Seq<TradeView> {
    match_pass(book, order).0.trades
}

/// The book after cancelling `id`: the order leaves the orders map, while
/// its id stays in its queue until a matching pass drops it.
pub open spec fn cancel_result(book: BookState, id: u64) -> BookState {
    BookState { orders: book.orders.remove(id), ..book }
}

} // verus!
