//! The matching engine's order book: a map of live orders and, per side, a
//! price-sorted map of FIFO queues of order ids.
use vstd::prelude::*;
use std::collections::{BTreeMap, HashMap};
use vstd::slice::slice_to_vec;

use crate::book_model::{
    address_bytes, ascending_prices, cancel_result, enqueue, match_pass, place_result, place_trades,
    visit_levels, visit_queue, visiting_order, crosses, BookState, SideView, Walk,
};
use crate::price_levels::{lemma_increasing_unique, sorted_prices, strictly_increasing};
use crate::trade::{trades_view, Trade};

verus! {

/// An order as the matching engine sees it.
#[derive(Debug)]
pub struct Order {
    pub id: u64,
    pub user_address: String,
    pub price: u64,
    pub amount: u64,
    pub is_buy: bool,
    pub timestamp: u64,
}

/// Two orders that agree on every field, the address by its characters.
pub open spec fn same_order(a: Order, b: Order) -> bool {
    &&& a.id == b.id
    &&& a.user_address@ == b.user_address@
    &&& a.price == b.price
    &&& a.amount == b.amount
    &&& a.is_buy == b.is_buy
    &&& a.timestamp == b.timestamp
}

impl Clone for Order {
    fn clone(&self) -> (res: Self)
        ensures
            same_order(res, *self),
    {
        Order {
            id: self.id,
            user_address: self.user_address.clone(),
            price: self.price,
            amount: self.amount,
            is_buy: self.is_buy,
            timestamp: self.timestamp,
        }
    }
}

/// The order book.
pub struct OrderBook {
    /// Live orders by id, for constant-time lookup and cancellation.
    pub orders: HashMap<u64, Order>,
    /// Sell side: price to the queue of resting order ids.
    pub asks: BTreeMap<u64, Vec<u64>>,
    /// Buy side: price to the queue of resting order ids.
    pub bids: BTreeMap<u64, Vec<u64>>,
}

/// The abstract view of one side of the book.
pub open spec fn side_view(side: Map<u64, Vec<u64>>) -> SideView {
    side.map_values(|q: Vec<u64>| q@)
}

impl View for OrderBook {
    type V = BookState;

    open spec fn view(&self) -> BookState {
        BookState { orders: self.orders@, asks: side_view(self.asks@), bids: side_view(self.bids@) }
    }
}

/// The walk state made of the executable pieces that carry it.
pub open spec fn walk_of(orders: Map<u64, Order>, remaining: u64, trades: Seq<Trade>, filled: Seq<u64>) -> Walk {
    Walk { orders, remaining, trades: trades_view(trades), filled }
}

/// `order` with only its amount changed to `amount`.
pub open spec fn with_amount(order: Order, amount: u64) -> Order {
    Order { amount, ..order }
}

/// The prices of `side` in the order an incoming order on the other side
/// visits them.
fn visiting_prices(side: &BTreeMap<u64, Vec<u64>>, incoming_is_buy: bool) -> (r: Vec<u64>)
    ensures
        r@ == visiting_order(side_view(side@), incoming_is_buy),
        r@.no_duplicates(),
        r@.to_set() == side@.dom(),
{
    let up = sorted_prices(side);
    proof {
        assert(side_view(side@).dom() =~= side@.dom());
        lemma_increasing_unique(up@, ascending_prices(side_view(side@)));
        assert(up@.no_duplicates());
    }
    if incoming_is_buy {
        up
    } else {
        let mut down: Vec<u64> = Vec::new();
        let n = up.len();
        let mut i: usize = 0;
        while i < n
            invariant
                n == up@.len(),
                i <= n,
                down@ == up@.reverse().take(i as int),
            decreases n - i,
        {
            down.push(up[n - 1 - i]);
            i = i + 1;
            assert(down@ =~= up@.reverse().take(i as int));
        }
        proof {
            assert(down@ =~= up@.reverse());
            assert(down@.to_set() =~= up@.to_set()) by {
                assert forall|x: u64| down@.contains(x) implies up@.contains(x) by {
                    let k = choose|k: int| 0 <= k < down@.len() && down@[k] == x;
                    assert(up@[n - 1 - k] == x);
                }
                assert forall|x: u64| up@.contains(x) implies down@.contains(x) by {
                    let k = choose|k: int| 0 <= k < up@.len() && up@[k] == x;
                    assert(down@[n - 1 - k] == x);
                }
            }
            assert forall|a: int, b: int| 0 <= a < b < down@.len() implies down@[a] != down@[b] by {
                assert(up@[n - 1 - b] < up@[n - 1 - a]);
            }
        }
        down
    }
}

impl OrderBook {
    /// An empty book.
    pub fn new() -> (book: Self)
        ensures
            book@.orders == Map::<u64, Order>::empty(),
            book@.asks == SideView::empty(),
            book@.bids == SideView::empty(),
    {
        let book = OrderBook { orders: HashMap::new(), asks: BTreeMap::new(), bids: BTreeMap::new() };
        proof {
            assert(side_view(book.asks@) =~= SideView::empty());
            assert(side_view(book.bids@) =~= SideView::empty());
        }
        book
    }

    /// Looks up a live order by id.
    pub fn get_order(&self, id: u64) -> (r: Option<&Order>)
        ensures
            match r {
                Some(o) => self@.orders.contains_key(id) && *o == self@.orders[id],
                None => !self@.orders.contains_key(id),
            },
    {
        self.orders.get(&id)
    }

    /// Cancels a live order, returning it. Its id stays in its price queue
    /// until the next matching pass over that level drops it.
    pub fn cancel_order(&mut self, id: u64) -> (r: Option<Order>)
        ensures
            final(self)@ == cancel_result(old(self)@, id),
            match r {
                Some(o) => old(self)@.orders.contains_key(id) && o == old(self)@.orders[id],
                None => !old(self)@.orders.contains_key(id),
            },
    {
        self.orders.remove(&id)
    }

    /// Visits one price queue on behalf of `order`, returning the ids that
    /// stay in it.
    fn fill_from_queue(
        orders: &mut HashMap<u64, Order>,
        queue: Vec<u64>,
        price: u64,
        order: &mut Order,
        trades: &mut Vec<Trade>,
        filled: &mut Vec<u64>,
    ) -> (kept: Vec<u64>)
        ensures
            ({
                let (w, k) = visit_queue(
                    walk_of(old(orders)@, old(order).amount, old(trades)@, old(filled)@),
                    queue@,
                    price,
                    address_bytes(old(order).user_address@),
                );
                &&& final(orders)@ == w.orders
                &&& final(order).amount == w.remaining
                &&& trades_view(final(trades)@) == w.trades
                &&& final(filled)@ == w.filled
                &&& kept@ == k
            }),
            *final(order) == with_amount(*old(order), final(order).amount),
    {
        let ghost w0 = walk_of(orders@, order.amount, trades@, filled@);
        let ghost taker = address_bytes(order.user_address@);
        let ghost order0 = *order;
        let mut kept: Vec<u64> = Vec::new();
        let n = queue.len();
        let mut i: usize = 0;
        while i < n
            invariant
                n == queue@.len(),
                i <= n,
                taker == address_bytes(order.user_address@),
                *order == with_amount(order0, order.amount),
                ({
                    let (w, k) = visit_queue(w0, queue@.take(i as int), price, taker);
                    &&& orders@ == w.orders
                    &&& order.amount == w.remaining
                    &&& trades_view(trades@) == w.trades
                    &&& filled@ == w.filled
                    &&& kept@ == k
                }),
            decreases n - i,
        {
            let id = queue[i];
            let ghost before = walk_of(orders@, order.amount, trades@, filled@);
            proof {
                assert(queue@.take(i + 1).drop_last() =~= queue@.take(i as int));
                assert(queue@.take(i + 1).last() == id);
            }
            if order.amount == 0 {
                kept.push(id);
            } else {
                match orders.remove(&id) {
                    Some(maker) => {
                        let mut maker = maker;
                        let fill = if order.amount <= maker.amount {
                            order.amount
                        } else {
                            maker.amount
                        };
                        let maker_pubkey = slice_to_vec(maker.user_address.as_str().as_bytes());
                        let taker_pubkey = slice_to_vec(order.user_address.as_str().as_bytes());
                        let trade = Trade {
                            maker_pubkey,
                            taker_pubkey,
                            amount: fill,
                            price,
                            maker_signature: Vec::new(),
                        };
                        let ghost trades_before = trades@;
                        trades.push(trade);
                        proof {
                            assert(trades_view(trades@) =~= trades_view(trades_before).push(trade@));
                        }
                        order.amount = order.amount - fill;
                        maker.amount = maker.amount - fill;
                        let left = maker.amount;
                        orders.insert(id, maker);
                        proof {
                            assert(orders@ =~= before.orders.insert(
                                id,
                                with_amount(before.orders[id], left),
                            ));
                        }
                        if left == 0 {
                            filled.push(id);
                        } else {
                            kept.push(id);
                        }
                    },
                    None => {},
                }
            }
            i = i + 1;
        }
        proof {
            assert(queue@.take(n as int) =~= queue@);
        }
        kept
    }

    /// Visits the levels of one side in the order given by `prices`.
    fn visit_side(
        orders: &mut HashMap<u64, Order>,
        side: &mut BTreeMap<u64, Vec<u64>>,
        prices: &Vec<u64>,
        order: &mut Order,
        trades: &mut Vec<Trade>,
        filled: &mut Vec<u64>,
    )
        requires
            prices@.no_duplicates(),
            prices@.to_set() == old(side)@.dom(),
        ensures
            ({
                let (w, s) = visit_levels(
                    walk_of(old(orders)@, old(order).amount, old(trades)@, old(filled)@),
                    side_view(old(side)@),
                    prices@,
                    old(order).is_buy,
                    old(order).price,
                    address_bytes(old(order).user_address@),
                );
                &&& final(orders)@ == w.orders
                &&& final(order).amount == w.remaining
                &&& trades_view(final(trades)@) == w.trades
                &&& final(filled)@ == w.filled
                &&& side_view(final(side)@) == s
            }),
            *final(order) == with_amount(*old(order), final(order).amount),
    {
        let ghost w0 = walk_of(orders@, order.amount, trades@, filled@);
        let ghost s0 = side_view(side@);
        let ghost taker = address_bytes(order.user_address@);
        let ghost order0 = *order;
        let n = prices.len();
        proof {
            assert forall|j: int| 0 <= j < n implies #[trigger] s0.contains_key(prices@[j]) by {
                assert(prices@.to_set().contains(prices@[j]));
            }
        }
        let mut i: usize = 0;
        while i < n
            invariant
                n == prices@.len(),
                i <= n,
                prices@.no_duplicates(),
                taker == address_bytes(order.user_address@),
                *order == with_amount(order0, order.amount),
                ({
                    let (w, s) = visit_levels(w0, s0, prices@.take(i as int), order0.is_buy, order0.price, taker);
                    &&& orders@ == w.orders
                    &&& order.amount == w.remaining
                    &&& trades_view(trades@) == w.trades
                    &&& filled@ == w.filled
                    &&& side_view(side@) == s
                    &&& forall|j: int|
                        i <= j < n ==> #[trigger] s.contains_key(prices@[j]) && s[prices@[j]]
                            == s0[prices@[j]]
                }),
            decreases n - i,
        {
            let p = prices[i];
            let ghost side_before = side@;
            let ghost prev = visit_levels(w0, s0, prices@.take(i as int), order0.is_buy, order0.price, taker);
            proof {
                assert(prices@.take(i + 1).drop_last() =~= prices@.take(i as int));
                assert(prices@.take(i + 1).last() == p);
            }
            let crosses_limit = if order.is_buy {
                p <= order.price
            } else {
                p >= order.price
            };
            if order.amount > 0 && crosses_limit {
                proof {
                    assert(prev.1.contains_key(p));
                    assert(side_before.dom().contains(p));
                }
                match side.remove(&p) {
                    Some(queue) => {
                        assert(queue@ == side_view(side_before)[p]);
                        let kept = Self::fill_from_queue(orders, queue, p, order, trades, filled);
                        proof {
                            let (w, s) = visit_levels(w0, s0, prices@.take(i + 1), order0.is_buy, order0.price, taker);
                            assert(prev.0.remaining != 0);
                            assert(crosses(order0.is_buy, order0.price, p));
                            assert(orders@ == w.orders);
                        }
                        if kept.len() > 0 {
                            side.insert(p, kept);
                            proof {
                                assert(side_view(side@) =~= side_view(side_before).insert(p, kept@));
                            }
                        } else {
                            proof {
                                assert(side_view(side@) =~= side_view(side_before).remove(p));
                            }
                        }
                    },
                    None => {
                        assert(false);
                    },
                }
            } else {
                proof {
                    let (w, s) = visit_levels(w0, s0, prices@.take(i + 1), order0.is_buy, order0.price, taker);
                    assert(orders@ == prev.0.orders);
                    assert(w == prev.0);
                    assert(orders@ == w.orders);
                }
            }
            proof {
                let (w, s) = visit_levels(w0, s0, prices@.take(i + 1), order0.is_buy, order0.price, taker);
                assert forall|j: int| i + 1 <= j < n implies #[trigger] s.contains_key(prices@[j])
                    && s[prices@[j]] == s0[prices@[j]] by {
                    assert(prev.1.contains_key(prices@[j]));
                    assert(prices@[j] != p);
                }
                assert(orders@ == w.orders);
                assert(order.amount == w.remaining);
                assert(trades_view(trades@) == w.trades);
                assert(filled@ == w.filled);
                assert(side_view(side@) == s);
                assert({
                    let (w, s) = visit_levels(w0, s0, prices@.take((i + 1) as int), order0.is_buy, order0.price, taker);
                    &&& orders@ == w.orders
                    &&& order.amount == w.remaining
                    &&& trades_view(trades@) == w.trades
                    &&& filled@ == w.filled
                    &&& side_view(side@) == s
                    &&& forall|j: int|
                        i + 1 <= j < n ==> #[trigger] s.contains_key(prices@[j]) && s[prices@[j]]
                            == s0[prices@[j]]
                });
            }
            i = i + 1;
        }
        proof {
            assert(prices@.take(n as int) =~= prices@);
        }
    }

    /// Removes every id of `ids` from the orders map.
    fn remove_all(orders: &mut HashMap<u64, Order>, ids: &Vec<u64>)
        ensures
            final(orders)@ == old(orders)@.remove_keys(ids@.to_set()),
    {
        let ghost start = orders@;
        let n = ids.len();
        let mut k: usize = 0;
        while k < n
            invariant
                n == ids@.len(),
                k <= n,
                orders@ == start.remove_keys(ids@.take(k as int).to_set()),
            decreases n - k,
        {
            orders.remove(&ids[k]);
            proof {
                assert(ids@.take(k + 1) =~= ids@.take(k as int).push(ids@[k as int]));
                assert(ids@.take(k + 1).to_set() =~= ids@.take(k as int).to_set().insert(ids@[k as int])) by {
                    assert forall|x: u64| ids@.take(k + 1).to_set().contains(x) implies ids@.take(k as int).to_set().insert(ids@[k as int]).contains(x) by {
                        let t = choose|t: int| 0 <= t < k + 1 && #[trigger] ids@.take(k + 1)[t] == x;
                        if t < k {
                            assert(ids@.take(k as int)[t] == x);
                        }
                    }
                    assert forall|x: u64| ids@.take(k as int).to_set().insert(ids@[k as int]).contains(x) implies ids@.take(k + 1).to_set().contains(x) by {
                        if x != ids@[k as int] {
                            let t = choose|t: int| 0 <= t < k && #[trigger] ids@.take(k as int)[t] == x;
                            assert(ids@.take(k + 1)[t] == x);
                        } else {
                            assert(ids@.take(k + 1)[k as int] == x);
                        }
                    }
                }
                assert(orders@ =~= start.remove_keys(ids@.take(k + 1).to_set()));
            }
            k = k + 1;
        }
        proof {
            assert(ids@.take(n as int) =~= ids@);
        }
    }

    /// Matches a buy order against the asks, lowest price first.
    fn match_buy(&mut self, order: &mut Order) -> (trades: Vec<Trade>)
        requires
            old(order).is_buy,
        ensures
            ({
                let (w, asks) = match_pass(old(self)@, *old(order));
                &&& final(self)@.orders == w.orders.remove_keys(w.filled.to_set())
                &&& final(self)@.asks == asks
                &&& final(self)@.bids == old(self)@.bids
                &&& final(order).amount == w.remaining
                &&& trades_view(trades@) == w.trades
            }),
            *final(order) == with_amount(*old(order), final(order).amount),
    {
        let prices = visiting_prices(&self.asks, true);
        let mut trades: Vec<Trade> = Vec::new();
        let mut filled: Vec<u64> = Vec::new();
        proof {
            assert(trades_view(trades@) =~= Seq::empty());
        }
        Self::visit_side(&mut self.orders, &mut self.asks, &prices, order, &mut trades, &mut filled);
        Self::remove_all(&mut self.orders, &filled);
        trades
    }

    /// Matches a sell order against the bids, highest price first.
    fn match_sell(&mut self, order: &mut Order) -> (trades: Vec<Trade>)
        requires
            !old(order).is_buy,
        ensures
            ({
                let (w, bids) = match_pass(old(self)@, *old(order));
                &&& final(self)@.orders == w.orders.remove_keys(w.filled.to_set())
                &&& final(self)@.bids == bids
                &&& final(self)@.asks == old(self)@.asks
                &&& final(order).amount == w.remaining
                &&& trades_view(trades@) == w.trades
            }),
            *final(order) == with_amount(*old(order), final(order).amount),
    {
        let prices = visiting_prices(&self.bids, false);
        let mut trades: Vec<Trade> = Vec::new();
        let mut filled: Vec<u64> = Vec::new();
        proof {
            assert(trades_view(trades@) =~= Seq::empty());
        }
        Self::visit_side(&mut self.orders, &mut self.bids, &prices, order, &mut trades, &mut filled);
        Self::remove_all(&mut self.orders, &filled);
        trades
    }

    /// Appends `id` to the queue at `price` of one side.
    fn enqueue_id(side: &mut BTreeMap<u64, Vec<u64>>, price: u64, id: u64)
        ensures
            side_view(final(side)@) == enqueue(side_view(old(side)@), price, id),
    {
        let ghost before = side_view(side@);
        match side.remove(&price) {
            Some(queue) => {
                let mut queue = queue;
                queue.push(id);
                side.insert(price, queue);
                proof {
                    assert(side_view(side@) =~= before.insert(price, before[price].push(id)));
                }
            },
            None => {
                let mut queue: Vec<u64> = Vec::new();
                queue.push(id);
                side.insert(price, queue);
                proof {
                    assert(queue@ =~= seq![id]);
                    assert(side_view(side@) =~= before.insert(price, seq![id]));
                }
            },
        }
    }

    /// Rests a buy order on the bids.
    fn add_bid(&mut self, order: Order)
        ensures
            final(self)@ == (BookState {
                orders: old(self)@.orders.insert(order.id, order),
                asks: old(self)@.asks,
                bids: enqueue(old(self)@.bids, order.price, order.id),
            }),
    {
        let price = order.price;
        let id = order.id;
        self.orders.insert(id, order);
        Self::enqueue_id(&mut self.bids, price, id);
    }

    /// Rests a sell order on the asks.
    fn add_ask(&mut self, order: Order)
        ensures
            final(self)@ == (BookState {
                orders: old(self)@.orders.insert(order.id, order),
                asks: enqueue(old(self)@.asks, order.price, order.id),
                bids: old(self)@.bids,
            }),
    {
        let price = order.price;
        let id = order.id;
        self.orders.insert(id, order);
        Self::enqueue_id(&mut self.asks, price, id);
    }

    /// Places an order: matches it against the opposite side under
    /// price-time priority, rests any unfilled remainder on its own side,
    /// and returns every fill in the order it happened.
    pub fn place_order(&mut self, order: Order) -> (trades: Vec<Trade>)
        ensures
            final(self)@ == place_result(old(self)@, order),
            trades_view(trades@) == place_trades(old(self)@, order),
    {
        let mut order = order;
        if order.is_buy {
            let t = self.match_buy(&mut order);
            if order.amount > 0 {
                self.add_bid(order);
            }
            t
        } else {
            let t = self.match_sell(&mut order);
            if order.amount > 0 {
                self.add_ask(order);
            }
            t
        }
    }
}

} // verus!
