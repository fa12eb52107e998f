//! Properties of placing and cancelling orders, proved over the book model.
use vstd::prelude::*;

use crate::book_model::{
    address_bytes, ascending_prices, cancel_result, crosses, enqueue, match_pass, place_result,
    place_trades, visit_entry, visit_levels, visit_queue, visiting_order, BookState, SideView,
    Walk,
};
use crate::orderbook::{side_view, with_amount, Order, OrderBook};
use crate::price_levels::strictly_increasing;
use crate::trade::TradeView;

verus! {

/// The total base amount of a sequence of fills.
pub open spec fn total_amount(ts: Seq<TradeView>) -> nat
    decreases ts.len(),
{
    if ts.len() == 0 {
        0
    } else {
        total_amount(ts.drop_last()) + (ts.last().amount as nat)
    }
}

/// Whether price `a` is visited no later than price `b` by an incoming order
/// (a buy visits lower ask prices first, a sell higher bid prices first).
pub open spec fn visited_no_later(incoming_is_buy: bool, a: u64, b: u64) -> bool {
    if incoming_is_buy {
        a <= b
    } else {
        a >= b
    }
}

/// Every order of `after` was in `before`, unchanged but for an amount that
/// did not grow, and no order disappeared.
pub open spec fn amounts_only_shrink(before: Map<u64, Order>, after: Map<u64, Order>) -> bool {
    &&& forall|id: u64| #[trigger] after.contains_key(id) <==> before.contains_key(id)
    &&& forall|id: u64|
        #[trigger] after.contains_key(id) ==> after[id] == with_amount(before[id], after[id].amount)
            && after[id].amount <= before[id].amount
}

/// Every order in the walk whose amount reached zero is listed as filled.
pub open spec fn zeros_are_filled(w: Walk) -> bool {
    forall|id: u64| #[trigger] w.orders.contains_key(id) && w.orders[id].amount == 0 ==> w.filled.contains(id)
}

/// What one part of a matching pass keeps, from state `w` to `w2`: the
/// remaining amount only shrinks and the total filled grows by as much,
/// earlier fills stay, every new fill satisfies `price_ok` and names the
/// taker with no signature, resting amounts only shrink, and filled ids
/// stay listed.
pub open spec fn walk_extends(w: Walk, w2: Walk, taker: Seq<u8>, price_ok: spec_fn(u64) -> bool) -> bool {
    &&& w2.remaining <= w.remaining
    &&& w2.remaining + total_amount(w2.trades) == w.remaining + total_amount(w.trades)
    &&& w.trades.len() <= w2.trades.len()
    &&& w2.trades.take(w.trades.len() as int) == w.trades
    &&& forall|k: int|
        w.trades.len() <= k < w2.trades.len() ==> {
            &&& price_ok(#[trigger] w2.trades[k].price)
            &&& w2.trades[k].taker_pubkey == taker
            &&& w2.trades[k].maker_signature == Seq::<u8>::empty()
        }
    &&& amounts_only_shrink(w.orders, w2.orders)
    &&& forall|id: u64| w.filled.contains(id) ==> #[trigger] w2.filled.contains(id)
    &&& zeros_are_filled(w) ==> zeros_are_filled(w2)
}

pub(crate) proof fn lemma_total_push(ts: Seq<TradeView>, t: TradeView)
    ensures
        total_amount(ts.push(t)) == total_amount(ts) + t.amount,
{
    assert(ts.push(t).drop_last() =~= ts);
}

pub(crate) proof fn lemma_walk_extends_refl(w: Walk, taker: Seq<u8>, price_ok: spec_fn(u64) -> bool)
    ensures
        walk_extends(w, w, taker, price_ok),
{
    assert(w.trades.take(w.trades.len() as int) =~= w.trades);
}

pub(crate) proof fn lemma_walk_extends_trans(
    w1: Walk,
    w2: Walk,
    w3: Walk,
    taker: Seq<u8>,
    price_ok: spec_fn(u64) -> bool,
)
    requires
        walk_extends(w1, w2, taker, price_ok),
        walk_extends(w2, w3, taker, price_ok),
    ensures
        walk_extends(w1, w3, taker, price_ok),
{
    assert(w3.trades.take(w1.trades.len() as int) =~= w3.trades.take(w2.trades.len() as int).take(
        w1.trades.len() as int,
    ));
    assert forall|k: int| w1.trades.len() <= k < w3.trades.len() implies {
        &&& price_ok(#[trigger] w3.trades[k].price)
        &&& w3.trades[k].taker_pubkey == taker
        &&& w3.trades[k].maker_signature == Seq::<u8>::empty()
    } by {
        if k < w2.trades.len() {
            assert(w3.trades[k] == w3.trades.take(w2.trades.len() as int)[k]);
        }
    }
    assert forall|id: u64| #[trigger] w3.orders.contains_key(id) implies w3.orders[id] == with_amount(
        w1.orders[id],
        w3.orders[id].amount,
    ) && w3.orders[id].amount <= w1.orders[id].amount by {
        assert(w2.orders.contains_key(id));
    }
    assert(amounts_only_shrink(w1.orders, w3.orders));
    assert forall|id: u64| w1.filled.contains(id) implies #[trigger] w3.filled.contains(id) by {
        assert(w2.filled.contains(id));
    }
    assert(w3.remaining + total_amount(w3.trades) == w1.remaining + total_amount(w1.trades));
}

proof fn lemma_walk_extends_weaken(
    w: Walk,
    w2: Walk,
    taker: Seq<u8>,
    p1: spec_fn(u64) -> bool,
    p2: spec_fn(u64) -> bool,
)
    requires
        walk_extends(w, w2, taker, p1),
        forall|x: u64| #[trigger] p1(x) ==> p2(x),
    ensures
        walk_extends(w, w2, taker, p2),
{
    assert forall|k: int| w.trades.len() <= k < w2.trades.len() implies {
        &&& p2(#[trigger] w2.trades[k].price)
        &&& w2.trades[k].taker_pubkey == taker
        &&& w2.trades[k].maker_signature == Seq::<u8>::empty()
    } by {
        assert(p1(w2.trades[k].price));
    }
}

/// Visiting one entry extends the walk with fills at the level price, and
/// the entry stays only if nothing is left to fill.
pub(crate) proof fn lemma_visit_entry(w: Walk, id: u64, price: u64, taker: Seq<u8>)
    ensures
        walk_extends(w, visit_entry(w, id, price, taker).0, taker, |p: u64| p == price),
        visit_entry(w, id, price, taker).1 ==> visit_entry(w, id, price, taker).0.remaining == 0,
{
    let (w2, keep) = visit_entry(w, id, price, taker);
    if w.remaining == 0 {
        lemma_walk_extends_refl(w, taker, |p: u64| p == price);
    } else if w.orders.contains_key(id) {
        let maker = w.orders[id];
        let fill = if w.remaining <= maker.amount {
            w.remaining
        } else {
            maker.amount
        };
        let t = w2.trades.last();
        lemma_total_push(w.trades, t);
        assert(w2.trades.take(w.trades.len() as int) =~= w.trades);
        assert forall|x: u64| #[trigger] w2.orders.contains_key(x) implies w2.orders[x] == with_amount(
            w.orders[x],
            w2.orders[x].amount,
        ) && w2.orders[x].amount <= w.orders[x].amount by {
            if x == id {
                assert(w2.orders[x] == with_amount(maker, (maker.amount - fill) as u64));
            }
        }
        assert forall|x: u64| w.filled.contains(x) implies #[trigger] w2.filled.contains(x) by {
            if w2.filled != w.filled {
                let k = choose|k: int| 0 <= k < w.filled.len() && w.filled[k] == x;
                assert(w2.filled[k] == x);
            }
        }
        if zeros_are_filled(w) {
            assert forall|x: u64| #[trigger] w2.orders.contains_key(x) && w2.orders[x].amount == 0 implies w2.filled.contains(
                x,
            ) by {
                if x == id {
                    assert(w2.filled.last() == id);
                } else {
                    assert(w.filled.contains(x));
                }
            }
        }
    } else {
        lemma_walk_extends_refl(w, taker, |p: u64| p == price);
    }
}

/// Visiting a queue extends the walk with fills at the level price, and
/// keeps entries only if nothing is left to fill.
pub(crate) proof fn lemma_visit_queue(w: Walk, queue: Seq<u64>, price: u64, taker: Seq<u8>)
    ensures
        walk_extends(w, visit_queue(w, queue, price, taker).0, taker, |p: u64| p == price),
        visit_queue(w, queue, price, taker).1.len() > 0 ==> visit_queue(
            w,
            queue,
            price,
            taker,
        ).0.remaining == 0,
    decreases queue.len(),
{
    if queue.len() == 0 {
        lemma_walk_extends_refl(w, taker, |p: u64| p == price);
    } else {
        let (w1, kept) = visit_queue(w, queue.drop_last(), price, taker);
        lemma_visit_queue(w, queue.drop_last(), price, taker);
        lemma_visit_entry(w1, queue.last(), price, taker);
        let (w2, keep) = visit_entry(w1, queue.last(), price, taker);
        lemma_walk_extends_trans(w, w1, w2, taker, |p: u64| p == price);
        if kept.len() > 0 {
            assert(w1.remaining == 0);
        }
    }
}

/// The predicate on fill prices of a whole matching pass: the price is one
/// of the visited levels and crosses the limit.
pub open spec fn level_price_ok(prices: Seq<u64>, incoming_is_buy: bool, limit: u64) -> spec_fn(u64) -> bool {
    |p: u64| prices.contains(p) && crosses(incoming_is_buy, limit, p)
}

/// Visiting levels extends the walk with fills at visited crossing levels;
/// levels that do not cross are left as they were, no level appears, and if
/// something is left to fill afterwards no visited crossing level remains.
proof fn lemma_visit_levels(
    w: Walk,
    side: SideView,
    prices: Seq<u64>,
    incoming_is_buy: bool,
    limit: u64,
    taker: Seq<u8>,
)
    requires
        forall|i: int| 0 <= i < prices.len() ==> side.contains_key(#[trigger] prices[i]),
    ensures
        ({
            let (w2, s2) = visit_levels(w, side, prices, incoming_is_buy, limit, taker);
            &&& walk_extends(w, w2, taker, level_price_ok(prices, incoming_is_buy, limit))
            &&& forall|k: u64| #[trigger] s2.contains_key(k) ==> side.contains_key(k)
            &&& forall|k: u64|
                !crosses(incoming_is_buy, limit, k) ==> (#[trigger] s2.contains_key(k)
                    == side.contains_key(k) && (side.contains_key(k) ==> s2[k] == side[k]))
            &&& w2.remaining > 0 ==> forall|k: u64|
                prices.contains(k) && crosses(incoming_is_buy, limit, k) ==> !(#[trigger] s2.contains_key(k))
        }),
    decreases prices.len(),
{
    let ok = level_price_ok(prices, incoming_is_buy, limit);
    if prices.len() == 0 {
        lemma_walk_extends_refl(w, taker, ok);
    } else {
        let front = prices.drop_last();
        let ok_front = level_price_ok(front, incoming_is_buy, limit);
        let (w1, s1) = visit_levels(w, side, front, incoming_is_buy, limit, taker);
        assert forall|i: int| 0 <= i < front.len() implies side.contains_key(#[trigger] front[i]) by {
            assert(side.contains_key(prices[i]));
        }
        lemma_visit_levels(w, side, front, incoming_is_buy, limit, taker);
        assert forall|x: u64| #[trigger] ok_front(x) implies ok(x) by {
            let k = choose|k: int| 0 <= k < front.len() && front[k] == x;
            assert(prices[k] == x);
        }
        lemma_walk_extends_weaken(w, w1, taker, ok_front, ok);
        let p = prices.last();
        assert(prices.contains(p)) by {
            assert(prices[prices.len() - 1] == p);
        }
        if w1.remaining == 0 || !crosses(incoming_is_buy, limit, p) {
            let (w2, s2) = visit_levels(w, side, prices, incoming_is_buy, limit, taker);
            assert forall|k: u64| prices.contains(k) && crosses(incoming_is_buy, limit, k) && w2.remaining > 0 implies !(
            #[trigger] s2.contains_key(k)) by {
                if k != p {
                    let i = choose|i: int| 0 <= i < prices.len() && prices[i] == k;
                    assert(front[i] == k);
                }
            }
        } else {
            let (w2, kept) = visit_queue(w1, s1[p], p, taker);
            lemma_visit_queue(w1, s1[p], p, taker);
            lemma_walk_extends_weaken(w1, w2, taker, |x: u64| x == p, ok);
            lemma_walk_extends_trans(w, w1, w2, taker, ok);
            let s2 = if kept.len() == 0 {
                s1.remove(p)
            } else {
                s1.insert(p, kept)
            };
            assert forall|k: u64| #[trigger] s2.contains_key(k) implies side.contains_key(k) by {
                if k == p {
                    assert(side.contains_key(prices[prices.len() - 1]));
                }
            }
            assert forall|k: u64| prices.contains(k) && crosses(incoming_is_buy, limit, k) && w2.remaining > 0 implies !(
            #[trigger] s2.contains_key(k)) by {
                if k != p {
                    let i = choose|i: int| 0 <= i < prices.len() && prices[i] == k;
                    assert(front[i] == k);
                    assert(w1.remaining > 0);
                }
            }
        }
    }
}

/// Every finite, non-empty set of prices has a greatest element.
proof fn lemma_greatest_price(s: Set<u64>)
    requires
        s.finite(),
        s.len() > 0,
    ensures
        exists|m: u64| s.contains(m) && forall|x: u64| s.contains(x) ==> x <= m,
    decreases s.len(),
{
    let x = s.choose();
    let rest = s.remove(x);
    if rest.len() == 0 {
        assert forall|y: u64| s.contains(y) implies y <= x by {
            if y != x {
                assert(rest.contains(y));
            }
        }
    } else {
        lemma_greatest_price(rest);
        let m = choose|m: u64| rest.contains(m) && forall|y: u64| rest.contains(y) ==> y <= m;
        if x > m {
            assert forall|y: u64| s.contains(y) implies y <= x by {
                if y != x {
                    assert(rest.contains(y));
                }
            }
        } else {
            assert forall|y: u64| s.contains(y) implies y <= m by {
                if y != x {
                    assert(rest.contains(y));
                }
            }
        }
    }
}

/// Every finite set of prices can be listed in strictly increasing order.
proof fn lemma_price_listing(s: Set<u64>)
    requires
        s.finite(),
    ensures
        exists|l: Seq<u64>| strictly_increasing(l) && l.to_set() == s,
    decreases s.len(),
{
    if s.len() == 0 {
        let l = Seq::<u64>::empty();
        assert(l.to_set() =~= s);
    } else {
        lemma_greatest_price(s);
        let m = choose|m: u64| s.contains(m) && forall|x: u64| s.contains(x) ==> x <= m;
        let rest = s.remove(m);
        lemma_price_listing(rest);
        let l = choose|l: Seq<u64>| strictly_increasing(l) && l.to_set() == rest;
        let l2 = l.push(m);
        assert forall|i: int, j: int| 0 <= i < j < l2.len() implies l2[i] < l2[j] by {
            if j == l2.len() - 1 {
                assert(l.to_set().contains(l[i]));
                assert(rest.contains(l2[i]));
            }
        }
        assert(l2.to_set() =~= s) by {
            assert forall|x: u64| l2.to_set().contains(x) implies s.contains(x) by {
                let k = choose|k: int| 0 <= k < l2.len() && l2[k] == x;
                if k < l.len() {
                    assert(l.to_set().contains(l[k]));
                }
            }
            assert forall|x: u64| s.contains(x) implies l2.to_set().contains(x) by {
                if x != m {
                    assert(l.to_set().contains(x));
                    let k = choose|k: int| 0 <= k < l.len() && l[k] == x;
                    assert(l2[k] == x);
                } else {
                    assert(l2[l.len() as int] == m);
                }
            }
        }
    }
}

/// The validity of a book's abstract state: each side has finitely many
/// price levels.
pub open spec fn book_valid(book: BookState) -> bool {
    &&& book.asks.dom().finite()
    &&& book.bids.dom().finite()
}

/// The visiting order of a finite side lists each of its prices once, in
/// the direction the incoming order walks.
pub(crate) proof fn lemma_visiting_order(side: SideView, incoming_is_buy: bool)
    requires
        side.dom().finite(),
    ensures
        ({
            let v = visiting_order(side, incoming_is_buy);
            &&& forall|i: int| 0 <= i < v.len() ==> side.contains_key(#[trigger] v[i])
            &&& forall|k: u64| side.contains_key(k) ==> #[trigger] v.contains(k)
            &&& forall|i: int, j: int|
                0 <= i < j < v.len() ==> #[trigger] visited_no_later(incoming_is_buy, v[i], v[j]) && v[i] != v[j]
        }),
{
    lemma_price_listing(side.dom());
    let up = ascending_prices(side);
    assert(strictly_increasing(up) && up.to_set() == side.dom());
    let v = visiting_order(side, incoming_is_buy);
    assert forall|i: int| 0 <= i < v.len() implies side.contains_key(#[trigger] v[i]) by {
        if incoming_is_buy {
            assert(up.to_set().contains(up[i]));
        } else {
            assert(up.to_set().contains(up[up.len() - 1 - i]));
        }
    }
    assert forall|k: u64| side.contains_key(k) implies #[trigger] v.contains(k) by {
        assert(up.to_set().contains(k));
        let i = choose|i: int| 0 <= i < up.len() && up[i] == k;
        if incoming_is_buy {
            assert(v[i] == k);
        } else {
            assert(v[up.len() - 1 - i] == k);
        }
    }
    assert forall|i: int, j: int| 0 <= i < j < v.len() implies #[trigger] visited_no_later(incoming_is_buy, v[i], v[j]) && v[i] != v[j] by {
        if !incoming_is_buy {
            assert(up[up.len() - 1 - j] < up[up.len() - 1 - i]);
        }
    }
}

/// Along strictly ordered levels, the fills of a pass come in visiting order.
proof fn lemma_levels_in_order(
    w: Walk,
    side: SideView,
    prices: Seq<u64>,
    incoming_is_buy: bool,
    limit: u64,
    taker: Seq<u8>,
)
    requires
        forall|i: int| 0 <= i < prices.len() ==> side.contains_key(#[trigger] prices[i]),
        forall|i: int, j: int|
            0 <= i < j < prices.len() ==> #[trigger] visited_no_later(incoming_is_buy, prices[i], prices[j]) && prices[i] != prices[j],
    ensures
        ({
            let w2 = visit_levels(w, side, prices, incoming_is_buy, limit, taker).0;
            forall|a: int, b: int|
                w.trades.len() <= a < b < w2.trades.len() ==> visited_no_later(
                    incoming_is_buy,
                    #[trigger] w2.trades[a].price,
                    #[trigger] w2.trades[b].price,
                )
        }),
    decreases prices.len(),
{
    if prices.len() > 0 {
        let front = prices.drop_last();
        let (w1, s1) = visit_levels(w, side, front, incoming_is_buy, limit, taker);
        assert forall|i: int| 0 <= i < front.len() implies side.contains_key(#[trigger] front[i]) by {
            assert(side.contains_key(prices[i]));
        }
        assert forall|i: int, j: int| 0 <= i < j < front.len() implies #[trigger] visited_no_later(
            incoming_is_buy,
            front[i],
            front[j],
        ) && front[i] != front[j] by {
            assert(visited_no_later(incoming_is_buy, prices[i], prices[j]));
        }
        lemma_levels_in_order(w, side, front, incoming_is_buy, limit, taker);
        lemma_visit_levels(w, side, front, incoming_is_buy, limit, taker);
        let p = prices.last();
        if !(w1.remaining == 0 || !crosses(incoming_is_buy, limit, p)) {
            let (w2, kept) = visit_queue(w1, s1[p], p, taker);
            lemma_visit_queue(w1, s1[p], p, taker);
            let ok_front = level_price_ok(front, incoming_is_buy, limit);
            assert forall|a: int, b: int| w.trades.len() <= a < b < w2.trades.len() implies visited_no_later(
                incoming_is_buy,
                #[trigger] w2.trades[a].price,
                #[trigger] w2.trades[b].price,
            ) by {
                if b < w1.trades.len() {
                    assert(w2.trades[a] == w2.trades.take(w1.trades.len() as int)[a]);
                    assert(w2.trades[b] == w2.trades.take(w1.trades.len() as int)[b]);
                    assert(visited_no_later(incoming_is_buy, w1.trades[a].price, w1.trades[b].price));
                } else if a < w1.trades.len() {
                    assert(w2.trades[a] == w2.trades.take(w1.trades.len() as int)[a]);
                    assert(ok_front(w1.trades[a].price));
                    let i = choose|i: int| 0 <= i < front.len() && front[i] == w1.trades[a].price;
                    assert(visited_no_later(incoming_is_buy, prices[i], prices[prices.len() - 1]));
                    assert(w2.trades[b].price == p);
                } else {
                    assert(w2.trades[a].price == p);
                    assert(w2.trades[b].price == p);
                }
            }
        }
    }
}

/// The opposite side an incoming order walks.
pub open spec fn opposite_side(book: BookState, incoming_is_buy: bool) -> SideView {
    if incoming_is_buy {
        book.asks
    } else {
        book.bids
    }
}

/// The side an order rests on.
pub open spec fn own_side(book: BookState, is_buy: bool) -> SideView {
    if is_buy {
        book.bids
    } else {
        book.asks
    }
}

/// The matching pass of a placement keeps the walk facts.
pub(crate) proof fn lemma_match_pass(book: BookState, order: Order)
    requires
        opposite_side(book, order.is_buy).dom().finite(),
    ensures
        ({
            let (w, s) = match_pass(book, order);
            let start = Walk {
                orders: book.orders,
                remaining: order.amount,
                trades: Seq::empty(),
                filled: Seq::empty(),
            };
            let prices = visiting_order(opposite_side(book, order.is_buy), order.is_buy);
            &&& walk_extends(start, w, address_bytes(order.user_address@), level_price_ok(prices, order.is_buy, order.price))
            &&& forall|k: u64| #[trigger] s.contains_key(k) ==> opposite_side(book, order.is_buy).contains_key(k)
            &&& forall|k: u64|
                !crosses(order.is_buy, order.price, k) ==> (#[trigger] s.contains_key(k)
                    == opposite_side(book, order.is_buy).contains_key(k) && (opposite_side(book, order.is_buy).contains_key(k)
                    ==> s[k] == opposite_side(book, order.is_buy)[k]))
            &&& w.remaining > 0 ==> forall|k: u64| crosses(order.is_buy, order.price, k) ==> !(#[trigger] s.contains_key(k))
            &&& forall|a: int, b: int|
                0 <= a < b < w.trades.len() ==> visited_no_later(
                    order.is_buy,
                    #[trigger] w.trades[a].price,
                    #[trigger] w.trades[b].price,
                )
        }),
{
    let side = opposite_side(book, order.is_buy);
    let start = Walk {
        orders: book.orders,
        remaining: order.amount,
        trades: Seq::empty(),
        filled: Seq::empty(),
    };
    let prices = visiting_order(side, order.is_buy);
    let taker = address_bytes(order.user_address@);
    lemma_visiting_order(side, order.is_buy);
    lemma_visit_levels(start, side, prices, order.is_buy, order.price, taker);
    lemma_levels_in_order(start, side, prices, order.is_buy, order.price, taker);
    let (w, s) = match_pass(book, order);
    assert forall|k: u64| w.remaining > 0 && crosses(order.is_buy, order.price, k) implies !(#[trigger] s.contains_key(k)) by {
        if s.contains_key(k) {
            assert(side.contains_key(k));
            assert(prices.contains(k));
        }
    }
}

/// Conservation of volume: the fills of a placement never exceed the
/// incoming amount; an unfilled remainder rests, under the incoming order's
/// id and with exactly the amount not filled, at the back of the queue at
/// its price on its own side; a fully filled order leaves its own side as it
/// was.
pub proof fn place_conserves_volume(book: BookState, order: Order)
    ensures
        ({
            let after = place_result(book, order);
            let filled = total_amount(place_trades(book, order));
            &&& filled <= order.amount
            &&& filled < order.amount ==> {
                &&& after.orders.contains_key(order.id)
                &&& after.orders[order.id] == with_amount(order, (order.amount - filled) as u64)
                &&& own_side(after, order.is_buy) == enqueue(own_side(book, order.is_buy), order.price, order.id)
            }
            &&& filled == order.amount ==> own_side(after, order.is_buy) == own_side(book, order.is_buy)
        }),
{
    let side = opposite_side(book, order.is_buy);
    let start = Walk {
        orders: book.orders,
        remaining: order.amount,
        trades: Seq::empty(),
        filled: Seq::empty(),
    };
    let prices = visiting_order(side, order.is_buy);
    let taker = address_bytes(order.user_address@);
    assert(total_amount(Seq::<TradeView>::empty()) == 0);
    lemma_walk_extends_any_levels(start, side, prices, order.is_buy, order.price, taker);
}

/// Limit price: every fill of a placement is at a level that crosses the
/// incoming order's limit (at or below it for a buy, at or above it for a
/// sell).
pub proof fn place_fills_respect_limit(book: BookState, order: Order)
    ensures
        forall|i: int|
            0 <= i < place_trades(book, order).len() ==> crosses(
                order.is_buy,
                order.price,
                #[trigger] place_trades(book, order)[i].price,
            ),
{
    let side = opposite_side(book, order.is_buy);
    let start = Walk {
        orders: book.orders,
        remaining: order.amount,
        trades: Seq::empty(),
        filled: Seq::empty(),
    };
    let prices = visiting_order(side, order.is_buy);
    lemma_walk_extends_any_levels(start, side, prices, order.is_buy, order.price, address_bytes(order.user_address@));
}

/// Every fill of a placement names the incoming order's address (its UTF-8
/// bytes) as the taker and carries no maker signature.
pub proof fn place_fills_name_taker(book: BookState, order: Order)
    ensures
        forall|i: int|
            0 <= i < place_trades(book, order).len() ==> {
                &&& (#[trigger] place_trades(book, order)[i]).taker_pubkey == address_bytes(order.user_address@)
                &&& place_trades(book, order)[i].maker_signature == Seq::<u8>::empty()
            },
{
    let side = opposite_side(book, order.is_buy);
    let start = Walk {
        orders: book.orders,
        remaining: order.amount,
        trades: Seq::empty(),
        filled: Seq::empty(),
    };
    let prices = visiting_order(side, order.is_buy);
    let taker = address_bytes(order.user_address@);
    lemma_walk_extends_any_levels(start, side, prices, order.is_buy, order.price, taker);
    let ts = place_trades(book, order);
    assert forall|i: int| 0 <= i < ts.len() implies {
        &&& (#[trigger] ts[i]).taker_pubkey == taker
        &&& ts[i].maker_signature == Seq::<u8>::empty()
    } by {
        assert(crosses(order.is_buy, order.price, ts[i].price));
    }
}

/// Price priority: the fills of a placement come best price first (lowest
/// ask first for a buy, highest bid first for a sell).
pub proof fn place_fills_best_price_first(book: BookState, order: Order)
    requires
        book_valid(book),
    ensures
        forall|a: int, b: int|
            0 <= a < b < place_trades(book, order).len() ==> visited_no_later(
                order.is_buy,
                #[trigger] place_trades(book, order)[a].price,
                #[trigger] place_trades(book, order)[b].price,
            ),
{
    lemma_match_pass(book, order);
}

/// A remainder rests only on an uncrossed book: when an order is not fully
/// filled, no level of the opposite side at or through its limit is left.
/// Levels of the opposite side that do not cross the limit are untouched.
pub proof fn place_rests_only_uncrossed(book: BookState, order: Order)
    requires
        book_valid(book),
    ensures
        ({
            let after = place_result(book, order);
            let before_side = opposite_side(book, order.is_buy);
            let after_side = opposite_side(after, order.is_buy);
            &&& total_amount(place_trades(book, order)) < order.amount ==> forall|k: u64|
                #[trigger] after_side.contains_key(k) ==> !crosses(order.is_buy, order.price, k)
            &&& forall|k: u64|
                !crosses(order.is_buy, order.price, k) ==> (#[trigger] after_side.contains_key(k)
                    == before_side.contains_key(k) && (before_side.contains_key(k) ==> after_side[k]
                    == before_side[k]))
        }),
{
    lemma_match_pass(book, order);
    place_conserves_volume(book, order);
    let (w, s) = match_pass(book, order);
    assert(total_amount(Seq::<TradeView>::empty()) == 0);
}

/// Fills only reduce resting orders: every order of the book after a
/// placement, other than the placed one, was in the book before, unchanged
/// but for an amount no larger than before.
pub proof fn place_only_reduces_resting_orders(book: BookState, order: Order)
    ensures
        ({
            let after = place_result(book, order);
            forall|id: u64|
                #[trigger] after.orders.contains_key(id) && id != order.id ==> {
                    &&& book.orders.contains_key(id)
                    &&& after.orders[id] == with_amount(book.orders[id], after.orders[id].amount)
                    &&& after.orders[id].amount <= book.orders[id].amount
                }
        }),
{
    place_conserves_volume(book, order);
    let side = opposite_side(book, order.is_buy);
    let start = Walk {
        orders: book.orders,
        remaining: order.amount,
        trades: Seq::empty(),
        filled: Seq::empty(),
    };
    let prices = visiting_order(side, order.is_buy);
    lemma_walk_extends_any_levels(start, side, prices, order.is_buy, order.price, address_bytes(order.user_address@));
    let (w, s) = match_pass(book, order);
    let after = place_result(book, order);
    assert forall|id: u64| #[trigger] after.orders.contains_key(id) && id != order.id implies {
        &&& book.orders.contains_key(id)
        &&& after.orders[id] == with_amount(book.orders[id], after.orders[id].amount)
        &&& after.orders[id].amount <= book.orders[id].amount
    } by {
        assert(w.orders.contains_key(id));
    }
}

/// Every live order of a book has a positive amount.
pub open spec fn amounts_positive(book: BookState) -> bool {
    forall|id: u64| #[trigger] book.orders.contains_key(id) ==> book.orders[id].amount > 0
}

/// Placing an order keeps every live order's amount positive: resting
/// orders that fill completely leave the book, and a remainder rests only
/// when positive.
pub proof fn place_keeps_amounts_positive(book: BookState, order: Order)
    requires
        amounts_positive(book),
    ensures
        amounts_positive(place_result(book, order)),
{
    let side = opposite_side(book, order.is_buy);
    let start = Walk {
        orders: book.orders,
        remaining: order.amount,
        trades: Seq::empty(),
        filled: Seq::empty(),
    };
    let prices = visiting_order(side, order.is_buy);
    lemma_walk_extends_any_levels(start, side, prices, order.is_buy, order.price, address_bytes(order.user_address@));
    assert(zeros_are_filled(start));
    let (w, s) = match_pass(book, order);
    let after = place_result(book, order);
    assert forall|id: u64| #[trigger] after.orders.contains_key(id) implies after.orders[id].amount > 0 by {
        if !(id == order.id && w.remaining > 0) {
            assert(w.orders.contains_key(id));
            assert(!w.filled.to_set().contains(id));
        }
    }
}

/// Placing an order keeps both sides finite.
pub proof fn place_keeps_book_valid(book: BookState, order: Order)
    requires
        book_valid(book),
    ensures
        book_valid(place_result(book, order)),
{
    lemma_match_pass(book, order);
    let (w, s) = match_pass(book, order);
    let side = opposite_side(book, order.is_buy);
    assert(s.dom().subset_of(side.dom()));
    vstd::set_lib::lemma_len_subset(s.dom(), side.dom());
}

/// Cancelling removes the order, so a later lookup finds nothing, and
/// leaves every other order and both sides' queues as they were.
pub proof fn cancel_then_lookup_finds_nothing(book: BookState, id: u64)
    ensures
        !cancel_result(book, id).orders.contains_key(id),
        forall|other: u64|
            other != id ==> (#[trigger] cancel_result(book, id).orders.contains_key(other)
                == book.orders.contains_key(other) && (book.orders.contains_key(other)
                ==> cancel_result(book, id).orders[other] == book.orders[other])),
        cancel_result(book, id).asks == book.asks,
        cancel_result(book, id).bids == book.bids,
{
}

/// Cancelling keeps every live order's amount positive.
pub proof fn cancel_keeps_amounts_positive(book: BookState, id: u64)
    requires
        amounts_positive(book),
    ensures
        amounts_positive(cancel_result(book, id)),
{
}


/// The walk facts that hold of any visit of levels, whatever the prices.
pub(crate) proof fn lemma_walk_extends_any_levels(
    w: Walk,
    side: SideView,
    prices: Seq<u64>,
    incoming_is_buy: bool,
    limit: u64,
    taker: Seq<u8>,
)
    ensures
        walk_extends(
            w,
            visit_levels(w, side, prices, incoming_is_buy, limit, taker).0,
            taker,
            |p: u64| crosses(incoming_is_buy, limit, p),
        ),
    decreases prices.len(),
{
    let ok = |p: u64| crosses(incoming_is_buy, limit, p);
    if prices.len() == 0 {
        lemma_walk_extends_refl(w, taker, ok);
    } else {
        let front = prices.drop_last();
        let (w1, s1) = visit_levels(w, side, front, incoming_is_buy, limit, taker);
        lemma_walk_extends_any_levels(w, side, front, incoming_is_buy, limit, taker);
        let p = prices.last();
        if !(w1.remaining == 0 || !crosses(incoming_is_buy, limit, p)) {
            let (w2, kept) = visit_queue(w1, s1[p], p, taker);
            lemma_visit_queue(w1, s1[p], p, taker);
            lemma_walk_extends_weaken(w1, w2, taker, |x: u64| x == p, ok);
            lemma_walk_extends_trans(w, w1, w2, taker, ok);
        }
    }
}

/// The abstract state of every executable book is valid.
pub proof fn book_view_valid(book: &OrderBook)
    ensures
        book_valid(book@),
{
    assert(side_view(book.asks@).dom() =~= book.asks@.dom());
    assert(side_view(book.bids@).dom() =~= book.bids@.dom());
}

/// Whether every bid level is priced below every ask level.
pub open spec fn uncrossed(book: BookState) -> bool {
    forall|bid: u64, ask: u64|
        #[trigger] book.bids.contains_key(bid) && #[trigger] book.asks.contains_key(ask) ==> bid < ask
}

/// The book never crosses: placing an order on an uncrossed book leaves
/// every bid level below every ask level.
pub proof fn place_keeps_book_uncrossed(book: BookState, order: Order)
    requires
        book_valid(book),
        uncrossed(book),
    ensures
        uncrossed(place_result(book, order)),
{
    lemma_match_pass(book, order);
    place_rests_only_uncrossed(book, order);
    place_conserves_volume(book, order);
    let after = place_result(book, order);
    assert forall|bid: u64, ask: u64|
        #[trigger] after.bids.contains_key(bid) && #[trigger] after.asks.contains_key(ask) implies bid < ask by {
        if order.is_buy {
            assert(book.asks.contains_key(ask));
            if !book.bids.contains_key(bid) {
                assert(bid == order.price);
                assert(!crosses(order.is_buy, order.price, ask));
            }
        } else {
            assert(book.bids.contains_key(bid));
            if !book.asks.contains_key(ask) {
                assert(ask == order.price);
                assert(!crosses(order.is_buy, order.price, bid));
            }
        }
    }
}

/// Cancelling leaves both sides, and so an uncrossed book, as they were.
pub proof fn cancel_keeps_book_uncrossed(book: BookState, id: u64)
    requires
        uncrossed(book),
    ensures
        uncrossed(cancel_result(book, id)),
{
}

/// Each id occurs at most once across all the queues of a side.
pub open spec fn queue_ids_distinct(side: SideView) -> bool {
    forall|p1: u64, p2: u64, i: int, j: int|
        side.contains_key(p1) && side.contains_key(p2) && 0 <= i < side[p1].len() && 0 <= j
            < side[p2].len() && (p1 != p2 || i != j) ==> #[trigger] side[p1][i] != #[trigger] side[p2][j]
}

/// Every order in the walk not among `seen` still has a positive amount.
spec fn unseen_positive(w: Walk, seen: Set<u64>) -> bool {
    forall|id: u64| #[trigger] w.orders.contains_key(id) && !seen.contains(id) ==> w.orders[id].amount > 0
}

/// Every fill after position `from` has a positive amount.
spec fn fills_positive_from(trades: Seq<TradeView>, from: int) -> bool {
    forall|k: int| from <= k < trades.len() ==> (#[trigger] trades[k]).amount > 0
}

proof fn lemma_entry_positive(w: Walk, seen: Set<u64>, id: u64, price: u64, taker: Seq<u8>)
    requires
        unseen_positive(w, seen),
        !seen.contains(id),
    ensures
        unseen_positive(visit_entry(w, id, price, taker).0, seen.insert(id)),
        fills_positive_from(visit_entry(w, id, price, taker).0.trades, w.trades.len() as int),
{
    let w2 = visit_entry(w, id, price, taker).0;
    assert forall|x: u64| #[trigger] w2.orders.contains_key(x) && !seen.insert(id).contains(x) implies w2.orders[x].amount > 0 by {
        assert(w.orders.contains_key(x));
    }
    if w.remaining != 0 && w.orders.contains_key(id) {
        assert(w.orders[id].amount > 0);
    }
}

proof fn lemma_queue_positive(w: Walk, seen: Set<u64>, queue: Seq<u64>, price: u64, taker: Seq<u8>)
    requires
        unseen_positive(w, seen),
        queue.no_duplicates(),
        forall|k: int| 0 <= k < queue.len() ==> !seen.contains(#[trigger] queue[k]),
    ensures
        unseen_positive(visit_queue(w, queue, price, taker).0, seen + queue.to_set()),
        fills_positive_from(visit_queue(w, queue, price, taker).0.trades, w.trades.len() as int),
    decreases queue.len(),
{
    if queue.len() == 0 {
        assert(seen + queue.to_set() =~= seen);
    } else {
        let front = queue.drop_last();
        let x = queue.last();
        assert forall|k: int| 0 <= k < front.len() implies !seen.contains(#[trigger] front[k]) by {
            assert(front[k] == queue[k]);
        }
        lemma_queue_positive(w, seen, front, price, taker);
        let w1 = visit_queue(w, front, price, taker).0;
        lemma_visit_queue(w, front, price, taker);
        assert(!(seen + front.to_set()).contains(x)) by {
            assert(!seen.contains(queue[queue.len() - 1]));
            if front.to_set().contains(x) {
                let k = choose|k: int| 0 <= k < front.len() && front[k] == x;
                assert(queue[k] == queue[queue.len() - 1]);
            }
        }
        lemma_entry_positive(w1, seen + front.to_set(), x, price, taker);
        let w2 = visit_queue(w, queue, price, taker).0;
        assert((seen + front.to_set()).insert(x) =~= seen + queue.to_set()) by {
            assert forall|y: u64| queue.to_set().contains(y) implies (seen + front.to_set()).insert(x).contains(y) by {
                let k = choose|k: int| 0 <= k < queue.len() && queue[k] == y;
                if k < front.len() {
                    assert(front[k] == y);
                }
            }
            assert forall|y: u64| front.to_set().contains(y) implies queue.to_set().contains(y) by {
                let k = choose|k: int| 0 <= k < front.len() && front[k] == y;
                assert(queue[k] == y);
            }
            assert(queue[queue.len() - 1] == x);
        }
        assert forall|k: int| w.trades.len() <= k < w2.trades.len() implies (#[trigger] w2.trades[k]).amount > 0 by {
            if k < w1.trades.len() {
                assert(w2.trades[k] == w2.trades.take(w1.trades.len() as int)[k]);
            }
        }
    }
}

/// The ids queued at the first `n` of the given price levels.
spec fn level_ids(side: SideView, prices: Seq<u64>) -> Set<u64> {
    Set::new(
        |id: u64|
            exists|i: int, k: int|
                0 <= i < prices.len() && 0 <= k < side[prices[i]].len() && #[trigger] side[prices[i]][k] == id,
    )
}

proof fn lemma_levels_positive(
    w: Walk,
    seen: Set<u64>,
    side: SideView,
    prices: Seq<u64>,
    incoming_is_buy: bool,
    limit: u64,
    taker: Seq<u8>,
)
    requires
        unseen_positive(w, seen),
        prices.no_duplicates(),
        forall|i: int| 0 <= i < prices.len() ==> side.contains_key(#[trigger] prices[i]),
        queue_ids_distinct(side),
        forall|i: int, k: int|
            0 <= i < prices.len() && 0 <= k < side[prices[i]].len() ==> !seen.contains(
                #[trigger] side[prices[i]][k],
            ),
    ensures
        ({
            let (w2, s2) = visit_levels(w, side, prices, incoming_is_buy, limit, taker);
            &&& unseen_positive(w2, seen + level_ids(side, prices))
            &&& fills_positive_from(w2.trades, w.trades.len() as int)
            &&& forall|k: u64| !prices.contains(k) ==> (#[trigger] s2.contains_key(k) == side.contains_key(k)
                && s2[k] == side[k])
        }),
    decreases prices.len(),
{
    if prices.len() == 0 {
        assert(level_ids(side, prices) =~= Set::<u64>::empty());
        assert(seen + level_ids(side, prices) =~= seen);
    } else {
        let front = prices.drop_last();
        let p = prices.last();
        assert(p == prices[prices.len() - 1]);
        assert forall|i: int| 0 <= i < front.len() implies side.contains_key(#[trigger] front[i]) by {
            assert(side.contains_key(prices[i]));
        }
        assert forall|i: int, k: int| 0 <= i < front.len() && 0 <= k < side[front[i]].len() implies !seen.contains(
            #[trigger] side[front[i]][k],
        ) by {
            assert(front[i] == prices[i]);
            assert(!seen.contains(side[prices[i]][k]));
        }
        lemma_levels_positive(w, seen, side, front, incoming_is_buy, limit, taker);
        let (w1, s1) = visit_levels(w, side, front, incoming_is_buy, limit, taker);
        let seen1 = seen + level_ids(side, front);
        assert(!front.contains(p)) by {
            if front.contains(p) {
                let i = choose|i: int| 0 <= i < front.len() && front[i] == p;
                assert(prices[i] == prices[prices.len() - 1]);
            }
        }
        assert(s1.contains_key(p) == side.contains_key(p));
        assert(s1[p] == side[p]);
        assert(side.contains_key(prices[prices.len() - 1]));
        let q = side[p];
        assert(q.no_duplicates()) by {
            assert forall|a: int, b: int| 0 <= a < q.len() && 0 <= b < q.len() && a != b implies q[a] != q[b] by {
                assert(side[p][a] != side[p][b]);
            }
        }
        assert forall|k: int| 0 <= k < q.len() implies !seen1.contains(#[trigger] q[k]) by {
            assert(!seen.contains(side[prices[prices.len() - 1]][k]));
            if level_ids(side, front).contains(q[k]) {
                let (i, j) = choose|i: int, j: int|
                    0 <= i < front.len() && 0 <= j < side[front[i]].len() && #[trigger] side[front[i]][j] == q[k];
                assert(side.contains_key(front[i]));
                assert(front[i] != p);
                assert(side[front[i]][j] != side[p][k]);
            }
        }
        let ids = seen + level_ids(side, prices);
        assert(seen1 + q.to_set() =~= ids) by {
            assert forall|y: u64| ids.contains(y) implies (seen1 + q.to_set()).contains(y) by {
                if level_ids(side, prices).contains(y) {
                    let (i, j) = choose|i: int, j: int|
                        0 <= i < prices.len() && 0 <= j < side[prices[i]].len() && #[trigger] side[prices[i]][j] == y;
                    if i < front.len() {
                        assert(front[i] == prices[i]);
                        assert(side[front[i]][j] == y);
                    } else {
                        assert(q[j] == y);
                    }
                }
            }
            assert forall|y: u64| (seen1 + q.to_set()).contains(y) implies ids.contains(y) by {
                if level_ids(side, front).contains(y) {
                    let (i, j) = choose|i: int, j: int|
                        0 <= i < front.len() && 0 <= j < side[front[i]].len() && #[trigger] side[front[i]][j] == y;
                    assert(prices[i] == front[i]);
                    assert(side[prices[i]][j] == y);
                } else if q.to_set().contains(y) {
                    let j = choose|j: int| 0 <= j < q.len() && q[j] == y;
                    assert(side[prices[prices.len() - 1]][j] == y);
                }
            }
        }
        let (w2, s2) = visit_levels(w, side, prices, incoming_is_buy, limit, taker);
        if w1.remaining == 0 || !crosses(incoming_is_buy, limit, p) {
            assert forall|id: u64| #[trigger] w2.orders.contains_key(id) && !ids.contains(id) implies w2.orders[id].amount > 0 by {
                assert(!seen1.contains(id));
            }
        } else {
            lemma_queue_positive(w1, seen1, q, p, taker);
            lemma_visit_queue(w1, q, p, taker);
            assert forall|k: int| w.trades.len() <= k < w2.trades.len() implies (#[trigger] w2.trades[k]).amount > 0 by {
                if k < w1.trades.len() {
                    assert(w2.trades[k] == w2.trades.take(w1.trades.len() as int)[k]);
                }
            }
        }
        assert forall|k: u64| !prices.contains(k) implies (#[trigger] s2.contains_key(k) == side.contains_key(k)
            && s2[k] == side[k]) by {
            assert(!front.contains(k)) by {
                if front.contains(k) {
                    let i = choose|i: int| 0 <= i < front.len() && front[i] == k;
                    assert(prices[i] == k);
                }
            }
            assert(s1.contains_key(k) == side.contains_key(k));
            assert(k != p);
        }
    }
}

/// Fills are positive: on a book whose live orders all have positive
/// amounts and whose opposite side queues each id at most once, every fill
/// of a placement moves a positive amount.
pub proof fn place_fills_are_positive(book: BookState, order: Order)
    requires
        book_valid(book),
        amounts_positive(book),
        queue_ids_distinct(opposite_side(book, order.is_buy)),
    ensures
        forall|i: int|
            0 <= i < place_trades(book, order).len() ==> (#[trigger] place_trades(book, order)[i]).amount > 0,
{
    let side = opposite_side(book, order.is_buy);
    let start = Walk {
        orders: book.orders,
        remaining: order.amount,
        trades: Seq::empty(),
        filled: Seq::empty(),
    };
    let prices = visiting_order(side, order.is_buy);
    lemma_visiting_order(side, order.is_buy);
    assert(prices.no_duplicates()) by {
        assert forall|i: int, j: int| 0 <= i < prices.len() && 0 <= j < prices.len() && i != j implies prices[i] != prices[j] by {
            if i < j {
                assert(visited_no_later(order.is_buy, prices[i], prices[j]));
            } else {
                assert(visited_no_later(order.is_buy, prices[j], prices[i]));
            }
        }
    }
    assert(unseen_positive(start, Set::empty()));
    lemma_levels_positive(
        start,
        Set::empty(),
        side,
        prices,
        order.is_buy,
        order.price,
        address_bytes(order.user_address@),
    );
}

/// The ids a queue visit keeps are distinct ids of the queue.
pub(crate) proof fn lemma_kept_within_queue(w: Walk, queue: Seq<u64>, price: u64, taker: Seq<u8>)
    requires
        queue.no_duplicates(),
    ensures
        visit_queue(w, queue, price, taker).1.no_duplicates(),
        forall|k: int|
            0 <= k < visit_queue(w, queue, price, taker).1.len() ==> queue.contains(
                #[trigger] visit_queue(w, queue, price, taker).1[k],
            ),
    decreases queue.len(),
{
    if queue.len() > 0 {
        let front = queue.drop_last();
        assert(front.no_duplicates()) by {
            assert forall|a: int, b: int| 0 <= a < front.len() && 0 <= b < front.len() && a != b implies front[a] != front[b] by {
                assert(queue[a] != queue[b]);
            }
        }
        lemma_kept_within_queue(w, front, price, taker);
        let kept = visit_queue(w, front, price, taker).1;
        let kept2 = visit_queue(w, queue, price, taker).1;
        let x = queue.last();
        assert(!kept.contains(x)) by {
            if kept.contains(x) {
                let k = choose|k: int| 0 <= k < kept.len() && kept[k] == x;
                assert(front.contains(kept[k]));
                let j = choose|j: int| 0 <= j < front.len() && front[j] == x;
                assert(queue[j] == queue[queue.len() - 1]);
            }
        }
        assert forall|k: int| 0 <= k < kept2.len() implies queue.contains(#[trigger] kept2[k]) by {
            if k < kept.len() {
                assert(kept2[k] == kept[k]);
                assert(front.contains(kept[k]));
                let j = choose|j: int| 0 <= j < front.len() && front[j] == kept[k];
                assert(queue[j] == kept[k]);
            } else {
                assert(queue[queue.len() - 1] == x);
            }
        }
    }
}

/// Levels a visit leaves in the side hold distinct ids drawn from the same
/// level before the visit, and no level appears that was not there.
pub(crate) proof fn lemma_levels_keep_ids(
    w: Walk,
    side: SideView,
    prices: Seq<u64>,
    incoming_is_buy: bool,
    limit: u64,
    taker: Seq<u8>,
)
    requires
        forall|p: u64| #[trigger] side.contains_key(p) ==> side[p].no_duplicates(),
        prices.no_duplicates(),
        forall|i: int| 0 <= i < prices.len() ==> side.contains_key(#[trigger] prices[i]),
    ensures
        ({
            let s2 = visit_levels(w, side, prices, incoming_is_buy, limit, taker).1;
            forall|p: u64|
                #[trigger] s2.contains_key(p) ==> {
                    &&& side.contains_key(p)
                    &&& s2[p].no_duplicates()
                    &&& forall|k: int| 0 <= k < s2[p].len() ==> side[p].contains(#[trigger] s2[p][k])
                }
        }),
    decreases prices.len(),
{
    if prices.len() > 0 {
        let front = prices.drop_last();
        assert(front.no_duplicates()) by {
            assert forall|a: int, b: int| 0 <= a < front.len() && 0 <= b < front.len() && a != b implies front[a] != front[b] by {
                assert(prices[a] != prices[b]);
            }
        }
        assert forall|i: int| 0 <= i < front.len() implies side.contains_key(#[trigger] front[i]) by {
            assert(side.contains_key(prices[i]));
        }
        lemma_levels_keep_ids(w, side, front, incoming_is_buy, limit, taker);
        lemma_levels_untouched_outside(w, side, front, incoming_is_buy, limit, taker);
        let (w1, s1) = visit_levels(w, side, front, incoming_is_buy, limit, taker);
        let p = prices.last();
        assert(!front.contains(p)) by {
            if front.contains(p) {
                let i = choose|i: int| 0 <= i < front.len() && front[i] == p;
                assert(prices[i] == prices[prices.len() - 1]);
            }
        }
        assert(side.contains_key(prices[prices.len() - 1]));
        assert(s1.contains_key(p) == side.contains_key(p));
        if !(w1.remaining == 0 || !crosses(incoming_is_buy, limit, p)) {
            lemma_kept_within_queue(w1, s1[p], p, taker);
            let kept = visit_queue(w1, s1[p], p, taker).1;
            assert forall|k: int| 0 <= k < kept.len() implies side[p].contains(#[trigger] kept[k]) by {
                assert(s1[p].contains(kept[k]));
                let j = choose|j: int| 0 <= j < s1[p].len() && s1[p][j] == kept[k];
                assert(side[p].contains(s1[p][j]));
            }
        }
    }
}

/// Levels a visit does not list are left as they were.
pub(crate) proof fn lemma_levels_untouched_outside(
    w: Walk,
    side: SideView,
    prices: Seq<u64>,
    incoming_is_buy: bool,
    limit: u64,
    taker: Seq<u8>,
)
    ensures
        ({
            let s2 = visit_levels(w, side, prices, incoming_is_buy, limit, taker).1;
            forall|k: u64| !prices.contains(k) ==> (#[trigger] s2.contains_key(k) == side.contains_key(k)
                && s2[k] == side[k])
        }),
    decreases prices.len(),
{
    if prices.len() > 0 {
        let front = prices.drop_last();
        lemma_levels_untouched_outside(w, side, front, incoming_is_buy, limit, taker);
        let s1 = visit_levels(w, side, front, incoming_is_buy, limit, taker).1;
        let s2 = visit_levels(w, side, prices, incoming_is_buy, limit, taker).1;
        assert forall|k: u64| !prices.contains(k) implies (#[trigger] s2.contains_key(k) == side.contains_key(k)
            && s2[k] == side[k]) by {
            assert(!front.contains(k)) by {
                if front.contains(k) {
                    let i = choose|i: int| 0 <= i < front.len() && front[i] == k;
                    assert(prices[i] == k);
                }
            }
            assert(s1.contains_key(k) == side.contains_key(k));
            assert(k != prices[prices.len() - 1]);
        }
    }
}

/// Whether `id` is queued nowhere on `side`.
pub open spec fn not_queued(side: SideView, id: u64) -> bool {
    forall|p: u64, k: int| side.contains_key(p) && 0 <= k < side[p].len() ==> #[trigger] side[p][k] != id
}

/// Appending an id queued nowhere keeps a side's ids distinct.
pub(crate) proof fn lemma_enqueue_distinct(side: SideView, price: u64, id: u64)
    requires
        queue_ids_distinct(side),
        not_queued(side, id),
    ensures
        queue_ids_distinct(enqueue(side, price, id)),
{
    let s2 = enqueue(side, price, id);
    assert forall|p1: u64, p2: u64, i: int, j: int|
        s2.contains_key(p1) && s2.contains_key(p2) && 0 <= i < s2[p1].len() && 0 <= j < s2[p2].len() && (p1
            != p2 || i != j) implies #[trigger] s2[p1][i] != #[trigger] s2[p2][j] by {
        let at_end1 = p1 == price && i == s2[p1].len() - 1;
        let at_end2 = p2 == price && j == s2[p2].len() - 1;
        if at_end1 && !at_end2 {
            assert(s2[p1][i] == id);
            if p2 == price {
                assert(side.contains_key(price) && s2[p2][j] == side[price][j]);
            } else {
                assert(s2[p2][j] == side[p2][j]);
            }
        } else if at_end2 && !at_end1 {
            assert(s2[p2][j] == id);
            if p1 == price {
                assert(side.contains_key(price) && s2[p1][i] == side[price][i]);
            } else {
                assert(s2[p1][i] == side[p1][i]);
            }
        } else if !at_end1 && !at_end2 {
            if p1 == price {
                assert(side.contains_key(price) && s2[p1][i] == side[price][i]);
            }
            if p2 == price {
                assert(side.contains_key(price) && s2[p2][j] == side[price][j]);
            }
            assert(side[p1][i] != side[p2][j]);
        }
    }
}

/// The queues of the opposite side after a matching pass keep their ids
/// distinct.
pub(crate) proof fn lemma_pass_keeps_distinct(book: BookState, order: Order)
    requires
        book_valid(book),
        queue_ids_distinct(opposite_side(book, order.is_buy)),
    ensures
        queue_ids_distinct(match_pass(book, order).1),
{
    let side = opposite_side(book, order.is_buy);
    let start = Walk {
        orders: book.orders,
        remaining: order.amount,
        trades: Seq::empty(),
        filled: Seq::empty(),
    };
    let prices = visiting_order(side, order.is_buy);
    lemma_visiting_order(side, order.is_buy);
    assert(prices.no_duplicates()) by {
        assert forall|i: int, j: int| 0 <= i < prices.len() && 0 <= j < prices.len() && i != j implies prices[i] != prices[j] by {
            if i < j {
                assert(visited_no_later(order.is_buy, prices[i], prices[j]));
            } else {
                assert(visited_no_later(order.is_buy, prices[j], prices[i]));
            }
        }
    }
    assert forall|p: u64| #[trigger] side.contains_key(p) implies side[p].no_duplicates() by {
        assert forall|a: int, b: int| 0 <= a < side[p].len() && 0 <= b < side[p].len() && a != b implies side[p][a] != side[p][b] by {
        }
    }
    lemma_levels_keep_ids(start, side, prices, order.is_buy, order.price, address_bytes(order.user_address@));
    let s2 = match_pass(book, order).1;
    assert forall|p1: u64, p2: u64, i: int, j: int|
        s2.contains_key(p1) && s2.contains_key(p2) && 0 <= i < s2[p1].len() && 0 <= j < s2[p2].len() && (p1
            != p2 || i != j) implies #[trigger] s2[p1][i] != #[trigger] s2[p2][j] by {
        if p1 != p2 {
            assert(side[p1].contains(s2[p1][i]));
            assert(side[p2].contains(s2[p2][j]));
            let a = choose|a: int| 0 <= a < side[p1].len() && side[p1][a] == s2[p1][i];
            let b = choose|b: int| 0 <= b < side[p2].len() && side[p2][b] == s2[p2][j];
            assert(side[p1][a] != side[p2][b]);
        }
    }
}

/// Ids stay unique in their queues: placing an order whose id is queued
/// nowhere on its own side keeps each side's queued ids distinct.
pub proof fn place_keeps_queue_ids_distinct(book: BookState, order: Order)
    requires
        book_valid(book),
        queue_ids_distinct(book.asks),
        queue_ids_distinct(book.bids),
        not_queued(own_side(book, order.is_buy), order.id),
    ensures
        queue_ids_distinct(place_result(book, order).asks),
        queue_ids_distinct(place_result(book, order).bids),
{
    lemma_pass_keeps_distinct(book, order);
    if order.is_buy {
        lemma_enqueue_distinct(book.bids, order.price, order.id);
    } else {
        lemma_enqueue_distinct(book.asks, order.price, order.id);
    }
}

} // verus!
