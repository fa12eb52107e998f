//! The invariant every reachable book keeps, tying live orders to their
//! queues, and what follows from it.
use vstd::prelude::*;

use crate::book_laws::{
    lemma_levels_keep_ids, lemma_walk_extends_any_levels, not_queued, place_keeps_amounts_positive,
    place_keeps_book_uncrossed, place_keeps_book_valid, place_keeps_queue_ids_distinct,
    queue_ids_distinct, total_amount, lemma_total_push, place_only_reduces_resting_orders,
    place_conserves_volume,
    amounts_only_shrink, amounts_positive, book_valid, lemma_match_pass, lemma_visit_entry,
    lemma_visit_queue, lemma_visiting_order, lemma_levels_untouched_outside, opposite_side,
    own_side, uncrossed, visited_no_later, walk_extends,
};
use crate::orderbook::{with_amount, Order};
use crate::book_model::{
    place_result, place_trades, cancel_result,
    address_bytes, enqueue, match_pass, visit_entry, visit_levels, visit_queue, visiting_order,
    crosses, BookState, SideView, Walk,
};

verus! {

/// An entry that is live when its queue is visited, and is not listed as
/// filled afterwards, stays in the queue.
proof fn lemma_queue_keeps_live(w: Walk, queue: Seq<u64>, price: u64, taker: Seq<u8>)
    ensures
        forall|id: u64|
            queue.contains(id) && w.orders.contains_key(id) && !(#[trigger] visit_queue(w, queue, price, taker).0.filled.contains(id))
                ==> visit_queue(w, queue, price, taker).1.contains(id),
    decreases queue.len(),
{
    if queue.len() > 0 {
        let front = queue.drop_last();
        let x = queue.last();
        lemma_queue_keeps_live(w, front, price, taker);
        lemma_visit_queue(w, front, price, taker);
        let (w1, kept1) = visit_queue(w, front, price, taker);
        lemma_visit_entry(w1, x, price, taker);
        let (w2, kept2) = visit_queue(w, queue, price, taker);
        assert forall|id: u64|
            queue.contains(id) && w.orders.contains_key(id) && !(#[trigger] w2.filled.contains(id)) implies kept2.contains(id) by {
            let k = choose|k: int| 0 <= k < queue.len() && queue[k] == id;
            if k < front.len() {
                assert(front[k] == id);
                assert(!w1.filled.contains(id));
                assert(kept1.contains(id));
                let j = choose|j: int| 0 <= j < kept1.len() && kept1[j] == id;
                assert(kept2[j] == id);
            } else {
                assert(id == x);
                assert(w1.orders.contains_key(id));
                if w1.remaining != 0 {
                    let left = (w1.orders[id].amount - if w1.remaining <= w1.orders[id].amount {
                        w1.remaining
                    } else {
                        w1.orders[id].amount
                    }) as u64;
                    if left == 0 {
                        assert(w2.filled.last() == id);
                        assert(w2.filled.contains(id));
                    }
                }
                assert(kept2.last() == id);
                assert(kept2[kept2.len() - 1] == id);
            }
        }
    }
}

/// Over distinct levels that the side holds: every level left is non-empty
/// if every level was, and an id queued at a level, live at the start and
/// not filled by the end, is still queued there.
proof fn lemma_levels_keep_live(
    w: Walk,
    side: SideView,
    prices: Seq<u64>,
    incoming_is_buy: bool,
    limit: u64,
    taker: Seq<u8>,
)
    requires
        prices.no_duplicates(),
        forall|i: int| 0 <= i < prices.len() ==> side.contains_key(#[trigger] prices[i]),
    ensures
        ({
            let (w2, s2) = visit_levels(w, side, prices, incoming_is_buy, limit, taker);
            &&& (forall|p: u64| #[trigger] side.contains_key(p) ==> side[p].len() > 0) ==> (forall|p: u64|
                #[trigger] s2.contains_key(p) ==> s2[p].len() > 0)
            &&& forall|p: u64, id: u64|
                side.contains_key(p) && #[trigger] side[p].contains(id) && w.orders.contains_key(id)
                    && !(#[trigger] w2.filled.contains(id)) ==> s2.contains_key(p) && s2[p].contains(id)
        }),
    decreases prices.len(),
{
    if prices.len() > 0 {
        let front = prices.drop_last();
        assert(front.no_duplicates()) by {
            assert forall|a: int, b: int| 0 <= a < front.len() && 0 <= b < front.len() && a != b implies front[a] != front[b] by {
                assert(prices[a] != prices[b]);
            }
        }
        assert forall|i: int| 0 <= i < front.len() implies side.contains_key(#[trigger] front[i]) by {
            assert(side.contains_key(prices[i]));
        }
        lemma_levels_keep_live(w, side, front, incoming_is_buy, limit, taker);
        lemma_levels_untouched_outside(w, side, front, incoming_is_buy, limit, taker);
        crate::book_laws::lemma_walk_extends_any_levels(w, side, front, incoming_is_buy, limit, taker);
        let (w1, s1) = visit_levels(w, side, front, incoming_is_buy, limit, taker);
        let (w2, s2) = visit_levels(w, side, prices, incoming_is_buy, limit, taker);
        let last = prices.last();
        assert(!front.contains(last)) by {
            if front.contains(last) {
                let i = choose|i: int| 0 <= i < front.len() && front[i] == last;
                assert(prices[i] == prices[prices.len() - 1]);
            }
        }
        assert(side.contains_key(prices[prices.len() - 1]));
        assert(s1.contains_key(last) == side.contains_key(last));
        let processed = !(w1.remaining == 0 || !crosses(incoming_is_buy, limit, last));
        if processed {
            lemma_queue_keeps_live(w1, s1[last], last, taker);
            lemma_visit_queue(w1, s1[last], last, taker);
        }
        assert forall|p: u64, id: u64|
            side.contains_key(p) && #[trigger] side[p].contains(id) && w.orders.contains_key(id)
                && !(#[trigger] w2.filled.contains(id)) implies s2.contains_key(p) && s2[p].contains(id) by {
            assert(!w1.filled.contains(id));
            if p == last {
                assert(s1[last] == side[last]);
                if processed {
                    assert(w1.orders.contains_key(id));
                }
            } else {
                assert(s1.contains_key(p) && s1[p].contains(id)) by {
                    assert(!w1.filled.contains(id));
                }
            }
        }
    }
}

/// The well-formedness every reachable book keeps.
pub open spec fn book_well_formed(book: BookState) -> bool {
    &&& book_valid(book)
    &&& amounts_positive(book)
    &&& uncrossed(book)
    &&& crate::book_laws::queue_ids_distinct(book.asks)
    &&& crate::book_laws::queue_ids_distinct(book.bids)
    // every order is filed under its own id
    &&& forall|id: u64| #[trigger] book.orders.contains_key(id) ==> book.orders[id].id == id
    // every live order is queued at its price on its own side
    &&& forall|id: u64|
        #[trigger] book.orders.contains_key(id) ==> {
            let x = book.orders[id];
            own_side(book, x.is_buy).contains_key(x.price) && own_side(book, x.is_buy)[x.price].contains(id)
        }
    // a live id queued on a side belongs to that side and that price
    &&& forall|p: u64, id: u64|
        book.bids.contains_key(p) && #[trigger] book.bids[p].contains(id) && book.orders.contains_key(id)
            ==> book.orders[id].is_buy && book.orders[id].price == p
    &&& forall|p: u64, id: u64|
        book.asks.contains_key(p) && #[trigger] book.asks[p].contains(id) && book.orders.contains_key(id)
            ==> !book.orders[id].is_buy && book.orders[id].price == p
    // no level is empty
    &&& forall|p: u64| #[trigger] book.bids.contains_key(p) ==> book.bids[p].len() > 0
    &&& forall|p: u64| #[trigger] book.asks.contains_key(p) ==> book.asks[p].len() > 0
}

/// Whether `order` can be placed as a new order: no live order has its id
/// and its id is queued on neither side.
pub open spec fn fresh_order(book: BookState, order: Order) -> bool {
    &&& !book.orders.contains_key(order.id)
    &&& not_queued(book.asks, order.id)
    &&& not_queued(book.bids, order.id)
}

/// What a matching pass leaves of the opposite side of a well-formed book.
proof fn lemma_pass_facts(book: BookState, order: Order)
    requires
        book_well_formed(book),
    ensures
        ({
            let (w, s2) = match_pass(book, order);
            let side = opposite_side(book, order.is_buy);
            let start = Walk {
                orders: book.orders,
                remaining: order.amount,
                trades: Seq::empty(),
                filled: Seq::empty(),
            };
            &&& amounts_only_shrink(book.orders, w.orders)
            &&& forall|p: u64|
                #[trigger] s2.contains_key(p) ==> side.contains_key(p) && s2[p].len() > 0 && forall|k: int|
                    0 <= k < s2[p].len() ==> side[p].contains(#[trigger] s2[p][k])
            &&& forall|p: u64, id: u64|
                side.contains_key(p) && #[trigger] side[p].contains(id) && book.orders.contains_key(id)
                    && !(#[trigger] w.filled.contains(id)) ==> s2.contains_key(p) && s2[p].contains(id)
        }),
{
    let side = opposite_side(book, order.is_buy);
    let start = Walk {
        orders: book.orders,
        remaining: order.amount,
        trades: Seq::empty(),
        filled: Seq::empty(),
    };
    let prices = visiting_order(side, order.is_buy);
    let taker = address_bytes(order.user_address@);
    lemma_visiting_order(side, order.is_buy);
    assert(prices.no_duplicates()) by {
        assert forall|i: int, j: int| 0 <= i < prices.len() && 0 <= j < prices.len() && i != j implies prices[i] != prices[j] by {
            if i < j {
                assert(visited_no_later(order.is_buy, prices[i], prices[j]));
            } else {
                assert(visited_no_later(order.is_buy, prices[j], prices[i]));
            }
        }
    }
    assert forall|p: u64| #[trigger] side.contains_key(p) implies side[p].no_duplicates() by {
        assert forall|a: int, b: int| 0 <= a < side[p].len() && 0 <= b < side[p].len() && a != b implies side[p][a] != side[p][b] by {
        }
    }
    lemma_walk_extends_any_levels(start, side, prices, order.is_buy, order.price, taker);
    lemma_levels_keep_ids(start, side, prices, order.is_buy, order.price, taker);
    lemma_levels_keep_live(start, side, prices, order.is_buy, order.price, taker);
}

/// The empty book is well formed.
pub proof fn empty_book_well_formed()
    ensures
        book_well_formed(BookState { orders: Map::empty(), asks: Map::empty(), bids: Map::empty() }),
{
    let b = BookState { orders: Map::empty(), asks: Map::empty(), bids: Map::empty() };
    assert(b.asks.dom() =~= Set::<u64>::empty());
    assert(b.bids.dom() =~= Set::<u64>::empty());
}

/// Placing a new order keeps the book well formed.
pub proof fn place_keeps_well_formed(book: BookState, order: Order)
    requires
        book_well_formed(book),
        fresh_order(book, order),
    ensures
        book_well_formed(place_result(book, order)),
{
    place_keeps_book_valid(book, order);
    place_keeps_amounts_positive(book, order);
    place_keeps_book_uncrossed(book, order);
    place_keeps_queue_ids_distinct(book, order);
    lemma_pass_facts(book, order);
    let (w, s2) = match_pass(book, order);
    let after = place_result(book, order);
    let rests = w.remaining > 0;
    let own = own_side(book, order.is_buy);
    let side = opposite_side(book, order.is_buy);
    let placed = with_amount(order, w.remaining);
    // orders of the book after, other than the placed one
    assert forall|id: u64| #[trigger] after.orders.contains_key(id) && !(rests && id == order.id) implies
        w.orders.contains_key(id) && !w.filled.contains(id) && book.orders.contains_key(id)
            && after.orders[id] == with_amount(book.orders[id], after.orders[id].amount) && id != order.id by {
        assert(!w.filled.to_set().contains(id));
    }
    assert forall|id: u64| #[trigger] after.orders.contains_key(id) implies after.orders[id].id == id by {
        if !(rests && id == order.id) {
            assert(book.orders.contains_key(id));
        }
    }
    assert forall|id: u64| #[trigger] after.orders.contains_key(id) implies {
        let x = after.orders[id];
        own_side(after, x.is_buy).contains_key(x.price) && own_side(after, x.is_buy)[x.price].contains(id)
    } by {
        let x = after.orders[id];
        if rests && id == order.id {
            assert(x == placed);
            let q = own_side(after, x.is_buy)[x.price];
            assert(q.last() == id);
            assert(q[q.len() - 1] == id);
        } else {
            let y = book.orders[id];
            assert(book.orders.contains_key(id));
            assert(x.is_buy == y.is_buy && x.price == y.price);
            assert(own_side(book, y.is_buy).contains_key(y.price) && own_side(book, y.is_buy)[y.price].contains(id));
            if y.is_buy == order.is_buy {
                if rests {
                    let k = choose|k: int| 0 <= k < own[y.price].len() && own[y.price][k] == id;
                    assert(own_side(after, x.is_buy)[x.price][k] == id);
                }
            } else {
                assert(side[y.price].contains(id));
            }
        }
    }
    assert forall|p: u64, id: u64|
        after.bids.contains_key(p) && #[trigger] after.bids[p].contains(id) && after.orders.contains_key(id)
            implies after.orders[id].is_buy && after.orders[id].price == p by {
        let k = choose|k: int| 0 <= k < after.bids[p].len() && after.bids[p][k] == id;
        if order.is_buy {
            if rests && id == order.id {
                if book.bids.contains_key(p) && k < book.bids[p].len() {
                    assert(book.bids[p][k] == after.bids[p][k]);
                }
            } else {
                assert(book.orders.contains_key(id));
                if rests && p == order.price {
                    if k == after.bids[p].len() - 1 {
                        assert(after.bids[p][k] == order.id);
                    } else {
                        assert(book.bids[p][k] == id);
                        assert(book.bids[p].contains(id));
                    }
                } else {
                    assert(book.bids[p][k] == id);
                    assert(book.bids[p].contains(id));
                }
            }
        } else {
            assert(book.bids.contains_key(p) && book.bids[p].contains(id));
            if rests && id == order.id {
                let j = choose|j: int| 0 <= j < book.bids[p].len() && book.bids[p][j] == id;
                assert(book.bids[p][j] != order.id);
            }
            assert(book.orders.contains_key(id));
        }
    }
    assert forall|p: u64, id: u64|
        after.asks.contains_key(p) && #[trigger] after.asks[p].contains(id) && after.orders.contains_key(id)
            implies !after.orders[id].is_buy && after.orders[id].price == p by {
        let k = choose|k: int| 0 <= k < after.asks[p].len() && after.asks[p][k] == id;
        if !order.is_buy {
            if rests && id == order.id {
                if book.asks.contains_key(p) && k < book.asks[p].len() {
                    assert(book.asks[p][k] == after.asks[p][k]);
                }
            } else {
                assert(book.orders.contains_key(id));
                if rests && p == order.price {
                    if k == after.asks[p].len() - 1 {
                        assert(after.asks[p][k] == order.id);
                    } else {
                        assert(book.asks[p][k] == id);
                        assert(book.asks[p].contains(id));
                    }
                } else {
                    assert(book.asks[p][k] == id);
                    assert(book.asks[p].contains(id));
                }
            }
        } else {
            assert(book.asks.contains_key(p) && book.asks[p].contains(id));
            if rests && id == order.id {
                let j = choose|j: int| 0 <= j < book.asks[p].len() && book.asks[p][j] == id;
                assert(book.asks[p][j] != order.id);
            }
            assert(book.orders.contains_key(id));
        }
    }
    assert forall|p: u64| #[trigger] after.bids.contains_key(p) implies after.bids[p].len() > 0 by {
        if !order.is_buy {
            assert(s2.contains_key(p));
        }
    }
    assert forall|p: u64| #[trigger] after.asks.contains_key(p) implies after.asks[p].len() > 0 by {
        if order.is_buy {
            assert(s2.contains_key(p));
        }
    }
}

/// Cancelling keeps the book well formed.
pub proof fn cancel_keeps_well_formed(book: BookState, id: u64)
    requires
        book_well_formed(book),
    ensures
        book_well_formed(cancel_result(book, id)),
{
}

/// Whether `id` occurs exactly once in `q`.
pub open spec fn occurs_once(q: Seq<u64>, id: u64) -> bool {
    &&& q.contains(id)
    &&& forall|i: int, j: int| 0 <= i < q.len() && 0 <= j < q.len() && q[i] == id && q[j] == id ==> i == j
}

/// In a well-formed book every live order is queued exactly once, at its
/// price on its own side, and no live buy is priced at or above a live
/// sell: the book is uncrossed over its live orders.
pub proof fn well_formed_book_live_orders(book: BookState)
    requires
        book_well_formed(book),
    ensures
        forall|id: u64|
            #[trigger] book.orders.contains_key(id) ==> {
                let x = book.orders[id];
                own_side(book, x.is_buy).contains_key(x.price) && occurs_once(own_side(book, x.is_buy)[x.price], id)
            },
        forall|a: u64, b: u64|
            #[trigger] book.orders.contains_key(a) && #[trigger] book.orders.contains_key(b) && book.orders[a].is_buy
                && !book.orders[b].is_buy ==> book.orders[a].price < book.orders[b].price,
{
    assert forall|id: u64| #[trigger] book.orders.contains_key(id) implies {
        let x = book.orders[id];
        own_side(book, x.is_buy).contains_key(x.price) && occurs_once(own_side(book, x.is_buy)[x.price], id)
    } by {
        let x = book.orders[id];
        let q = own_side(book, x.is_buy)[x.price];
        assert forall|i: int, j: int| 0 <= i < q.len() && 0 <= j < q.len() && q[i] == id && q[j] == id implies i == j by {
            if i != j {
                if x.is_buy {
                    assert(book.bids[x.price][i] != book.bids[x.price][j]);
                } else {
                    assert(book.asks[x.price][i] != book.asks[x.price][j]);
                }
            }
        }
    }
    assert forall|a: u64, b: u64|
        #[trigger] book.orders.contains_key(a) && #[trigger] book.orders.contains_key(b) && book.orders[a].is_buy
            && !book.orders[b].is_buy implies book.orders[a].price < book.orders[b].price by {
        assert(book.bids.contains_key(book.orders[a].price));
        assert(book.asks.contains_key(book.orders[b].price));
    }
}

/// A cancelled order never fills and never comes back: an id with no live
/// order stays without one after placing any order under another id.
pub proof fn cancelled_order_stays_gone(book: BookState, order: Order, cancelled: u64)
    requires
        !book.orders.contains_key(cancelled),
        order.id != cancelled,
    ensures
        !place_result(book, order).orders.contains_key(cancelled),
{
    place_only_reduces_resting_orders(book, order);
}

/// The total amount of the live orders `ids` name in `orders`.
pub open spec fn live_total(orders: Map<u64, Order>, ids: Seq<u64>) -> nat
    decreases ids.len(),
{
    if ids.len() == 0 {
        0
    } else {
        live_total(orders, ids.drop_last()) + if orders.contains_key(ids.last()) {
            orders[ids.last()].amount as nat
        } else {
            0
        }
    }
}

/// Every id listed as filled has a zero amount in the walk.
spec fn filled_are_zero(w: Walk) -> bool {
    forall|id: u64| #[trigger] w.filled.contains(id) ==> w.orders.contains_key(id) && w.orders[id].amount == 0
}

/// Replacing the order of an id listed once changes the total by the change
/// of its amount; replacing one not listed changes nothing.
proof fn lemma_live_total_insert(orders: Map<u64, Order>, ids: Seq<u64>, id: u64, o: Order)
    requires
        ids.no_duplicates(),
        orders.contains_key(id),
    ensures
        ids.contains(id) ==> live_total(orders.insert(id, o), ids) + orders[id].amount == live_total(orders, ids)
            + o.amount,
        !ids.contains(id) ==> live_total(orders.insert(id, o), ids) == live_total(orders, ids),
    decreases ids.len(),
{
    if ids.len() > 0 {
        let front = ids.drop_last();
        assert(front.no_duplicates()) by {
            assert forall|a: int, b: int| 0 <= a < front.len() && 0 <= b < front.len() && a != b implies front[a] != front[b] by {
                assert(ids[a] != ids[b]);
            }
        }
        lemma_live_total_insert(orders, front, id, o);
        if ids.last() == id {
            assert(!front.contains(id)) by {
                if front.contains(id) {
                    let k = choose|k: int| 0 <= k < front.len() && front[k] == id;
                    assert(ids[k] == ids[ids.len() - 1]);
                }
            }
        } else {
            if ids.contains(id) {
                let k = choose|k: int| 0 <= k < ids.len() && ids[k] == id;
                assert(front[k] == id);
            }
            if front.contains(id) {
                let k = choose|k: int| 0 <= k < front.len() && front[k] == id;
                assert(ids[k] == id);
            }
        }
    }
}

/// Adding an order under an id that is not listed changes nothing.
proof fn lemma_live_total_insert_unlisted(orders: Map<u64, Order>, ids: Seq<u64>, id: u64, o: Order)
    requires
        !ids.contains(id),
    ensures
        live_total(orders.insert(id, o), ids) == live_total(orders, ids),
    decreases ids.len(),
{
    if ids.len() > 0 {
        let front = ids.drop_last();
        assert(!front.contains(id)) by {
            if front.contains(id) {
                let k = choose|k: int| 0 <= k < front.len() && front[k] == id;
                assert(ids[k] == id);
            }
        }
        lemma_live_total_insert_unlisted(orders, front, id, o);
    }
}

/// Removing orders whose amount is zero changes nothing.
proof fn lemma_live_total_remove_zeros(orders: Map<u64, Order>, ids: Seq<u64>, gone: Set<u64>)
    requires
        forall|id: u64| #[trigger] gone.contains(id) && orders.contains_key(id) ==> orders[id].amount == 0,
    ensures
        live_total(orders.remove_keys(gone), ids) == live_total(orders, ids),
    decreases ids.len(),
{
    if ids.len() > 0 {
        lemma_live_total_remove_zeros(orders, ids.drop_last(), gone);
    }
}

/// Visiting one entry: the fill is taken from the entry's order, and filled
/// ids keep a zero amount.
proof fn lemma_entry_taken(w: Walk, ids: Seq<u64>, id: u64, price: u64, taker: Seq<u8>)
    requires
        ids.no_duplicates(),
        forall|x: u64| #[trigger] w.orders.contains_key(x) ==> ids.contains(x),
        filled_are_zero(w),
    ensures
        filled_are_zero(visit_entry(w, id, price, taker).0),
        total_amount(visit_entry(w, id, price, taker).0.trades) + live_total(visit_entry(w, id, price, taker).0.orders, ids)
            == total_amount(w.trades) + live_total(w.orders, ids),
{
    let w2 = visit_entry(w, id, price, taker).0;
    if w.remaining != 0 && w.orders.contains_key(id) {
        let maker = w.orders[id];
        let fill = if w.remaining <= maker.amount {
            w.remaining
        } else {
            maker.amount
        };
        let left = (maker.amount - fill) as u64;
        lemma_total_push(w.trades, w2.trades.last());
        assert(w2.trades =~= w.trades.push(w2.trades.last()));
        lemma_live_total_insert(w.orders, ids, id, with_amount(maker, left));
        assert forall|x: u64| #[trigger] w2.filled.contains(x) implies w2.orders.contains_key(x) && w2.orders[x].amount == 0 by {
            if x != id {
                if left == 0 {
                    let k = choose|k: int| 0 <= k < w2.filled.len() && w2.filled[k] == x;
                    if k < w.filled.len() {
                        assert(w.filled[k] == x);
                    }
                }
                assert(w.filled.contains(x));
            } else if left != 0 {
                assert(w.filled.contains(x));
            }
        }
    }
}

/// Visiting a queue: every fill is taken from a live order.
proof fn lemma_queue_taken(w: Walk, ids: Seq<u64>, queue: Seq<u64>, price: u64, taker: Seq<u8>)
    requires
        ids.no_duplicates(),
        forall|x: u64| #[trigger] w.orders.contains_key(x) ==> ids.contains(x),
        filled_are_zero(w),
    ensures
        filled_are_zero(visit_queue(w, queue, price, taker).0),
        total_amount(visit_queue(w, queue, price, taker).0.trades) + live_total(visit_queue(w, queue, price, taker).0.orders, ids)
            == total_amount(w.trades) + live_total(w.orders, ids),
    decreases queue.len(),
{
    if queue.len() > 0 {
        let front = queue.drop_last();
        lemma_queue_taken(w, ids, front, price, taker);
        lemma_visit_queue(w, front, price, taker);
        let w1 = visit_queue(w, front, price, taker).0;
        assert forall|x: u64| #[trigger] w1.orders.contains_key(x) implies ids.contains(x) by {
            assert(w.orders.contains_key(x));
        }
        lemma_entry_taken(w1, ids, queue.last(), price, taker);
    }
}

/// Visiting levels: every fill is taken from a live order.
proof fn lemma_levels_taken(
    w: Walk,
    ids: Seq<u64>,
    side: SideView,
    prices: Seq<u64>,
    incoming_is_buy: bool,
    limit: u64,
    taker: Seq<u8>,
)
    requires
        ids.no_duplicates(),
        forall|x: u64| #[trigger] w.orders.contains_key(x) ==> ids.contains(x),
        filled_are_zero(w),
    ensures
        filled_are_zero(visit_levels(w, side, prices, incoming_is_buy, limit, taker).0),
        total_amount(visit_levels(w, side, prices, incoming_is_buy, limit, taker).0.trades) + live_total(
            visit_levels(w, side, prices, incoming_is_buy, limit, taker).0.orders,
            ids,
        ) == total_amount(w.trades) + live_total(w.orders, ids),
    decreases prices.len(),
{
    if prices.len() > 0 {
        let front = prices.drop_last();
        lemma_levels_taken(w, ids, side, front, incoming_is_buy, limit, taker);
        lemma_walk_extends_any_levels(w, side, front, incoming_is_buy, limit, taker);
        let (w1, s1) = visit_levels(w, side, front, incoming_is_buy, limit, taker);
        assert forall|x: u64| #[trigger] w1.orders.contains_key(x) implies ids.contains(x) by {
            assert(w.orders.contains_key(x));
        }
        let p = prices.last();
        if !(w1.remaining == 0 || !crosses(incoming_is_buy, limit, p)) {
            lemma_queue_taken(w1, ids, s1[p], p, taker);
        }
    }
}

/// Fills equal the amount taken from live resting orders: for a new order
/// and any listing of the book's live order ids, the filled amount plus what
/// those orders hold afterwards equals what they held before.
pub proof fn place_fills_equal_amount_taken(book: BookState, order: Order, ids: Seq<u64>)
    requires
        ids.no_duplicates(),
        ids.to_set() == book.orders.dom(),
        !book.orders.contains_key(order.id),
    ensures
        total_amount(place_trades(book, order)) + live_total(place_result(book, order).orders, ids)
            == live_total(book.orders, ids),
{
    let side = opposite_side(book, order.is_buy);
    let start = Walk {
        orders: book.orders,
        remaining: order.amount,
        trades: Seq::empty(),
        filled: Seq::empty(),
    };
    let prices = visiting_order(side, order.is_buy);
    let taker = address_bytes(order.user_address@);
    assert forall|x: u64| #[trigger] book.orders.contains_key(x) implies ids.contains(x) by {
        assert(ids.to_set().contains(x));
    }
    assert(total_amount(Seq::<crate::trade::TradeView>::empty()) == 0);
    lemma_levels_taken(start, ids, side, prices, order.is_buy, order.price, taker);
    lemma_walk_extends_any_levels(start, side, prices, order.is_buy, order.price, taker);
    let (w, s2) = match_pass(book, order);
    let gone = w.filled.to_set();
    lemma_live_total_remove_zeros(w.orders, ids, gone);
    if w.remaining > 0 {
        assert(!ids.contains(order.id)) by {
            if ids.contains(order.id) {
                assert(ids.to_set().contains(order.id));
            }
        }
        lemma_live_total_insert_unlisted(w.orders.remove_keys(gone), ids, order.id, with_amount(order, w.remaining));
    }
}

/// Every fill of a placement is at a price level the opposite side held
/// before.
pub proof fn place_fills_at_existing_levels(book: BookState, order: Order)
    requires
        book_valid(book),
    ensures
        forall|i: int|
            0 <= i < place_trades(book, order).len() ==> opposite_side(book, order.is_buy).contains_key(
                (#[trigger] place_trades(book, order)[i]).price,
            ),
{
    lemma_match_pass(book, order);
    let side = opposite_side(book, order.is_buy);
    lemma_visiting_order(side, order.is_buy);
    let prices = visiting_order(side, order.is_buy);
    let ts = place_trades(book, order);
    assert forall|i: int| 0 <= i < ts.len() implies side.contains_key((#[trigger] ts[i]).price) by {
        assert(crate::book_laws::level_price_ok(prices, order.is_buy, order.price)(ts[i].price));
        let k = choose|k: int| 0 <= k < prices.len() && prices[k] == ts[i].price;
        assert(side.contains_key(prices[k]));
    }
}

/// A new order that fills completely is not in the book afterwards.
pub proof fn place_fully_filled_order_absent(book: BookState, order: Order)
    requires
        !book.orders.contains_key(order.id),
        total_amount(place_trades(book, order)) == order.amount,
    ensures
        !place_result(book, order).orders.contains_key(order.id),
{
    place_conserves_volume(book, order);
    place_only_reduces_resting_orders(book, order);
    let side = opposite_side(book, order.is_buy);
    let start = Walk {
        orders: book.orders,
        remaining: order.amount,
        trades: Seq::empty(),
        filled: Seq::empty(),
    };
    let prices = visiting_order(side, order.is_buy);
    lemma_walk_extends_any_levels(start, side, prices, order.is_buy, order.price, address_bytes(order.user_address@));
    assert(total_amount(Seq::<crate::trade::TradeView>::empty()) == 0);
}

/// Visiting a queue touches only the orders it lists.
proof fn lemma_queue_touches_listed(w: Walk, queue: Seq<u64>, price: u64, taker: Seq<u8>)
    ensures
        forall|id: u64|
            !queue.contains(id) && w.orders.contains_key(id) ==> #[trigger] visit_queue(w, queue, price, taker).0.orders[id]
                == w.orders[id],
        forall|id: u64|
            !queue.contains(id) && !w.filled.contains(id) ==> !(#[trigger] visit_queue(w, queue, price, taker).0.filled.contains(id)),
    decreases queue.len(),
{
    if queue.len() > 0 {
        let front = queue.drop_last();
        lemma_queue_touches_listed(w, front, price, taker);
        let w1 = visit_queue(w, front, price, taker).0;
        let w2 = visit_queue(w, queue, price, taker).0;
        let x = queue.last();
        assert forall|id: u64| !queue.contains(id) implies !front.contains(id) && id != x by {
            assert(queue[queue.len() - 1] == x);
            if front.contains(id) {
                let k = choose|k: int| 0 <= k < front.len() && front[k] == id;
                assert(queue[k] == id);
            }
        }
        assert forall|id: u64| !queue.contains(id) && w.orders.contains_key(id) implies #[trigger] w2.orders[id] == w.orders[id] by {
            assert(w1.orders[id] == w.orders[id]);
        }
        assert forall|id: u64| !queue.contains(id) && !w.filled.contains(id) implies !(#[trigger] w2.filled.contains(id)) by {
            assert(!w1.filled.contains(id));
            if w2.filled.contains(id) && w2.filled != w1.filled {
                let k = choose|k: int| 0 <= k < w2.filled.len() && w2.filled[k] == id;
                if k < w1.filled.len() {
                    assert(w1.filled[k] == id);
                }
            }
        }
    }
}

/// Visiting distinct levels of a side touches only orders queued on it.
proof fn lemma_levels_touch_queued(
    w: Walk,
    side: SideView,
    prices: Seq<u64>,
    incoming_is_buy: bool,
    limit: u64,
    taker: Seq<u8>,
)
    requires
        prices.no_duplicates(),
        forall|i: int| 0 <= i < prices.len() ==> side.contains_key(#[trigger] prices[i]),
    ensures
        forall|id: u64|
            not_queued(side, id) && w.orders.contains_key(id) ==> #[trigger] visit_levels(
                w,
                side,
                prices,
                incoming_is_buy,
                limit,
                taker,
            ).0.orders[id] == w.orders[id],
        forall|id: u64|
            not_queued(side, id) && !w.filled.contains(id) ==> !(#[trigger] visit_levels(
                w,
                side,
                prices,
                incoming_is_buy,
                limit,
                taker,
            ).0.filled.contains(id)),
    decreases prices.len(),
{
    if prices.len() > 0 {
        let front = prices.drop_last();
        assert(front.no_duplicates()) by {
            assert forall|a: int, b: int| 0 <= a < front.len() && 0 <= b < front.len() && a != b implies front[a] != front[b] by {
                assert(prices[a] != prices[b]);
            }
        }
        assert forall|i: int| 0 <= i < front.len() implies side.contains_key(#[trigger] front[i]) by {
            assert(side.contains_key(prices[i]));
        }
        lemma_levels_touch_queued(w, side, front, incoming_is_buy, limit, taker);
        lemma_levels_untouched_outside(w, side, front, incoming_is_buy, limit, taker);
        lemma_walk_extends_any_levels(w, side, front, incoming_is_buy, limit, taker);
        let (w1, s1) = visit_levels(w, side, front, incoming_is_buy, limit, taker);
        let w2 = visit_levels(w, side, prices, incoming_is_buy, limit, taker).0;
        let last = prices.last();
        assert(!front.contains(last)) by {
            if front.contains(last) {
                let i = choose|i: int| 0 <= i < front.len() && front[i] == last;
                assert(prices[i] == prices[prices.len() - 1]);
            }
        }
        assert(side.contains_key(prices[prices.len() - 1]));
        assert(s1.contains_key(last) == side.contains_key(last));
        if !(w1.remaining == 0 || !crosses(incoming_is_buy, limit, last)) {
            lemma_queue_touches_listed(w1, s1[last], last, taker);
            assert forall|id: u64| not_queued(side, id) implies !s1[last].contains(id) by {
                if s1[last].contains(id) {
                    let k = choose|k: int| 0 <= k < s1[last].len() && s1[last][k] == id;
                    assert(side[last][k] == id);
                }
            }
            assert forall|id: u64| not_queued(side, id) && w.orders.contains_key(id) implies #[trigger] w2.orders[id]
                == w.orders[id] by {
                assert(w1.orders.contains_key(id));
                assert(!s1[last].contains(id));
            }
            assert forall|id: u64| not_queued(side, id) && !w.filled.contains(id) implies !(#[trigger] w2.filled.contains(id)) by {
                assert(!s1[last].contains(id));
            }
        }
    }
}

/// In a well-formed book, placing a new order leaves every live order on its
/// own side exactly as it was.
pub proof fn place_leaves_own_side_orders(book: BookState, order: Order)
    requires
        book_well_formed(book),
        !book.orders.contains_key(order.id),
    ensures
        forall|id: u64|
            #[trigger] book.orders.contains_key(id) && book.orders[id].is_buy == order.is_buy ==> place_result(
                book,
                order,
            ).orders.contains_key(id) && place_result(book, order).orders[id] == book.orders[id],
{
    let side = opposite_side(book, order.is_buy);
    let start = Walk {
        orders: book.orders,
        remaining: order.amount,
        trades: Seq::empty(),
        filled: Seq::empty(),
    };
    let prices = visiting_order(side, order.is_buy);
    let taker = address_bytes(order.user_address@);
    lemma_visiting_order(side, order.is_buy);
    assert(prices.no_duplicates()) by {
        assert forall|i: int, j: int| 0 <= i < prices.len() && 0 <= j < prices.len() && i != j implies prices[i] != prices[j] by {
            if i < j {
                assert(visited_no_later(order.is_buy, prices[i], prices[j]));
            } else {
                assert(visited_no_later(order.is_buy, prices[j], prices[i]));
            }
        }
    }
    lemma_levels_touch_queued(start, side, prices, order.is_buy, order.price, taker);
    lemma_walk_extends_any_levels(start, side, prices, order.is_buy, order.price, taker);
    let (w, s2) = match_pass(book, order);
    let after = place_result(book, order);
    assert forall|id: u64| #[trigger] book.orders.contains_key(id) && book.orders[id].is_buy == order.is_buy implies
        after.orders.contains_key(id) && after.orders[id] == book.orders[id] by {
        assert(not_queued(side, id)) by {
            assert forall|p: u64, k: int| side.contains_key(p) && 0 <= k < side[p].len() implies #[trigger] side[p][k] != id by {
                if side[p][k] == id {
                    assert(side[p].contains(id));
                }
            }
        }
        assert(!w.filled.to_set().contains(id));
        assert(w.orders[id] == book.orders[id]);
    }
}

/// What `o` holds for the account whose address bytes are `key` at `price`:
/// its amount when it is that account's order at that price, else nothing.
pub open spec fn held_for(o: Order, key: Seq<u8>, price: u64) -> nat {
    if address_bytes(o.user_address@) == key && o.price == price {
        o.amount as nat
    } else {
        0
    }
}

/// The total that the live orders `ids` name in `orders` hold for the
/// account whose address bytes are `key`, at `price`.
pub open spec fn maker_holds(orders: Map<u64, Order>, ids: Seq<u64>, key: Seq<u8>, price: u64) -> nat
    decreases ids.len(),
{
    if ids.len() == 0 {
        0
    } else {
        maker_holds(orders, ids.drop_last(), key, price) + if orders.contains_key(ids.last()) {
            held_for(orders[ids.last()], key, price)
        } else {
            0
        }
    }
}

/// The total amount of the fills in `ts` that name `key` as maker at `price`.
pub open spec fn maker_fills(ts: Seq<crate::trade::TradeView>, key: Seq<u8>, price: u64) -> nat
    decreases ts.len(),
{
    if ts.len() == 0 {
        0
    } else {
        maker_fills(ts.drop_last(), key, price) + if ts.last().maker_pubkey == key && ts.last().price
            == price {
            ts.last().amount as nat
        } else {
            0
        }
    }
}

proof fn lemma_maker_fills_push(ts: Seq<crate::trade::TradeView>, t: crate::trade::TradeView, key: Seq<u8>, price: u64)
    ensures
        maker_fills(ts.push(t), key, price) == maker_fills(ts, key, price) + if t.maker_pubkey == key
            && t.price == price {
            t.amount as nat
        } else {
            0
        },
{
    assert(ts.push(t).drop_last() =~= ts);
}

/// Replacing the order of an id listed once changes what the account holds
/// by the change of that order's holding; replacing one not listed changes
/// nothing.
proof fn lemma_maker_holds_insert(
    orders: Map<u64, Order>,
    ids: Seq<u64>,
    id: u64,
    o: Order,
    key: Seq<u8>,
    price: u64,
)
    requires
        ids.no_duplicates(),
        orders.contains_key(id),
    ensures
        ids.contains(id) ==> maker_holds(orders.insert(id, o), ids, key, price) + held_for(orders[id], key, price)
            == maker_holds(orders, ids, key, price) + held_for(o, key, price),
        !ids.contains(id) ==> maker_holds(orders.insert(id, o), ids, key, price) == maker_holds(
            orders,
            ids,
            key,
            price,
        ),
    decreases ids.len(),
{
    if ids.len() > 0 {
        let front = ids.drop_last();
        assert(front.no_duplicates()) by {
            assert forall|a: int, b: int| 0 <= a < front.len() && 0 <= b < front.len() && a != b implies front[a] != front[b] by {
                assert(ids[a] != ids[b]);
            }
        }
        lemma_maker_holds_insert(orders, front, id, o, key, price);
        if ids.last() == id {
            assert(!front.contains(id)) by {
                if front.contains(id) {
                    let k = choose|k: int| 0 <= k < front.len() && front[k] == id;
                    assert(ids[k] == ids[ids.len() - 1]);
                }
            }
        } else {
            if ids.contains(id) {
                let k = choose|k: int| 0 <= k < ids.len() && ids[k] == id;
                assert(front[k] == id);
            }
            if front.contains(id) {
                let k = choose|k: int| 0 <= k < front.len() && front[k] == id;
                assert(ids[k] == id);
            }
        }
    }
}

/// Adding an order under an id that is not listed changes nothing.
proof fn lemma_maker_holds_insert_unlisted(
    orders: Map<u64, Order>,
    ids: Seq<u64>,
    id: u64,
    o: Order,
    key: Seq<u8>,
    price: u64,
)
    requires
        !ids.contains(id),
    ensures
        maker_holds(orders.insert(id, o), ids, key, price) == maker_holds(orders, ids, key, price),
    decreases ids.len(),
{
    if ids.len() > 0 {
        let front = ids.drop_last();
        assert(!front.contains(id)) by {
            if front.contains(id) {
                let k = choose|k: int| 0 <= k < front.len() && front[k] == id;
                assert(ids[k] == id);
            }
        }
        lemma_maker_holds_insert_unlisted(orders, front, id, o, key, price);
    }
}

/// Removing orders whose amount is zero changes nothing.
proof fn lemma_maker_holds_remove_zeros(
    orders: Map<u64, Order>,
    ids: Seq<u64>,
    gone: Set<u64>,
    key: Seq<u8>,
    price: u64,
)
    requires
        forall|id: u64| #[trigger] gone.contains(id) && orders.contains_key(id) ==> orders[id].amount == 0,
    ensures
        maker_holds(orders.remove_keys(gone), ids, key, price) == maker_holds(orders, ids, key, price),
    decreases ids.len(),
{
    if ids.len() > 0 {
        lemma_maker_holds_remove_zeros(orders, ids.drop_last(), gone, key, price);
    }
}

/// Visiting one entry whose order rests at the level price: the fill names
/// that order's account and is taken from what it holds there.
proof fn lemma_entry_by_maker(
    w: Walk,
    ids: Seq<u64>,
    id: u64,
    level: u64,
    taker: Seq<u8>,
    key: Seq<u8>,
    price: u64,
)
    requires
        ids.no_duplicates(),
        forall|x: u64| #[trigger] w.orders.contains_key(x) ==> ids.contains(x),
        w.orders.contains_key(id) ==> w.orders[id].price == level,
    ensures
        maker_fills(visit_entry(w, id, level, taker).0.trades, key, price) + maker_holds(
            visit_entry(w, id, level, taker).0.orders,
            ids,
            key,
            price,
        ) == maker_fills(w.trades, key, price) + maker_holds(w.orders, ids, key, price),
{
    let w2 = visit_entry(w, id, level, taker).0;
    if w.remaining != 0 && w.orders.contains_key(id) {
        let maker = w.orders[id];
        let fill = if w.remaining <= maker.amount {
            w.remaining
        } else {
            maker.amount
        };
        let left = (maker.amount - fill) as u64;
        lemma_maker_fills_push(w.trades, w2.trades.last(), key, price);
        assert(w2.trades =~= w.trades.push(w2.trades.last()));
        lemma_maker_holds_insert(w.orders, ids, id, with_amount(maker, left), key, price);
        assert(w2.orders == w.orders.insert(id, with_amount(maker, left)));
    }
}

/// Visiting a queue whose live orders rest at the level price: every fill
/// names the account of the order it is taken from.
proof fn lemma_queue_by_maker(
    w: Walk,
    ids: Seq<u64>,
    queue: Seq<u64>,
    level: u64,
    taker: Seq<u8>,
    key: Seq<u8>,
    price: u64,
)
    requires
        ids.no_duplicates(),
        forall|x: u64| #[trigger] w.orders.contains_key(x) ==> ids.contains(x),
        forall|x: u64| queue.contains(x) && #[trigger] w.orders.contains_key(x) ==> w.orders[x].price == level,
    ensures
        maker_fills(visit_queue(w, queue, level, taker).0.trades, key, price) + maker_holds(
            visit_queue(w, queue, level, taker).0.orders,
            ids,
            key,
            price,
        ) == maker_fills(w.trades, key, price) + maker_holds(w.orders, ids, key, price),
    decreases queue.len(),
{
    if queue.len() > 0 {
        let front = queue.drop_last();
        assert forall|x: u64| front.contains(x) && #[trigger] w.orders.contains_key(x) implies w.orders[x].price
            == level by {
            let k = choose|k: int| 0 <= k < front.len() && front[k] == x;
            assert(queue[k] == x);
        }
        lemma_queue_by_maker(w, ids, front, level, taker, key, price);
        lemma_visit_queue(w, front, level, taker);
        let w1 = visit_queue(w, front, level, taker).0;
        assert forall|x: u64| #[trigger] w1.orders.contains_key(x) implies ids.contains(x) by {
            assert(w.orders.contains_key(x));
        }
        let x = queue.last();
        if w1.orders.contains_key(x) {
            assert(w.orders.contains_key(x));
            assert(w1.orders[x] == with_amount(w.orders[x], w1.orders[x].amount));
            assert(queue.contains(x)) by {
                assert(queue[queue.len() - 1] == x);
            }
        }
        lemma_entry_by_maker(w1, ids, x, level, taker, key, price);
    }
}

/// Visiting distinct levels of a side whose live queued orders rest at their
/// level's price: every fill names the account of the order it is taken
/// from.
proof fn lemma_levels_by_maker(
    w: Walk,
    ids: Seq<u64>,
    side: SideView,
    prices: Seq<u64>,
    incoming_is_buy: bool,
    limit: u64,
    taker: Seq<u8>,
    key: Seq<u8>,
    price: u64,
)
    requires
        ids.no_duplicates(),
        forall|x: u64| #[trigger] w.orders.contains_key(x) ==> ids.contains(x),
        prices.no_duplicates(),
        forall|i: int| 0 <= i < prices.len() ==> side.contains_key(#[trigger] prices[i]),
        forall|p: u64, x: u64|
            side.contains_key(p) && #[trigger] side[p].contains(x) && #[trigger] w.orders.contains_key(x)
                ==> w.orders[x].price == p,
    ensures
        maker_fills(visit_levels(w, side, prices, incoming_is_buy, limit, taker).0.trades, key, price)
            + maker_holds(visit_levels(w, side, prices, incoming_is_buy, limit, taker).0.orders, ids, key, price)
            == maker_fills(w.trades, key, price) + maker_holds(w.orders, ids, key, price),
    decreases prices.len(),
{
    if prices.len() > 0 {
        let front = prices.drop_last();
        assert(front.no_duplicates()) by {
            assert forall|a: int, b: int| 0 <= a < front.len() && 0 <= b < front.len() && a != b implies front[a] != front[b] by {
                assert(prices[a] != prices[b]);
            }
        }
        assert forall|i: int| 0 <= i < front.len() implies side.contains_key(#[trigger] front[i]) by {
            assert(side.contains_key(prices[i]));
        }
        lemma_levels_by_maker(w, ids, side, front, incoming_is_buy, limit, taker, key, price);
        lemma_walk_extends_any_levels(w, side, front, incoming_is_buy, limit, taker);
        lemma_levels_untouched_outside(w, side, front, incoming_is_buy, limit, taker);
        let (w1, s1) = visit_levels(w, side, front, incoming_is_buy, limit, taker);
        assert forall|x: u64| #[trigger] w1.orders.contains_key(x) implies ids.contains(x) by {
            assert(w.orders.contains_key(x));
        }
        let p = prices.last();
        if !(w1.remaining == 0 || !crosses(incoming_is_buy, limit, p)) {
            assert(!front.contains(p)) by {
                if front.contains(p) {
                    let i = choose|i: int| 0 <= i < front.len() && front[i] == p;
                    assert(prices[i] == prices[prices.len() - 1]);
                }
            }
            assert(side.contains_key(prices[prices.len() - 1]));
            assert(s1.contains_key(p) == side.contains_key(p) && s1[p] == side[p]);
            assert forall|x: u64| s1[p].contains(x) && #[trigger] w1.orders.contains_key(x) implies w1.orders[x].price
                == p by {
                assert(w.orders.contains_key(x));
                assert(w1.orders[x] == with_amount(w.orders[x], w1.orders[x].amount));
            }
            lemma_queue_by_maker(w1, ids, s1[p], p, taker, key, price);
        }
    }
}

/// Every fill names as maker the account of the resting order it was taken
/// from, at that order's price: in a well-formed book, for a new order, any
/// listing of the live order ids, any account (by its address bytes) and
/// any price, the amount of the fills that name that account as maker at
/// that price, plus what that account's orders at that price hold
/// afterwards, equals what they held before.
pub proof fn place_fills_taken_from_named_maker(
    book: BookState,
    order: Order,
    ids: Seq<u64>,
    key: Seq<u8>,
    price: u64,
)
    requires
        book_well_formed(book),
        ids.no_duplicates(),
        ids.to_set() == book.orders.dom(),
        !book.orders.contains_key(order.id),
    ensures
        maker_fills(place_trades(book, order), key, price) + maker_holds(
            place_result(book, order).orders,
            ids,
            key,
            price,
        ) == maker_holds(book.orders, ids, key, price),
{
    let side = opposite_side(book, order.is_buy);
    let start = Walk {
        orders: book.orders,
        remaining: order.amount,
        trades: Seq::empty(),
        filled: Seq::empty(),
    };
    let prices = visiting_order(side, order.is_buy);
    let taker = address_bytes(order.user_address@);
    lemma_visiting_order(side, order.is_buy);
    assert(prices.no_duplicates()) by {
        assert forall|i: int, j: int| 0 <= i < prices.len() && 0 <= j < prices.len() && i != j implies prices[i] != prices[j] by {
            if i < j {
                assert(visited_no_later(order.is_buy, prices[i], prices[j]));
            } else {
                assert(visited_no_later(order.is_buy, prices[j], prices[i]));
            }
        }
    }
    assert forall|x: u64| #[trigger] book.orders.contains_key(x) implies ids.contains(x) by {
        assert(ids.to_set().contains(x));
    }
    assert forall|p: u64, x: u64|
        side.contains_key(p) && #[trigger] side[p].contains(x) && #[trigger] book.orders.contains_key(x) implies book.orders[x].price
            == p by {
    }
    assert(maker_fills(Seq::<crate::trade::TradeView>::empty(), key, price) == 0);
    lemma_levels_by_maker(start, ids, side, prices, order.is_buy, order.price, taker, key, price);
    lemma_levels_taken(start, ids, side, prices, order.is_buy, order.price, taker);
    lemma_walk_extends_any_levels(start, side, prices, order.is_buy, order.price, taker);
    let (w, s2) = match_pass(book, order);
    let gone = w.filled.to_set();
    lemma_maker_holds_remove_zeros(w.orders, ids, gone, key, price);
    if w.remaining > 0 {
        assert(!ids.contains(order.id)) by {
            if ids.contains(order.id) {
                assert(ids.to_set().contains(order.id));
            }
        }
        lemma_maker_holds_insert_unlisted(
            w.orders.remove_keys(gone),
            ids,
            order.id,
            with_amount(order, w.remaining),
            key,
            price,
        );
    }
}

/// Visiting one entry keeps every filled id at a zero amount.
proof fn lemma_entry_filled_zero(w: Walk, id: u64, price: u64, taker: Seq<u8>)
    requires
        filled_are_zero(w),
    ensures
        filled_are_zero(visit_entry(w, id, price, taker).0),
{
    let w2 = visit_entry(w, id, price, taker).0;
    if w.remaining != 0 && w.orders.contains_key(id) {
        let maker = w.orders[id];
        let left = (maker.amount - if w.remaining <= maker.amount {
            w.remaining
        } else {
            maker.amount
        }) as u64;
        assert forall|x: u64| #[trigger] w2.filled.contains(x) implies w2.orders.contains_key(x) && w2.orders[x].amount == 0 by {
            if x != id {
                if left == 0 {
                    let k = choose|k: int| 0 <= k < w2.filled.len() && w2.filled[k] == x;
                    if k < w.filled.len() {
                        assert(w.filled[k] == x);
                    }
                }
                assert(w.filled.contains(x));
            } else if left != 0 {
                assert(w.filled.contains(x));
            }
        }
    }
}

/// Visiting a queue keeps every filled id at a zero amount.
proof fn lemma_queue_filled_zero(w: Walk, queue: Seq<u64>, price: u64, taker: Seq<u8>)
    requires
        filled_are_zero(w),
    ensures
        filled_are_zero(visit_queue(w, queue, price, taker).0),
    decreases queue.len(),
{
    if queue.len() > 0 {
        lemma_queue_filled_zero(w, queue.drop_last(), price, taker);
        lemma_entry_filled_zero(visit_queue(w, queue.drop_last(), price, taker).0, queue.last(), price, taker);
    }
}

/// Visiting levels keeps every filled id at a zero amount.
proof fn lemma_levels_filled_zero(
    w: Walk,
    side: SideView,
    prices: Seq<u64>,
    incoming_is_buy: bool,
    limit: u64,
    taker: Seq<u8>,
)
    requires
        filled_are_zero(w),
    ensures
        filled_are_zero(visit_levels(w, side, prices, incoming_is_buy, limit, taker).0),
    decreases prices.len(),
{
    if prices.len() > 0 {
        let front = prices.drop_last();
        lemma_levels_filled_zero(w, side, front, incoming_is_buy, limit, taker);
        let (w1, s1) = visit_levels(w, side, front, incoming_is_buy, limit, taker);
        let p = prices.last();
        if !(w1.remaining == 0 || !crosses(incoming_is_buy, limit, p)) {
            lemma_queue_filled_zero(w1, s1[p], p, taker);
        }
    }
}

/// When something is still left to fill after a queue, every entry of it
/// that was live has been filled completely.
proof fn lemma_queue_left_means_filled(w: Walk, queue: Seq<u64>, price: u64, taker: Seq<u8>)
    ensures
        visit_queue(w, queue, price, taker).0.remaining > 0 ==> forall|x: u64|
            queue.contains(x) && #[trigger] w.orders.contains_key(x) ==> visit_queue(
                w,
                queue,
                price,
                taker,
            ).0.filled.contains(x),
    decreases queue.len(),
{
    if queue.len() > 0 {
        let front = queue.drop_last();
        let x = queue.last();
        lemma_queue_left_means_filled(w, front, price, taker);
        lemma_visit_queue(w, front, price, taker);
        let w1 = visit_queue(w, front, price, taker).0;
        lemma_visit_entry(w1, x, price, taker);
        let w2 = visit_queue(w, queue, price, taker).0;
        if w2.remaining > 0 {
            assert forall|y: u64| queue.contains(y) && #[trigger] w.orders.contains_key(y) implies w2.filled.contains(y) by {
                let k = choose|k: int| 0 <= k < queue.len() && queue[k] == y;
                if k < front.len() {
                    assert(front[k] == y);
                    assert(w1.filled.contains(y));
                } else {
                    assert(y == x);
                    assert(w1.orders.contains_key(x));
                    assert(w2.filled.last() == x);
                    assert(w2.filled[w2.filled.len() - 1] == x);
                }
            }
        }
    }
}

/// Time priority within a queue: when the visit takes anything from a live
/// entry, every live entry ahead of it has been filled completely.
proof fn lemma_queue_front_first(w: Walk, queue: Seq<u64>, price: u64, taker: Seq<u8>)
    requires
        queue.no_duplicates(),
    ensures
        forall|i: int, j: int|
            0 <= i < j < queue.len() && w.orders.contains_key(queue[i]) && w.orders.contains_key(queue[j])
                && (#[trigger] visit_queue(w, queue, price, taker).0.orders[queue[j]]).amount < w.orders[queue[j]].amount
                ==> visit_queue(w, queue, price, taker).0.filled.contains(#[trigger] queue[i]),
    decreases queue.len(),
{
    if queue.len() > 0 {
        let front = queue.drop_last();
        let x = queue.last();
        assert(front.no_duplicates()) by {
            assert forall|a: int, b: int| 0 <= a < front.len() && 0 <= b < front.len() && a != b implies front[a] != front[b] by {
                assert(queue[a] != queue[b]);
            }
        }
        lemma_queue_front_first(w, front, price, taker);
        lemma_queue_left_means_filled(w, front, price, taker);
        lemma_queue_touches_listed(w, front, price, taker);
        lemma_visit_queue(w, front, price, taker);
        let w1 = visit_queue(w, front, price, taker).0;
        lemma_visit_entry(w1, x, price, taker);
        let w2 = visit_queue(w, queue, price, taker).0;
        assert(!front.contains(x)) by {
            if front.contains(x) {
                let k = choose|k: int| 0 <= k < front.len() && front[k] == x;
                assert(queue[k] == queue[queue.len() - 1]);
            }
        }
        assert forall|i: int, j: int|
            0 <= i < j < queue.len() && w.orders.contains_key(queue[i]) && w.orders.contains_key(queue[j])
                && (#[trigger] w2.orders[queue[j]]).amount < w.orders[queue[j]].amount implies w2.filled.contains(
            #[trigger] queue[i],
        ) by {
            assert(front[i] == queue[i]);
            if j < front.len() {
                assert(front[j] == queue[j]);
                assert(queue[j] != x) by {
                    assert(queue[j] != queue[queue.len() - 1]);
                }
                assert(w2.orders[queue[j]] == w1.orders[queue[j]]);
                assert(w1.filled.contains(queue[i]));
            } else {
                assert(queue[j] == x);
                assert(w1.orders[x] == w.orders[x]);
                assert(w1.remaining != 0);
                assert(front.contains(queue[i]));
                assert(w1.filled.contains(queue[i]));
            }
        }
    }
}

/// Time priority over the levels of a side whose ids are distinct: when a
/// visit takes anything from a live queued order, every live order queued
/// ahead of it at its level has been filled completely.
proof fn lemma_levels_front_first(
    w: Walk,
    side: SideView,
    prices: Seq<u64>,
    incoming_is_buy: bool,
    limit: u64,
    taker: Seq<u8>,
)
    requires
        prices.no_duplicates(),
        forall|i: int| 0 <= i < prices.len() ==> side.contains_key(#[trigger] prices[i]),
        crate::book_laws::queue_ids_distinct(side),
    ensures
        forall|p: u64, i: int, j: int|
            side.contains_key(p) && 0 <= i < j < side[p].len() && w.orders.contains_key(side[p][i])
                && w.orders.contains_key(side[p][j]) && (#[trigger] visit_levels(
                w,
                side,
                prices,
                incoming_is_buy,
                limit,
                taker,
            ).0.orders[side[p][j]]).amount < w.orders[side[p][j]].amount ==> visit_levels(
                w,
                side,
                prices,
                incoming_is_buy,
                limit,
                taker,
            ).0.filled.contains(#[trigger] side[p][i]),
    decreases prices.len(),
{
    if prices.len() > 0 {
        let front = prices.drop_last();
        assert(front.no_duplicates()) by {
            assert forall|a: int, b: int| 0 <= a < front.len() && 0 <= b < front.len() && a != b implies front[a] != front[b] by {
                assert(prices[a] != prices[b]);
            }
        }
        assert forall|i: int| 0 <= i < front.len() implies side.contains_key(#[trigger] front[i]) by {
            assert(side.contains_key(prices[i]));
        }
        lemma_levels_front_first(w, side, front, incoming_is_buy, limit, taker);
        lemma_levels_untouched_outside(w, side, front, incoming_is_buy, limit, taker);
        lemma_walk_extends_any_levels(w, side, front, incoming_is_buy, limit, taker);
        let (w1, s1) = visit_levels(w, side, front, incoming_is_buy, limit, taker);
        let w2 = visit_levels(w, side, prices, incoming_is_buy, limit, taker).0;
        let last = prices.last();
        assert(!front.contains(last)) by {
            if front.contains(last) {
                let i = choose|i: int| 0 <= i < front.len() && front[i] == last;
                assert(prices[i] == prices[prices.len() - 1]);
            }
        }
        assert(side.contains_key(prices[prices.len() - 1]));
        if !(w1.remaining == 0 || !crosses(incoming_is_buy, limit, last)) {
            let q = s1[last];
            assert(s1.contains_key(last) == side.contains_key(last));
            assert(q == side[last]);
            assert(q.no_duplicates()) by {
                assert forall|a: int, b: int| 0 <= a < q.len() && 0 <= b < q.len() && a != b implies q[a] != q[b] by {
                    assert(side[last][a] != side[last][b]);
                }
            }
            lemma_queue_front_first(w1, q, last, taker);
            lemma_queue_touches_listed(w1, q, last, taker);
            lemma_visit_queue(w1, q, last, taker);
            assert forall|p: u64, i: int, j: int|
                side.contains_key(p) && 0 <= i < j < side[p].len() && w.orders.contains_key(side[p][i])
                    && w.orders.contains_key(side[p][j]) && (#[trigger] w2.orders[side[p][j]]).amount
                    < w.orders[side[p][j]].amount implies w2.filled.contains(#[trigger] side[p][i]) by {
                let y = side[p][j];
                assert(w1.orders.contains_key(y));
                if w1.orders[y].amount < w.orders[y].amount {
                    assert(w1.filled.contains(side[p][i]));
                } else {
                    assert(q.contains(y)) by {
                        if !q.contains(y) {
                            assert(w2.orders[y] == w1.orders[y]);
                        }
                    }
                    let k = choose|k: int| 0 <= k < q.len() && q[k] == y;
                    assert(side[last][k] == side[p][j]);
                    assert(p == last && k == j);
                    assert(w1.orders.contains_key(q[i]));
                    assert(w2.filled.contains(q[i]));
                }
            }
        }
    }
}

/// Time priority within a price level: in a well-formed book, when placing
/// a new order takes anything from a live resting order (the order leaves
/// the book or its amount drops), every live order queued ahead of it at
/// the same level has been filled completely and left the book.
pub proof fn place_fills_queue_front_first(book: BookState, order: Order, p: u64, i: int, j: int)
    requires
        book_well_formed(book),
        !book.orders.contains_key(order.id),
        opposite_side(book, order.is_buy).contains_key(p),
        0 <= i < j < opposite_side(book, order.is_buy)[p].len(),
        book.orders.contains_key(opposite_side(book, order.is_buy)[p][i]),
        book.orders.contains_key(opposite_side(book, order.is_buy)[p][j]),
        !place_result(book, order).orders.contains_key(opposite_side(book, order.is_buy)[p][j])
            || place_result(book, order).orders[opposite_side(book, order.is_buy)[p][j]].amount
            < book.orders[opposite_side(book, order.is_buy)[p][j]].amount,
    ensures
        !place_result(book, order).orders.contains_key(opposite_side(book, order.is_buy)[p][i]),
{
    let side = opposite_side(book, order.is_buy);
    let start = Walk {
        orders: book.orders,
        remaining: order.amount,
        trades: Seq::empty(),
        filled: Seq::empty(),
    };
    let prices = visiting_order(side, order.is_buy);
    let taker = address_bytes(order.user_address@);
    lemma_visiting_order(side, order.is_buy);
    assert(prices.no_duplicates()) by {
        assert forall|a: int, b: int| 0 <= a < prices.len() && 0 <= b < prices.len() && a != b implies prices[a] != prices[b] by {
            if a < b {
                assert(visited_no_later(order.is_buy, prices[a], prices[b]));
            } else {
                assert(visited_no_later(order.is_buy, prices[b], prices[a]));
            }
        }
    }
    lemma_levels_front_first(start, side, prices, order.is_buy, order.price, taker);
    lemma_levels_filled_zero(start, side, prices, order.is_buy, order.price, taker);
    lemma_walk_extends_any_levels(start, side, prices, order.is_buy, order.price, taker);
    let (w, s2) = match_pass(book, order);
    let after = place_result(book, order);
    let xi = side[p][i];
    let xj = side[p][j];
    let gone = w.filled.to_set();
    assert(xj != order.id && xi != order.id);
    assert(w.orders.contains_key(xj));
    if !after.orders.contains_key(xj) {
        assert(gone.contains(xj));
        assert(w.orders[xj].amount == 0);
        assert(book.orders[xj].amount > 0);
    } else {
        assert(after.orders[xj] == w.orders[xj]);
    }
    assert(w.orders[xj].amount < book.orders[xj].amount);
    assert(w.filled.contains(xi));
    assert(gone.contains(xi));
}

} // verus!
