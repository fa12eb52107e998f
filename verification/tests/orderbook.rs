use sequencer::orderbook::{Order, OrderBook};

fn order(id: u64, user: &str, price: u64, amount: u64, is_buy: bool) -> Order {
    Order { id, user_address: user.to_string(), price, amount, is_buy, timestamp: 1000 + id }
}

#[test]
fn empty_book_has_no_orders() {
    let book = OrderBook::new();
    assert!(book.get_order(1).is_none());
    assert!(book.asks.is_empty());
    assert!(book.bids.is_empty());
}

#[test]
fn buy_rests_on_empty_book() {
    let mut book = OrderBook::new();
    let fills = book.place_order(order(1, "alice", 100, 5, true));
    assert!(fills.is_empty());
    let o = book.get_order(1).unwrap();
    assert_eq!(o.amount, 5);
    assert_eq!(o.price, 100);
    assert_eq!(book.bids.get(&100), Some(&vec![1]));
    assert!(book.asks.is_empty());
}

#[test]
fn sell_rests_on_empty_book() {
    let mut book = OrderBook::new();
    let fills = book.place_order(order(7, "bob", 120, 3, false));
    assert!(fills.is_empty());
    assert_eq!(book.asks.get(&120), Some(&vec![7]));
    assert!(book.bids.is_empty());
}

#[test]
fn full_fill_removes_both_orders() {
    let mut book = OrderBook::new();
    book.place_order(order(1, "maker", 100, 5, false));
    let fills = book.place_order(order(2, "taker", 100, 5, true));
    assert_eq!(fills.len(), 1);
    let t = &fills[0];
    assert_eq!(t.maker_pubkey, b"maker".to_vec());
    assert_eq!(t.taker_pubkey, b"taker".to_vec());
    assert_eq!(t.amount, 5);
    assert_eq!(t.price, 100);
    assert!(t.maker_signature.is_empty());
    assert!(book.get_order(1).is_none());
    assert!(book.get_order(2).is_none());
    assert!(book.asks.is_empty());
    assert!(book.bids.is_empty());
}

#[test]
fn fill_happens_at_resting_price() {
    let mut book = OrderBook::new();
    book.place_order(order(1, "maker", 95, 4, false));
    let fills = book.place_order(order(2, "taker", 100, 4, true));
    assert_eq!(fills.len(), 1);
    assert_eq!(fills[0].price, 95);
}

#[test]
fn partial_fill_rests_remainder() {
    let mut book = OrderBook::new();
    book.place_order(order(1, "maker", 100, 3, false));
    let fills = book.place_order(order(2, "taker", 101, 10, true));
    assert_eq!(fills.len(), 1);
    assert_eq!(fills[0].amount, 3);
    assert!(book.get_order(1).is_none());
    assert!(book.asks.is_empty());
    let rest = book.get_order(2).unwrap();
    assert_eq!(rest.amount, 7);
    assert_eq!(rest.price, 101);
    assert_eq!(book.bids.get(&101), Some(&vec![2]));
}

#[test]
fn partial_fill_reduces_resting_order() {
    let mut book = OrderBook::new();
    book.place_order(order(1, "maker", 100, 10, false));
    let fills = book.place_order(order(2, "taker", 100, 4, true));
    assert_eq!(fills.len(), 1);
    assert_eq!(fills[0].amount, 4);
    assert_eq!(book.get_order(1).unwrap().amount, 6);
    assert_eq!(book.asks.get(&100), Some(&vec![1]));
    assert!(book.get_order(2).is_none());
    assert!(book.bids.is_empty());
}

#[test]
fn buy_takes_lowest_ask_first() {
    let mut book = OrderBook::new();
    book.place_order(order(1, "high", 102, 5, false));
    book.place_order(order(2, "low", 100, 5, false));
    book.place_order(order(3, "mid", 101, 5, false));
    let fills = book.place_order(order(4, "taker", 102, 12, true));
    let prices: Vec<u64> = fills.iter().map(|t| t.price).collect();
    let amounts: Vec<u64> = fills.iter().map(|t| t.amount).collect();
    assert_eq!(prices, vec![100, 101, 102]);
    assert_eq!(amounts, vec![5, 5, 2]);
    assert_eq!(book.get_order(1).unwrap().amount, 3);
    assert!(book.asks.get(&100).is_none());
    assert!(book.asks.get(&101).is_none());
}

#[test]
fn sell_takes_highest_bid_first() {
    let mut book = OrderBook::new();
    book.place_order(order(1, "a", 98, 2, true));
    book.place_order(order(2, "b", 100, 2, true));
    book.place_order(order(3, "c", 99, 2, true));
    let fills = book.place_order(order(4, "taker", 97, 5, false));
    let prices: Vec<u64> = fills.iter().map(|t| t.price).collect();
    assert_eq!(prices, vec![100, 99, 98]);
    assert_eq!(book.get_order(1).unwrap().amount, 1);
}

#[test]
fn earlier_order_at_same_price_fills_first() {
    let mut book = OrderBook::new();
    book.place_order(order(1, "first", 100, 3, false));
    book.place_order(order(2, "second", 100, 3, false));
    let fills = book.place_order(order(3, "taker", 100, 4, true));
    assert_eq!(fills.len(), 2);
    assert_eq!(fills[0].maker_pubkey, b"first".to_vec());
    assert_eq!(fills[0].amount, 3);
    assert_eq!(fills[1].maker_pubkey, b"second".to_vec());
    assert_eq!(fills[1].amount, 1);
    assert_eq!(book.asks.get(&100), Some(&vec![2]));
    assert_eq!(book.get_order(2).unwrap().amount, 2);
}

#[test]
fn no_fill_beyond_limit() {
    let mut book = OrderBook::new();
    book.place_order(order(1, "maker", 105, 5, false));
    let fills = book.place_order(order(2, "taker", 100, 5, true));
    assert!(fills.is_empty());
    assert_eq!(book.asks.get(&105), Some(&vec![1]));
    assert_eq!(book.bids.get(&100), Some(&vec![2]));
}

#[test]
fn sell_does_not_fill_below_limit() {
    let mut book = OrderBook::new();
    book.place_order(order(1, "maker", 90, 5, true));
    let fills = book.place_order(order(2, "taker", 91, 5, false));
    assert!(fills.is_empty());
    assert_eq!(book.asks.get(&91), Some(&vec![2]));
}

#[test]
fn cancel_returns_order_and_lookup_finds_nothing() {
    let mut book = OrderBook::new();
    book.place_order(order(1, "alice", 100, 5, true));
    let cancelled = book.cancel_order(1).unwrap();
    assert_eq!(cancelled.id, 1);
    assert_eq!(cancelled.amount, 5);
    assert!(book.get_order(1).is_none());
    // the id stays queued until a matching pass reaches it
    assert_eq!(book.bids.get(&100), Some(&vec![1]));
}

#[test]
fn cancel_unknown_order_returns_none() {
    let mut book = OrderBook::new();
    assert!(book.cancel_order(42).is_none());
}

#[test]
fn cancelled_order_is_skipped_and_dropped() {
    let mut book = OrderBook::new();
    book.place_order(order(1, "gone", 100, 5, false));
    book.place_order(order(2, "live", 100, 5, false));
    book.cancel_order(1);
    let fills = book.place_order(order(3, "taker", 100, 5, true));
    assert_eq!(fills.len(), 1);
    assert_eq!(fills[0].maker_pubkey, b"live".to_vec());
    assert!(book.asks.is_empty());
}

#[test]
fn zero_amount_order_neither_trades_nor_rests() {
    let mut book = OrderBook::new();
    book.place_order(order(1, "maker", 100, 5, false));
    let fills = book.place_order(order(2, "taker", 100, 0, true));
    assert!(fills.is_empty());
    assert!(book.get_order(2).is_none());
    assert!(book.bids.is_empty());
    assert_eq!(book.get_order(1).unwrap().amount, 5);
}

#[test]
fn volume_is_conserved() {
    let mut book = OrderBook::new();
    book.place_order(order(1, "m1", 100, 4, false));
    book.place_order(order(2, "m2", 101, 4, false));
    let fills = book.place_order(order(3, "taker", 101, 11, true));
    let filled: u64 = fills.iter().map(|t| t.amount).sum();
    assert_eq!(filled, 8);
    assert_eq!(book.get_order(3).unwrap().amount, 11 - filled);
}

#[test]
fn taker_address_is_utf8_bytes() {
    let mut book = OrderBook::new();
    book.place_order(order(1, "0xAbC", 10, 1, true));
    let fills = book.place_order(order(2, "é", 10, 1, false));
    assert_eq!(fills[0].maker_pubkey, "0xAbC".as_bytes().to_vec());
    assert_eq!(fills[0].taker_pubkey, vec![0xc3, 0xa9]);
}

#[test]
fn order_clone_copies_every_field() {
    let o = order(9, "carol", 77, 3, true);
    let c = o.clone();
    assert_eq!(c.id, 9);
    assert_eq!(c.user_address, "carol");
    assert_eq!(c.price, 77);
    assert_eq!(c.amount, 3);
    assert!(c.is_buy);
    assert_eq!(c.timestamp, 1009);
}

#[test]
fn book_never_crosses() {
    let mut book = OrderBook::new();
    let steps = [
        (1, 100, 5, true),
        (2, 103, 4, false),
        (3, 101, 2, false),
        (4, 102, 6, true),
        (5, 99, 10, false),
        (6, 104, 3, true),
    ];
    for (id, price, amount, is_buy) in steps {
        book.place_order(order(id, "u", price, amount, is_buy));
        if let (Some(best_bid), Some(best_ask)) = (book.bids.keys().next_back(), book.asks.keys().next()) {
            assert!(best_bid < best_ask);
        }
    }
}

#[test]
fn fills_are_positive_and_only_reduce_makers() {
    let mut book = OrderBook::new();
    book.place_order(order(1, "m1", 100, 2, false));
    book.place_order(order(2, "m2", 100, 7, false));
    let fills = book.place_order(order(3, "t", 100, 4, true));
    assert!(fills.iter().all(|t| t.amount > 0));
    assert_eq!(book.get_order(2).unwrap().amount, 5);
    assert_eq!(book.get_order(2).unwrap().user_address, "m2");
}

#[test]
fn sorted_prices_lists_levels_lowest_first() {
    let mut book = OrderBook::new();
    book.place_order(order(1, "a", 30, 1, false));
    book.place_order(order(2, "b", 10, 1, false));
    book.place_order(order(3, "c", 20, 1, false));
    assert_eq!(sequencer::price_levels::sorted_prices(&book.asks), vec![10, 20, 30]);
}

#[test]
fn fills_equal_amount_taken_from_resting_orders() {
    let mut book = OrderBook::new();
    book.place_order(order(1, "m1", 100, 4, false));
    book.place_order(order(2, "m2", 100, 6, false));
    book.place_order(order(3, "b", 90, 5, true));
    let before: u64 = [1u64, 2, 3].iter().map(|id| book.get_order(*id).map_or(0, |o| o.amount)).sum();
    let fills = book.place_order(order(4, "t", 100, 7, true));
    let after: u64 = [1u64, 2, 3].iter().map(|id| book.get_order(*id).map_or(0, |o| o.amount)).sum();
    let filled: u64 = fills.iter().map(|t| t.amount).sum();
    assert_eq!(filled + after, before);
    assert_eq!(book.get_order(3).unwrap().amount, 5);
}

#[test]
fn cancelled_order_never_fills() {
    let mut book = OrderBook::new();
    book.place_order(order(1, "cancelled", 100, 5, false));
    book.cancel_order(1);
    let fills = book.place_order(order(2, "t", 100, 5, true));
    assert!(fills.is_empty());
    assert!(book.get_order(1).is_none());
    assert_eq!(book.get_order(2).unwrap().amount, 5);
}

#[test]
fn live_orders_sit_once_in_their_queue() {
    let mut book = OrderBook::new();
    book.place_order(order(1, "a", 100, 5, false));
    book.place_order(order(2, "b", 101, 5, false));
    book.place_order(order(3, "c", 100, 3, true));
    book.place_order(order(4, "d", 99, 2, true));
    for (id, o) in book.orders.iter() {
        let side = if o.is_buy { &book.bids } else { &book.asks };
        let q = side.get(&o.price).unwrap();
        assert_eq!(q.iter().filter(|x| *x == id).count(), 1);
    }
    assert!(book.bids.values().all(|q| !q.is_empty()));
    assert!(book.asks.values().all(|q| !q.is_empty()));
}
