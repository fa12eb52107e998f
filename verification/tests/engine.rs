use sequencer::engine::{placeholder_batch, Engine, EngineMessage, EngineReply, BATCH_SIZE};
use sequencer::orderbook::Order;
use sequencer::rollup::AccountState;
use sequencer::rpc::RawOrderPayload;
use sequencer::trade::Trade;

fn order(id: u64, price: u64, amount: u64, is_buy: bool) -> Order {
    Order { id, user_address: format!("user{}", id), price, amount, is_buy, timestamp: 0 }
}

#[test]
fn batch_threshold_is_ten() {
    assert_eq!(BATCH_SIZE, 10);
}

#[test]
fn fills_are_buffered_below_threshold() {
    let mut e = Engine::new();
    e.handle(EngineMessage::PlaceOrder(order(1, 100, 3, false)));
    match e.handle(EngineMessage::PlaceOrder(order(2, 100, 3, true))) {
        EngineReply::Placed { fills, batch } => {
            assert_eq!(fills, 1);
            assert!(batch.is_none());
        }
        _ => panic!("expected a placement"),
    }
    assert_eq!(e.trade_buffer.len(), 1);
}

#[test]
fn batch_is_dispatched_at_threshold() {
    let mut e = Engine::new();
    for id in 0..10u64 {
        e.handle(EngineMessage::PlaceOrder(order(id, 100, 1, false)));
    }
    match e.handle(EngineMessage::PlaceOrder(order(100, 100, 10, true))) {
        EngineReply::Placed { fills, batch } => {
            assert_eq!(fills, 10);
            let b = batch.expect("a batch of ten fills");
            assert_eq!(b.trades.len(), 10);
            assert_eq!(b.maker_states.len(), 10);
            assert_eq!(b.taker_states.len(), 10);
            assert_eq!(b.maker_proofs.len(), 10);
            assert_eq!(b.taker_proofs.len(), 10);
            assert_eq!(b.previous_state_root, [0u8; 32]);
            assert_eq!(b.new_state_root, [0u8; 32]);
            assert_eq!(b.trades[0].maker_pubkey, b"user0".to_vec());
            assert_eq!(b.trades[9].maker_pubkey, b"user9".to_vec());
        }
        _ => panic!("expected a placement"),
    }
    assert!(e.trade_buffer.is_empty());
}

#[test]
fn placement_without_fills_keeps_buffer() {
    let mut e = Engine::new();
    match e.handle(EngineMessage::PlaceOrder(order(1, 100, 3, false))) {
        EngineReply::Placed { fills, batch } => {
            assert_eq!(fills, 0);
            assert!(batch.is_none());
        }
        _ => panic!("expected a placement"),
    }
    assert!(e.trade_buffer.is_empty());
}

#[test]
fn cancel_reports_whether_order_was_live() {
    let mut e = Engine::new();
    e.handle(EngineMessage::PlaceOrder(order(1, 100, 3, false)));
    assert!(matches!(e.handle(EngineMessage::CancelOrder { id: 1 }), EngineReply::Cancelled(true)));
    assert!(matches!(e.handle(EngineMessage::CancelOrder { id: 1 }), EngineReply::Cancelled(false)));
}

#[test]
fn lookup_returns_a_copy() {
    let mut e = Engine::new();
    e.handle(EngineMessage::PlaceOrder(order(5, 100, 3, true)));
    match e.handle(EngineMessage::GetOrder { id: 5 }) {
        EngineReply::Found(Some(o)) => {
            assert_eq!(o.id, 5);
            assert_eq!(o.user_address, "user5");
            assert_eq!(o.amount, 3);
        }
        _ => panic!("expected the order"),
    }
    assert!(matches!(e.handle(EngineMessage::GetOrder { id: 6 }), EngineReply::Found(None)));
}

#[test]
fn placeholder_batch_has_blank_states() {
    let t = Trade { maker_pubkey: vec![1], taker_pubkey: vec![2], amount: 3, price: 4, maker_signature: vec![] };
    let b = placeholder_batch(vec![t.clone(), t]);
    let blank = AccountState { nonce: 0, base_balance: 0, quote_balance: 0 };
    assert_eq!(b.maker_states, vec![blank, blank]);
    assert_eq!(b.taker_states, vec![blank, blank]);
    assert!(b.maker_proofs.iter().all(|p| p.sibling_hashes.is_empty() && p.is_left.is_empty()));
    assert!(b.taker_proofs.iter().all(|p| p.sibling_hashes.is_empty() && p.is_left.is_empty()));
}

#[test]
fn payload_becomes_order() {
    let p = RawOrderPayload {
        user_address: "0xAbC123".to_string(),
        price: 100,
        amount: 5,
        is_buy: true,
        signature: "0x1a2b3c".to_string(),
    };
    let o = p.into_order(42, 1700000000);
    assert_eq!(o.id, 42);
    assert_eq!(o.user_address, "0xAbC123");
    assert_eq!(o.price, 100);
    assert_eq!(o.amount, 5);
    assert!(o.is_buy);
    assert_eq!(o.timestamp, 1700000000);
}
