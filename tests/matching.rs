use hft_orderbook::handle::HftSide;
use hft_orderbook::matching_engine::{MatchingEngine, Trade};
use hft_orderbook::types::{BookError, Side, INVALID_PRICE};

#[test]
fn multi_level_crossing() {
    let mut engine = MatchingEngine::new();
    assert_eq!(engine.submit(1, Side::Sell, 10100, 50), Ok(vec![]));
    assert_eq!(engine.submit(2, Side::Sell, 10200, 30), Ok(vec![]));
    let trades = engine.submit(3, Side::Buy, 10200, 60).unwrap();
    assert_eq!(
        trades,
        vec![
            Trade {
                aggressive_order_id: 3,
                passive_order_id: 1,
                price: 10100,
                quantity: 50,
                aggressor_side: Side::Buy,
                sequence: 0,
            },
            Trade {
                aggressive_order_id: 3,
                passive_order_id: 2,
                price: 10200,
                quantity: 10,
                aggressor_side: Side::Buy,
                sequence: 1,
            },
        ]
    );
    assert_eq!(engine.book().ask_quantity_at(10200), 20);
    assert_eq!(engine.book().best_ask(), 10200);
    assert_eq!(engine.book().best_bid(), INVALID_PRICE);
    assert_eq!(engine.next_sequence(), 2);
}

#[test]
fn remainder_rests_after_crossing() {
    let mut engine = MatchingEngine::new();
    engine.submit(1, Side::Buy, 10000, 40).unwrap();
    let trades = engine.submit(2, Side::Sell, 9900, 100).unwrap();
    assert_eq!(trades.len(), 1);
    assert_eq!(trades[0].passive_order_id, 1);
    assert_eq!(trades[0].price, 10000);
    assert_eq!(trades[0].quantity, 40);
    assert_eq!(engine.book().best_bid(), INVALID_PRICE);
    assert_eq!(engine.book().best_ask(), 9900);
    assert_eq!(engine.book().ask_quantity_at(9900), 60);
}

#[test]
fn equal_price_crosses() {
    let mut engine = MatchingEngine::new();
    engine.submit(1, Side::Sell, 10000, 10).unwrap();
    let trades = engine.submit(2, Side::Buy, 10000, 10).unwrap();
    assert_eq!(trades.len(), 1);
    assert_eq!(trades[0].quantity, 10);
    assert_eq!(engine.book().best_ask(), INVALID_PRICE);
    assert_eq!(engine.book().best_bid(), INVALID_PRICE);
    assert!(!engine.cancel(2));
}

#[test]
fn no_cross_below_best_ask() {
    let mut engine = MatchingEngine::new();
    engine.submit(1, Side::Sell, 10100, 10).unwrap();
    let trades = engine.submit(2, Side::Buy, 10000, 10).unwrap();
    assert!(trades.is_empty());
    assert_eq!(engine.book().best_bid(), 10000);
    assert_eq!(engine.book().best_ask(), 10100);
}

#[test]
fn fifo_within_a_level() {
    let mut engine = MatchingEngine::new();
    engine.submit(1, Side::Buy, 10000, 10).unwrap();
    engine.submit(2, Side::Buy, 10000, 10).unwrap();
    engine.submit(3, Side::Buy, 10000, 10).unwrap();
    let trades = engine.submit(4, Side::Sell, 10000, 15).unwrap();
    assert_eq!(trades.len(), 2);
    assert_eq!(trades[0].passive_order_id, 1);
    assert_eq!(trades[0].quantity, 10);
    assert_eq!(trades[1].passive_order_id, 2);
    assert_eq!(trades[1].quantity, 5);
    assert_eq!(engine.book().bid_quantity_at(10000), 15);
    let head = engine.book().best_order(Side::Buy).unwrap();
    assert_eq!(head.id, 2);
    assert_eq!(head.quantity, 5);
}

#[test]
fn submit_refusals() {
    let mut engine = MatchingEngine::new();
    engine.submit(1, Side::Buy, 10000, 10).unwrap();
    assert_eq!(engine.submit(1, Side::Sell, 10000, 10), Err(BookError::DuplicateOrderId));
    assert_eq!(engine.submit(2, Side::Sell, INVALID_PRICE, 10), Err(BookError::InvalidPrice));
    assert_eq!(engine.submit(2, Side::Sell, 10000, 0), Err(BookError::InvalidQuantity));
    assert_eq!(engine.submit(2, Side::Buy, 10000, u32::MAX), Err(BookError::QuantityOverflow));
    assert_eq!(engine.book().bid_quantity_at(10000), 10);
    assert_eq!(engine.next_sequence(), 0);
}

#[test]
fn engine_cancel_and_execute_forward_to_book() {
    let mut engine = MatchingEngine::new();
    engine.submit(1, Side::Sell, 10100, 50).unwrap();
    assert!(engine.execute(1, 20));
    assert_eq!(engine.book().ask_quantity_at(10100), 30);
    assert!(engine.cancel(1));
    assert!(!engine.cancel(1));
    assert!(!engine.execute(1, 5));
    assert_eq!(engine.book().best_ask(), INVALID_PRICE);
}

#[test]
fn sequence_keeps_increasing_across_submits() {
    let mut engine = MatchingEngine::new();
    engine.submit(1, Side::Sell, 10000, 5).unwrap();
    engine.submit(2, Side::Sell, 10000, 5).unwrap();
    let a = engine.submit(3, Side::Buy, 10000, 5).unwrap();
    let b = engine.submit(4, Side::Buy, 10000, 5).unwrap();
    assert_eq!(a[0].sequence, 0);
    assert_eq!(b[0].sequence, 1);
    assert_eq!(b[0].passive_order_id, 2);
}

#[test]
fn side_conversions() {
    assert_eq!(Side::from(HftSide::Buy), Side::Buy);
    assert_eq!(Side::from(HftSide::Sell), Side::Sell);
    assert_eq!(HftSide::from(Side::Buy), HftSide::Buy);
    assert_eq!(HftSide::from(Side::Sell), HftSide::Sell);
}
