use hft_orderbook::orderbook::OrderBook;
use hft_orderbook::types::{BookError, Side, INVALID_PRICE};

#[test]
fn test_empty_orderbook() {
    let book = OrderBook::new();
    assert_eq!(book.best_bid(), INVALID_PRICE);
    assert_eq!(book.best_ask(), INVALID_PRICE);
    assert_eq!(book.bid_quantity_at(10000), 0);
    assert_eq!(book.ask_quantity_at(10000), 0);
}

#[test]
fn test_add_buy_order() {
    let mut book = OrderBook::new();
    book.add_order(1, Side::Buy, 10000, 100).unwrap();

    assert_eq!(book.best_bid(), 10000);
    assert_eq!(book.best_ask(), INVALID_PRICE);
    assert_eq!(book.bid_quantity_at(10000), 100);
}

#[test]
fn test_add_sell_order() {
    let mut book = OrderBook::new();
    book.add_order(1, Side::Sell, 10100, 50).unwrap();

    assert_eq!(book.best_bid(), INVALID_PRICE);
    assert_eq!(book.best_ask(), 10100);
    assert_eq!(book.ask_quantity_at(10100), 50);
}

#[test]
fn test_multiple_orders_same_price() {
    let mut book = OrderBook::new();
    book.add_order(1, Side::Buy, 10000, 100).unwrap();
    book.add_order(2, Side::Buy, 10000, 200).unwrap();

    assert_eq!(book.best_bid(), 10000);
    assert_eq!(book.bid_quantity_at(10000), 300);
}

#[test]
fn test_best_bid_is_highest() {
    let mut book = OrderBook::new();
    book.add_order(1, Side::Buy, 10000, 100).unwrap();
    book.add_order(2, Side::Buy, 10100, 100).unwrap();
    book.add_order(3, Side::Buy, 9900, 100).unwrap();

    assert_eq!(book.best_bid(), 10100);
}

#[test]
fn test_best_ask_is_lowest() {
    let mut book = OrderBook::new();
    book.add_order(1, Side::Sell, 10200, 100).unwrap();
    book.add_order(2, Side::Sell, 10100, 100).unwrap();
    book.add_order(3, Side::Sell, 10300, 100).unwrap();

    assert_eq!(book.best_ask(), 10100);
}

#[test]
fn test_cancel_order() {
    let mut book = OrderBook::new();
    book.add_order(1, Side::Buy, 10000, 100).unwrap();
    book.add_order(2, Side::Buy, 10000, 200).unwrap();

    assert!(book.cancel_order(1));
    assert_eq!(book.bid_quantity_at(10000), 200);
}

#[test]
fn test_cancel_removes_price_level() {
    let mut book = OrderBook::new();
    book.add_order(1, Side::Buy, 10000, 100).unwrap();
    book.cancel_order(1);

    assert_eq!(book.best_bid(), INVALID_PRICE);
    assert_eq!(book.bid_quantity_at(10000), 0);
}

#[test]
fn test_partial_execution() {
    let mut book = OrderBook::new();
    book.add_order(1, Side::Buy, 10000, 100).unwrap();
    book.execute_order(1, 30);

    assert_eq!(book.bid_quantity_at(10000), 70);
}

#[test]
fn test_full_execution() {
    let mut book = OrderBook::new();
    book.add_order(1, Side::Buy, 10000, 100).unwrap();
    book.execute_order(1, 100);

    assert_eq!(book.best_bid(), INVALID_PRICE);
    assert_eq!(book.bid_quantity_at(10000), 0);
}

#[test]
fn test_cancel_nonexistent() {
    let mut book = OrderBook::new();
    assert!(!book.cancel_order(999));
}

#[test]
fn resting_buy_without_cross() {
    let mut book = OrderBook::new();
    assert_eq!(book.add_order(1, Side::Buy, 10000, 100), Ok(()));
    assert_eq!(book.best_bid(), 10000);
    assert_eq!(book.best_ask(), INVALID_PRICE);
    assert_eq!(book.bid_quantity_at(10000), 100);
    assert_eq!(book.quantity_at(Side::Buy, 10000), 100);
}

#[test]
fn partial_then_full_execution() {
    let mut book = OrderBook::new();
    book.add_order(1, Side::Buy, 10000, 100).unwrap();
    assert!(book.execute_order(1, 30));
    assert_eq!(book.bid_quantity_at(10000), 70);
    assert!(book.execute_order(1, 70));
    assert_eq!(book.best_bid(), INVALID_PRICE);
    assert_eq!(book.bid_quantity_at(10000), 0);
    assert!(!book.execute_order(1, 1));
}

#[test]
fn execute_caps_fill_at_remaining() {
    let mut book = OrderBook::new();
    book.add_order(1, Side::Sell, 10100, 40).unwrap();
    assert!(book.execute_order(1, 1000));
    assert_eq!(book.best_ask(), INVALID_PRICE);
    assert!(!book.cancel_order(1));
}

#[test]
fn execute_zero_is_no_op_on_present_order() {
    let mut book = OrderBook::new();
    book.add_order(1, Side::Buy, 10000, 100).unwrap();
    assert!(book.execute_order(1, 0));
    assert_eq!(book.bid_quantity_at(10000), 100);
    assert!(!book.execute_order(2, 0));
}

#[test]
fn duplicate_price_aggregation_then_cancel() {
    let mut book = OrderBook::new();
    book.add_order(1, Side::Buy, 10000, 100).unwrap();
    book.add_order(2, Side::Buy, 10000, 200).unwrap();
    assert_eq!(book.bid_quantity_at(10000), 300);
    assert!(book.cancel_order(1));
    assert_eq!(book.bid_quantity_at(10000), 200);
    assert_eq!(book.best_bid(), 10000);
}

#[test]
fn cancel_absent_leaves_book_unchanged() {
    let mut book = OrderBook::new();
    book.add_order(1, Side::Buy, 10000, 100).unwrap();
    book.add_order(2, Side::Sell, 10100, 50).unwrap();
    assert!(!book.cancel_order(7));
    assert_eq!(book.best_bid(), 10000);
    assert_eq!(book.best_ask(), 10100);
    assert_eq!(book.bid_quantity_at(10000), 100);
    assert_eq!(book.ask_quantity_at(10100), 50);
}

#[test]
fn cancel_best_level_moves_best_price() {
    let mut book = OrderBook::new();
    book.add_order(1, Side::Sell, 10100, 10).unwrap();
    book.add_order(2, Side::Sell, 10300, 20).unwrap();
    book.add_order(3, Side::Sell, 10200, 30).unwrap();
    assert_eq!(book.best_ask(), 10100);
    assert!(book.cancel_order(1));
    assert_eq!(book.best_ask(), 10200);
    assert!(book.cancel_order(3));
    assert_eq!(book.best_ask(), 10300);
}

#[test]
fn duplicate_id_is_refused() {
    let mut book = OrderBook::new();
    book.add_order(1, Side::Buy, 10000, 100).unwrap();
    assert_eq!(book.add_order(1, Side::Sell, 10500, 5), Err(BookError::DuplicateOrderId));
    assert_eq!(book.best_ask(), INVALID_PRICE);
    assert_eq!(book.bid_quantity_at(10000), 100);
}

#[test]
fn sentinel_price_is_refused() {
    let mut book = OrderBook::new();
    assert_eq!(book.add_order(1, Side::Buy, INVALID_PRICE, 100), Err(BookError::InvalidPrice));
    assert_eq!(book.best_bid(), INVALID_PRICE);
}

#[test]
fn zero_quantity_is_refused() {
    let mut book = OrderBook::new();
    assert_eq!(book.add_order(1, Side::Sell, 10000, 0), Err(BookError::InvalidQuantity));
    assert_eq!(book.best_ask(), INVALID_PRICE);
}

#[test]
fn level_total_overflow_is_refused() {
    let mut book = OrderBook::new();
    book.add_order(1, Side::Buy, 10000, u32::MAX - 5).unwrap();
    assert_eq!(book.add_order(2, Side::Buy, 10000, 6), Err(BookError::QuantityOverflow));
    assert_eq!(book.add_order(3, Side::Buy, 10000, 5), Ok(()));
    assert_eq!(book.bid_quantity_at(10000), u32::MAX);
    assert!(!book.cancel_order(2));
}

#[test]
fn sums_over_levels_match_order_quantities() {
    let mut book = OrderBook::new();
    book.add_order(1, Side::Buy, 10000, 10).unwrap();
    book.add_order(2, Side::Buy, 9900, 20).unwrap();
    book.add_order(3, Side::Buy, 10000, 30).unwrap();
    book.add_order(4, Side::Buy, 9800, 40).unwrap();
    book.execute_order(2, 5);
    let total = book.bid_quantity_at(10000) + book.bid_quantity_at(9900) + book.bid_quantity_at(9800);
    assert_eq!(total, 10 + 15 + 30 + 40);
}

#[test]
fn best_order_is_oldest_at_best_price() {
    let mut book = OrderBook::new();
    book.add_order(5, Side::Buy, 9900, 10).unwrap();
    book.add_order(6, Side::Buy, 10000, 20).unwrap();
    book.add_order(7, Side::Buy, 10000, 30).unwrap();
    let o = book.best_order(Side::Buy).unwrap();
    assert_eq!(o.id, 6);
    assert_eq!(o.price, 10000);
    assert_eq!(o.quantity, 20);
    assert!(book.best_order(Side::Sell).is_none());
}

#[test]
fn default_book_is_empty() {
    let book = OrderBook::default();
    assert_eq!(book.best_bid(), INVALID_PRICE);
    assert_eq!(book.best_ask(), INVALID_PRICE);
}
