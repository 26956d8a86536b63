use matching_engine::matching::MatchingEngine;
use matching_engine::orderbook::Orderbook;
use matching_engine::types::{Order, OrderSide, OrderStatus};

fn create_test_order(order_id: u64, wallet: &str, side: OrderSide, price: u64, size: u64) -> Order {
    Order {
        order_id,
        user_wallet: wallet.to_string(),
        market_id: 7,
        side,
        price,
        size,
        filled: 0,
        status: OrderStatus::Pending,
        on_chain_signature: None,
        created_at: 0,
        updated_at: 0,
    }
}

#[test]
fn test_simple_match() {
    let market_id = 7u128;
    let mut orderbook = Orderbook::new(market_id);

    let sell_order = create_test_order(1, "seller", OrderSide::Sell, 100, 10);
    orderbook.add_order(&sell_order);

    let buy_order = create_test_order(2, "buyer", OrderSide::Buy, 100, 5);
    let result = MatchingEngine::match_order(&mut orderbook, &buy_order);

    assert_eq!(result.trades.len(), 1);
    assert_eq!(result.trades[0].size, 5);
    assert_eq!(result.remaining_size, 0);
}

#[test]
fn test_partial_fill() {
    let market_id = 7u128;
    let mut orderbook = Orderbook::new(market_id);

    let sell_order = create_test_order(1, "seller", OrderSide::Sell, 100, 5);
    orderbook.add_order(&sell_order);

    let buy_order = create_test_order(2, "buyer", OrderSide::Buy, 100, 10);
    let result = MatchingEngine::match_order(&mut orderbook, &buy_order);

    assert_eq!(result.trades.len(), 1);
    assert_eq!(result.trades[0].size, 5);
    assert_eq!(result.remaining_size, 5);
}

#[test]
fn test_no_match_price_gap() {
    let market_id = 7u128;
    let mut orderbook = Orderbook::new(market_id);

    let sell_order = create_test_order(1, "seller", OrderSide::Sell, 110, 10);
    orderbook.add_order(&sell_order);

    let buy_order = create_test_order(2, "buyer", OrderSide::Buy, 100, 5);
    let result = MatchingEngine::match_order(&mut orderbook, &buy_order);

    assert_eq!(result.trades.len(), 0);
    assert_eq!(result.remaining_size, 5);
}

#[test]
fn simple_match_leaves_maker_remainder() {
    let mut book = Orderbook::new(1);
    book.add_order(&create_test_order(1, "seller", OrderSide::Sell, 100, 10));
    let result = MatchingEngine::match_order(&mut book, &create_test_order(2, "buyer", OrderSide::Buy, 100, 5));
    assert_eq!(result.trades.len(), 1);
    assert_eq!(result.trades[0].maker_order_id, 1);
    assert_eq!(result.trades[0].taker_order_id, 2);
    assert_eq!(result.trades[0].maker_wallet, "seller");
    assert_eq!(result.trades[0].taker_wallet, "buyer");
    assert_eq!(result.trades[0].price, 100);
    let asks = book.get_asks(10);
    assert_eq!(asks.len(), 1);
    assert_eq!(asks[0].price, 100);
    assert_eq!(asks[0].size, 5);
    assert_eq!(asks[0].order_count, 1);
    assert_eq!(book.last_price, Some(100));
}

#[test]
fn multi_level_sweep() {
    let mut book = Orderbook::new(1);
    book.add_order(&create_test_order(1, "s1", OrderSide::Sell, 100, 5));
    book.add_order(&create_test_order(2, "s2", OrderSide::Sell, 101, 5));
    book.add_order(&create_test_order(3, "s3", OrderSide::Sell, 102, 5));
    let result = MatchingEngine::match_order(&mut book, &create_test_order(4, "b", OrderSide::Buy, 101, 8));
    assert_eq!(result.trades.len(), 2);
    assert_eq!(result.trades[0].price, 100);
    assert_eq!(result.trades[0].size, 5);
    assert_eq!(result.trades[1].price, 101);
    assert_eq!(result.trades[1].size, 3);
    assert_eq!(result.remaining_size, 0);
    let asks = book.get_asks(10);
    assert_eq!(asks.len(), 2);
    assert_eq!(asks[0].price, 101);
    assert_eq!(asks[0].size, 2);
    assert_eq!(asks[1].price, 102);
    assert_eq!(asks[1].size, 5);
    assert_eq!(book.last_price, Some(101));
}

#[test]
fn time_priority_within_level() {
    let mut book = Orderbook::new(1);
    book.add_order(&create_test_order(10, "alice", OrderSide::Sell, 100, 5));
    book.add_order(&create_test_order(11, "bob", OrderSide::Sell, 100, 5));
    let result = MatchingEngine::match_order(&mut book, &create_test_order(12, "carol", OrderSide::Buy, 100, 5));
    assert_eq!(result.trades.len(), 1);
    assert_eq!(result.trades[0].maker_order_id, 10);
    let asks = book.get_asks(10);
    assert_eq!(asks.len(), 1);
    assert_eq!(asks[0].size, 5);
    assert_eq!(asks[0].order_count, 1);
    assert!(book.contains_order(11));
    assert!(!book.contains_order(10));
}

#[test]
fn maker_updates_report_cumulative_fill() {
    let mut book = Orderbook::new(1);
    book.add_order(&create_test_order(1, "s", OrderSide::Sell, 100, 10));
    let result = MatchingEngine::match_order(&mut book, &create_test_order(2, "b", OrderSide::Buy, 100, 4));
    assert_eq!(result.maker_updates.len(), 1);
    assert_eq!(result.maker_updates[0].order_id, 1);
    assert_eq!(result.maker_updates[0].filled, 4);
    assert_eq!(result.maker_updates[0].size, 10);
}

#[test]
fn sell_crosses_bids() {
    let mut book = Orderbook::new(1);
    book.add_order(&create_test_order(1, "b1", OrderSide::Buy, 105, 3));
    book.add_order(&create_test_order(2, "b2", OrderSide::Buy, 104, 3));
    let result = MatchingEngine::match_order(&mut book, &create_test_order(3, "s", OrderSide::Sell, 104, 4));
    assert_eq!(result.trades.len(), 2);
    assert_eq!(result.trades[0].price, 105);
    assert_eq!(result.trades[0].size, 3);
    assert_eq!(result.trades[1].price, 104);
    assert_eq!(result.trades[1].size, 1);
    assert_eq!(result.remaining_size, 0);
    let bids = book.get_bids(10);
    assert_eq!(bids.len(), 1);
    assert_eq!(bids[0].price, 104);
    assert_eq!(bids[0].size, 2);
}

#[test]
fn add_then_remove_round_trips() {
    let mut book = Orderbook::new(1);
    let o = create_test_order(5, "w", OrderSide::Buy, 99, 7);
    book.add_order(&o);
    assert!(book.contains_order(5));
    let removed = book.remove_order(5);
    let entry = removed.expect("entry should be returned");
    assert_eq!(entry.order_id, 5);
    assert_eq!(entry.user_wallet, "w");
    assert_eq!(entry.size, 7);
    assert_eq!(entry.filled, 0);
    assert!(!book.contains_order(5));
    assert_eq!(book.get_bids(10).len(), 0);
    assert_eq!(book.best_bid(), None);
}

#[test]
fn remove_missing_order_returns_none() {
    let mut book = Orderbook::new(1);
    assert!(book.remove_order(42).is_none());
}

#[test]
fn update_order_fill_partial_and_full() {
    let mut book = Orderbook::new(1);
    book.add_order(&create_test_order(1, "w", OrderSide::Sell, 100, 10));
    book.update_order_fill(1, 4);
    let asks = book.get_asks(10);
    assert_eq!(asks[0].size, 6);
    book.update_order_fill(1, 6);
    assert_eq!(book.get_asks(10).len(), 0);
    assert!(!book.contains_order(1));
}

#[test]
fn best_prices_and_spread() {
    let mut book = Orderbook::new(1);
    assert_eq!(book.spread(), None);
    book.add_order(&create_test_order(1, "w", OrderSide::Buy, 98, 1));
    book.add_order(&create_test_order(2, "w", OrderSide::Buy, 99, 1));
    book.add_order(&create_test_order(3, "w", OrderSide::Sell, 103, 1));
    book.add_order(&create_test_order(4, "w", OrderSide::Sell, 102, 1));
    assert_eq!(book.best_bid(), Some(99));
    assert_eq!(book.best_ask(), Some(102));
    assert_eq!(book.spread(), Some(3));
}

#[test]
fn snapshot_aggregates_both_sides() {
    let mut book = Orderbook::new(9);
    book.add_order(&create_test_order(1, "a", OrderSide::Buy, 99, 4));
    book.add_order(&create_test_order(2, "b", OrderSide::Buy, 99, 6));
    book.add_order(&create_test_order(3, "c", OrderSide::Sell, 101, 5));
    book.set_last_price(100);
    let snap = book.snapshot(20);
    assert_eq!(snap.market_id, 9);
    assert_eq!(snap.last_price, Some(100));
    assert_eq!(snap.bids.len(), 1);
    assert_eq!(snap.bids[0].price, 99);
    assert_eq!(snap.bids[0].size, 10);
    assert_eq!(snap.bids[0].order_count, 2);
    assert_eq!(snap.asks.len(), 1);
    assert_eq!(snap.asks[0].price, 101);
}

#[test]
fn snapshot_depth_caps_levels() {
    let mut book = Orderbook::new(1);
    book.add_order(&create_test_order(1, "w", OrderSide::Sell, 101, 1));
    book.add_order(&create_test_order(2, "w", OrderSide::Sell, 102, 1));
    book.add_order(&create_test_order(3, "w", OrderSide::Sell, 103, 1));
    let snap = book.snapshot(2);
    assert_eq!(snap.asks.len(), 2);
    assert_eq!(snap.asks[0].price, 101);
    assert_eq!(snap.asks[1].price, 102);
}

#[test]
fn cross_exhausting_acceptable_liquidity() {
    let mut book = Orderbook::new(1);
    book.add_order(&create_test_order(1, "s1", OrderSide::Sell, 100, 5));
    book.add_order(&create_test_order(2, "s2", OrderSide::Sell, 101, 5));
    book.add_order(&create_test_order(3, "s3", OrderSide::Sell, 110, 5));
    // Aggregate remaining at prices acceptable to a buy at 101 is 10.
    let result = MatchingEngine::match_order(&mut book, &create_test_order(4, "b", OrderSide::Buy, 101, 10));
    assert_eq!(result.remaining_size, 0);
    let asks = book.get_asks(10);
    assert_eq!(asks.len(), 1);
    assert_eq!(asks[0].price, 110);
}
