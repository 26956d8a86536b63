use matching_engine::clock::OrderIdSource;
use matching_engine::intake::{place_order, cancel_order};
use matching_engine::orderbook::{Orderbook, OrderbookManager};
use matching_engine::types::{AppError, Market, Order, OrderSide, OrderStatus, PlaceOrderRequest};

fn test_market() -> Market {
    Market {
        id: 7,
        base_mint: "BASE".to_string(),
        quote_mint: "QUOTE".to_string(),
        base_decimals: 9,
        quote_decimals: 6,
        min_order_size: 10,
        tick_size: 5,
        maker_fee_bps: 10,
        taker_fee_bps: 20,
        is_active: true,
        created_at: 0,
    }
}

fn request(side: OrderSide, price: u64, size: u64) -> PlaceOrderRequest {
    PlaceOrderRequest {
        market_id: 7,
        side,
        price,
        size,
        wallet: "wallet-a".to_string(),
        signature: "sig".to_string(),
    }
}

fn resting(order_id: u64, wallet: &str, side: OrderSide, price: u64, size: u64) -> Order {
    Order {
        order_id,
        user_wallet: wallet.to_string(),
        market_id: 7,
        side,
        price,
        size,
        filled: 0,
        status: OrderStatus::Pending,
        on_chain_signature: None,
        created_at: 0,
        updated_at: 0,
    }
}

#[test]
fn place_rejects_missing_market() {
    let mut book = Orderbook::new(7);
    let r = place_order(&None, &request(OrderSide::Buy, 100, 10), 1, 0, 0, &None, &mut book);
    assert!(matches!(r, Err(AppError::MarketNotFound)));
}

#[test]
fn place_rejects_inactive_market() {
    let mut book = Orderbook::new(7);
    let mut m = test_market();
    m.is_active = false;
    let r = place_order(&Some(m), &request(OrderSide::Buy, 100, 10), 1, 0, 0, &None, &mut book);
    assert!(matches!(r, Err(AppError::MarketInactive)));
}

#[test]
fn place_rejects_small_size() {
    let mut book = Orderbook::new(7);
    let r = place_order(&Some(test_market()), &request(OrderSide::Buy, 100, 9), 1, 0, 0, &None, &mut book);
    assert!(matches!(r, Err(AppError::InvalidOrder(_))));
}

#[test]
fn place_rejects_unaligned_price() {
    let mut book = Orderbook::new(7);
    let r = place_order(&Some(test_market()), &request(OrderSide::Buy, 101, 10), 1, 0, 0, &None, &mut book);
    assert!(matches!(r, Err(AppError::InvalidOrder(_))));
    let r2 = place_order(&Some(test_market()), &request(OrderSide::Buy, 0, 10), 1, 0, 0, &None, &mut book);
    assert!(matches!(r2, Err(AppError::InvalidOrder(_))));
}

#[test]
fn place_rejects_too_many_open_orders() {
    let mut book = Orderbook::new(7);
    let r = place_order(
        &Some(test_market()),
        &request(OrderSide::Buy, 100, 10),
        1,
        0,
        3,
        &Some(3),
        &mut book,
    );
    assert!(matches!(r, Err(AppError::TooManyOrders)));
}

#[test]
fn place_resting_order_enters_book() {
    // No opposing liquidity: the whole size comes to rest.
    let mut book = Orderbook::new(7);
    let plan = place_order(
        &Some(test_market()),
        &request(OrderSide::Buy, 100, 10),
        1,
        50,
        0,
        &None,
        &mut book,
    )
    .expect("placement should succeed");
    assert_eq!(plan.order.status, OrderStatus::Pending);
    assert_eq!(plan.order.filled, 0);
    assert_eq!(plan.trades.len(), 0);
    assert_eq!(plan.final_order.status, OrderStatus::Pending);
    assert_eq!(plan.final_order.filled, 0);
    assert!(book.contains_order(1));
    assert_eq!(book.best_bid(), Some(100));
    assert_eq!(plan.snapshot.bids.len(), 1);
    assert_eq!(plan.snapshot.bids[0].size, 10);
}

#[test]
fn place_partial_fill_rests_residual() {
    // Book: sell 5@100. Buy 10@100: one trade of 5, residual 5 rests on bids.
    let mut book = Orderbook::new(7);
    book.add_order(&resting(1, "seller", OrderSide::Sell, 100, 5));
    let plan = place_order(
        &Some(test_market()),
        &request(OrderSide::Buy, 100, 10),
        2,
        50,
        0,
        &None,
        &mut book,
    )
    .expect("placement should succeed");
    assert_eq!(plan.trades.len(), 1);
    assert_eq!(plan.trades[0].size, 5);
    assert_eq!(plan.trades[0].price, 100);
    assert_eq!(plan.final_order.status, OrderStatus::PartiallyFilled);
    assert_eq!(plan.final_order.filled, 5);
    assert_eq!(book.best_bid(), Some(100));
    assert_eq!(book.best_ask(), None);
    let bids = book.get_bids(10);
    assert_eq!(bids[0].size, 5);
    assert_eq!(plan.maker_updates.len(), 1);
    assert_eq!(plan.maker_updates[0].order_id, 1);
    assert_eq!(plan.maker_updates[0].filled, 5);
    assert_eq!(plan.maker_updates[0].status, OrderStatus::Filled);
    assert_eq!(plan.settlement_tasks.len(), 1);
    assert_eq!(plan.settlement_tasks[0].maker_fee_bps, 10);
    assert_eq!(plan.settlement_tasks[0].taker_fee_bps, 20);
    assert_eq!(plan.trade_infos[0].maker_order_id, 1);
}

#[test]
fn place_no_match_keeps_book_uncrossed() {
    // Book: sell 10@110. Buy 10@100: no trade, bid rests below the ask.
    let mut book = Orderbook::new(7);
    book.add_order(&resting(1, "seller", OrderSide::Sell, 110, 10));
    let plan = place_order(
        &Some(test_market()),
        &request(OrderSide::Buy, 100, 10),
        2,
        50,
        0,
        &None,
        &mut book,
    )
    .expect("placement should succeed");
    assert_eq!(plan.trades.len(), 0);
    assert_eq!(plan.final_order.status, OrderStatus::Pending);
    assert_eq!(book.best_bid(), Some(100));
    assert_eq!(book.best_ask(), Some(110));
    assert!(book.best_bid().unwrap() < book.best_ask().unwrap());
}

#[test]
fn place_full_fill_does_not_rest() {
    let mut book = Orderbook::new(7);
    book.add_order(&resting(1, "seller", OrderSide::Sell, 100, 10));
    let plan = place_order(
        &Some(test_market()),
        &request(OrderSide::Buy, 100, 10),
        2,
        50,
        0,
        &None,
        &mut book,
    )
    .expect("placement should succeed");
    assert_eq!(plan.final_order.status, OrderStatus::Filled);
    assert_eq!(plan.final_order.filled, 10);
    assert!(!book.contains_order(2));
    assert_eq!(book.best_bid(), None);
}

#[test]
fn cancel_missing_order() {
    let mut book = Orderbook::new(7);
    let r = cancel_order(&None, 0, &mut book);
    assert!(matches!(r, Err(AppError::OrderNotFound)));
}

#[test]
fn cancel_terminal_statuses_rejected() {
    let mut book = Orderbook::new(7);
    let mut cancelled = resting(1, "w", OrderSide::Buy, 100, 10);
    cancelled.status = OrderStatus::Cancelled;
    let r = cancel_order(&Some(cancelled), 0, &mut book);
    assert!(matches!(r, Err(AppError::InvalidStatus)));

    let mut filled = resting(2, "w", OrderSide::Buy, 100, 10);
    filled.filled = 10;
    filled.status = OrderStatus::Filled;
    let r2 = cancel_order(&Some(filled), 0, &mut book);
    assert!(matches!(r2, Err(AppError::InvalidStatus)));
}

#[test]
fn cancel_active_order_removes_entry() {
    let mut book = Orderbook::new(7);
    let o = resting(1, "w", OrderSide::Buy, 100, 10);
    book.add_order(&o);
    let plan = cancel_order(&Some(o), 99, &mut book).expect("cancel should succeed");
    assert_eq!(plan.order.status, OrderStatus::Cancelled);
    assert_eq!(plan.order.updated_at, 99);
    assert!(plan.removed.is_some());
    assert!(!book.contains_order(1));
}

#[test]
fn cancel_accepted_when_not_in_book() {
    let mut book = Orderbook::new(7);
    let o = resting(1, "w", OrderSide::Buy, 100, 10);
    let plan = cancel_order(&Some(o), 0, &mut book).expect("cancel should succeed");
    assert_eq!(plan.order.status, OrderStatus::Cancelled);
    assert!(plan.removed.is_none());
}

#[test]
fn order_id_source_is_strictly_increasing() {
    let mut src = OrderIdSource::new();
    let a = src.next_id().unwrap();
    let b = src.next_id().unwrap();
    let c = src.next_id().unwrap();
    assert!(a < b);
    assert!(b < c);
}

#[test]
fn manager_creates_books_lazily() {
    let mut mgr = OrderbookManager::new();
    assert!(mgr.get(7).is_none());
    {
        let book = mgr.get_or_create(7);
        assert_eq!(book.market_id, 7);
        book.add_order(&resting(1, "w", OrderSide::Buy, 100, 10));
    }
    let found = mgr.get(7).expect("book should exist now");
    assert_eq!(found.best_bid(), Some(100));
    {
        let again = mgr.get_or_create(7);
        assert_eq!(again.best_bid(), Some(100));
    }
    assert!(mgr.get(8).is_none());
}

#[test]
fn order_lifecycle_fill_and_cancel() {
    let mut o = resting(1, "w", OrderSide::Buy, 100, 10);
    assert!(o.is_active());
    assert_eq!(o.remaining(), 10);
    o.fill(4, 5).unwrap();
    assert_eq!(o.status, OrderStatus::PartiallyFilled);
    assert_eq!(o.remaining(), 6);
    o.fill(6, 6).unwrap();
    assert_eq!(o.status, OrderStatus::Filled);
    assert!(!o.is_active());
    assert!(matches!(o.cancel(7), Err(AppError::InvalidStatus)));

    let mut p = resting(2, "w", OrderSide::Sell, 100, 10);
    p.cancel(9).unwrap();
    assert_eq!(p.status, OrderStatus::Cancelled);
    assert_eq!(p.updated_at, 9);
    assert!(matches!(p.cancel(10), Err(AppError::InvalidStatus)));
}

#[test]
fn order_quote_amount_scales() {
    let o = Order {
        size: 2_000_000_000,
        price: 3,
        ..resting(1, "w", OrderSide::Buy, 3, 2_000_000_000)
    };
    assert_eq!(o.quote_amount(), Some(6));
    let big = Order { size: u64::MAX, price: 2, ..resting(2, "w", OrderSide::Buy, 2, u64::MAX) };
    assert_eq!(big.quote_amount(), None);
}
