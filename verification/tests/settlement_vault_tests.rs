use matching_engine::matching::TradeMatch;
use matching_engine::settlement::{compute_settlement, build_trade, SettlementTask};
use matching_engine::types::{AppError, Market, OrderSide};
use matching_engine::types::{Order, OrderStatus};
use matching_engine::vault::{
    lock_for_order, settle_trade, settle_trade_vaults, unlock_for_cancel, validate_market_config,
    UserVault,
};
use matching_engine::websocket::WebSocketManager;

fn market(base_decimals: u32, maker_bps: u16, taker_bps: u16) -> Market {
    Market {
        id: 7,
        base_mint: "BASE".to_string(),
        quote_mint: "QUOTE".to_string(),
        base_decimals,
        quote_decimals: 6,
        min_order_size: 1,
        tick_size: 1,
        maker_fee_bps: maker_bps,
        taker_fee_bps: taker_bps,
        is_active: true,
        created_at: 0,
    }
}

fn task(size: u64, price: u64, maker_bps: u16, taker_bps: u16) -> SettlementTask {
    SettlementTask {
        trade_match: TradeMatch {
            maker_order_id: 1,
            maker_wallet: "maker".to_string(),
            taker_order_id: 2,
            taker_wallet: "taker".to_string(),
            price,
            size,
        },
        market_id: 7,
        maker_fee_bps: maker_bps,
        taker_fee_bps: taker_bps,
    }
}

#[test]
fn settlement_amounts_exact() {
    // size * price = 5e9 * 200 = 1e12; divided by 10^9 gives 1000 quote units.
    // maker fee: 1000 * 25 / 10000 = 2 (truncated from 2.5).
    // taker fee: 1000 * 40 / 10000 = 4.
    let a = compute_settlement(&task(5_000_000_000, 200, 25, 40), &market(9, 25, 40)).unwrap();
    assert_eq!(a.quote_amount, 1000);
    assert_eq!(a.maker_fee, 2);
    assert_eq!(a.taker_fee, 4);
}

#[test]
fn settlement_overflow_is_reported() {
    let r = compute_settlement(&task(u64::MAX, 2, 10, 10), &market(9, 10, 10));
    assert!(matches!(r, Err(AppError::ArithmeticOverflow)));
    // 10^20 does not fit in 64 bits.
    let r2 = compute_settlement(&task(10, 10, 10, 10), &market(20, 10, 10));
    assert!(matches!(r2, Err(AppError::ArithmeticOverflow)));
}

#[test]
fn trade_row_mirrors_task() {
    let t = task(50, 7, 10, 20);
    let a = compute_settlement(&t, &market(0, 10, 20)).unwrap();
    assert_eq!(a.quote_amount, 350);
    let row = build_trade(&t, &a, 1234);
    assert_eq!(row.market_id, 7);
    assert_eq!(row.maker_order_id, 1);
    assert_eq!(row.taker_order_id, 2);
    assert_eq!(row.maker_wallet, "maker");
    assert_eq!(row.taker_wallet, "taker");
    assert_eq!(row.price, 7);
    assert_eq!(row.size, 50);
    assert!(row.settlement_signature.is_none());
    assert_eq!(row.created_at, 1234);
}

#[test]
fn market_fee_helpers() {
    let m = market(9, 25, 40);
    assert_eq!(m.calculate_maker_fee(10_000), Some(25));
    assert_eq!(m.calculate_taker_fee(10_000), Some(40));
    assert_eq!(m.calculate_maker_fee(100), Some(0));
    assert!(m.validate_order_size(1));
    assert!(!m.validate_order_size(0));
    assert!(m.validate_price(5));
    assert!(!m.validate_price(0));
}

#[test]
fn market_config_validation() {
    assert!(validate_market_config(1, 1, 100, 100));
    assert!(!validate_market_config(0, 1, 10, 10));
    assert!(!validate_market_config(1, 0, 10, 10));
    assert!(!validate_market_config(1, 1, 101, 10));
    assert!(!validate_market_config(1, 1, 10, 101));
}

fn vault(wallet: &str, base: u64, quote: u64, base_locked: u64, quote_locked: u64) -> UserVault {
    let mut v = UserVault::new(wallet.to_string(), 7);
    v.deposit(base, true).unwrap();
    v.deposit(quote, false).unwrap();
    if base_locked > 0 {
        v.lock_base(base_locked).unwrap();
    }
    if quote_locked > 0 {
        v.lock_quote(quote_locked).unwrap();
    }
    v
}

#[test]
fn vault_lock_and_available() {
    let mut v = vault("w", 100, 50, 0, 0);
    assert_eq!(v.available_base(), 100);
    v.lock_base(30).unwrap();
    assert_eq!(v.available_base(), 70);
    assert!(matches!(v.lock_base(71), Err(AppError::InsufficientBalance)));
    v.unlock_base(30).unwrap();
    assert_eq!(v.available_base(), 100);
    assert!(matches!(v.unlock_base(1), Err(AppError::ArithmeticOverflow)));
}

#[test]
fn vault_withdraw_respects_locks() {
    let mut v = vault("w", 100, 0, 40, 0);
    assert!(matches!(v.withdraw(70, true), Err(AppError::InsufficientBalance)));
    v.withdraw(60, true).unwrap();
    assert_eq!(v.base_balance, 40);
    assert_eq!(v.total_base_withdrawn, 60);
}

#[test]
fn settle_conserves_base_and_burns_fees() {
    // Maker sold 10 base at price such that quote_amount = 100.
    let mut maker = vault("m", 50, 0, 10, 0);
    let mut taker = vault("t", 5, 200, 0, 100);
    settle_trade_vaults(&mut maker, &mut taker, OrderSide::Sell, 10, 100, 2, 3).unwrap();
    assert_eq!(maker.base_balance, 40);
    assert_eq!(maker.base_locked, 0);
    assert_eq!(maker.quote_balance, 98);
    assert_eq!(taker.base_balance, 15);
    assert_eq!(taker.quote_balance, 97);
    assert_eq!(taker.quote_locked, 0);
    // Base conserved, quote reduced by exactly the two fees.
    assert_eq!(maker.base_balance + taker.base_balance, 55);
    assert_eq!(maker.quote_balance + taker.quote_balance, 200 - 2 - 3);
}

#[test]
fn settle_insufficient_funds_changes_nothing() {
    let mut maker = vault("m", 5, 0, 5, 0);
    let mut taker = vault("t", 0, 50, 0, 50);
    // The taker cannot cover quote_amount + fee.
    let r = settle_trade_vaults(&mut maker, &mut taker, OrderSide::Sell, 5, 50, 0, 1);
    assert!(r.is_err());
    assert_eq!(maker.base_balance, 5);
    assert_eq!(maker.base_locked, 5);
    assert_eq!(taker.quote_balance, 50);
    assert_eq!(taker.quote_locked, 50);
}

fn chain_order(order_id: u64, side: OrderSide, price: u64, size: u64) -> Order {
    Order {
        order_id,
        user_wallet: "w".to_string(),
        market_id: 7,
        side,
        price,
        size,
        filled: 0,
        status: OrderStatus::Pending,
        on_chain_signature: None,
        created_at: 0,
        updated_at: 0,
    }
}

#[test]
fn settle_trade_moves_funds_and_fills_orders() {
    // 10 base at price 50 with 0 base decimals: quote_amount = 500.
    // Fees at 20 and 40 bps: 1 and 2 quote units.
    let m = market(0, 20, 40);
    let mut maker_vault = vault("m", 100, 0, 10, 0);
    let mut taker_vault = vault("t", 0, 1000, 0, 500);
    let mut maker_order = chain_order(1, OrderSide::Sell, 50, 10);
    let mut taker_order = chain_order(2, OrderSide::Buy, 50, 25);

    let fees = settle_trade(
        &mut maker_vault,
        &mut taker_vault,
        &mut maker_order,
        &mut taker_order,
        &m,
        10,
        50,
        77,
    )
    .unwrap();
    assert_eq!(fees, 3);
    assert_eq!(maker_vault.base_balance, 90);
    assert_eq!(maker_vault.quote_balance, 499);
    assert_eq!(taker_vault.base_balance, 10);
    assert_eq!(taker_vault.quote_balance, 498);
    assert_eq!(maker_order.status, OrderStatus::Filled);
    assert_eq!(maker_order.filled, 10);
    assert_eq!(taker_order.status, OrderStatus::PartiallyFilled);
    assert_eq!(taker_order.filled, 10);
    assert_eq!(taker_order.updated_at, 77);
}

#[test]
fn settle_trade_rejects_terminal_orders() {
    let m = market(0, 0, 0);
    let mut mv = vault("m", 10, 0, 10, 0);
    let mut tv = vault("t", 0, 100, 0, 100);
    let mut mo = chain_order(1, OrderSide::Sell, 10, 10);
    mo.filled = 10;
    mo.status = OrderStatus::Filled;
    let mut to = chain_order(2, OrderSide::Buy, 10, 10);
    let r = settle_trade(&mut mv, &mut tv, &mut mo, &mut to, &m, 5, 10, 0);
    assert!(matches!(r, Err(AppError::InvalidStatus)));
    assert_eq!(mv.base_locked, 10);
    assert_eq!(to.filled, 0);
}

#[test]
fn settle_trade_rejects_oversized_fill() {
    let m = market(0, 0, 0);
    let mut mv = vault("m", 10, 0, 10, 0);
    let mut tv = vault("t", 0, 100, 0, 100);
    let mut mo = chain_order(1, OrderSide::Sell, 10, 4);
    let mut to = chain_order(2, OrderSide::Buy, 10, 10);
    let r = settle_trade(&mut mv, &mut tv, &mut mo, &mut to, &m, 5, 10, 0);
    assert!(matches!(r, Err(AppError::InvalidOrder(_))));
    assert_eq!(mo.filled, 0);
}

#[test]
fn lock_and_unlock_for_order_round_trip() {
    // A buy of 2e9 base units at price 3 with 9 base decimals is worth
    // 6 quote units.
    let mut v = vault("w", 0, 10, 0, 0);
    let q = lock_for_order(&mut v, OrderSide::Buy, 2_000_000_000, 3, 9).unwrap();
    assert_eq!(q, 6);
    assert_eq!(v.quote_locked, 6);
    assert!(matches!(
        lock_for_order(&mut v, OrderSide::Buy, 2_000_000_000, 3, 9),
        Err(AppError::InsufficientBalance)
    ));
    unlock_for_cancel(&mut v, OrderSide::Buy, 2_000_000_000, 3, 9).unwrap();
    assert_eq!(v.quote_locked, 0);

    let mut s = vault("w", 10, 0, 0, 0);
    lock_for_order(&mut s, OrderSide::Sell, 10, 1, 0).unwrap();
    assert_eq!(s.base_locked, 10);
    unlock_for_cancel(&mut s, OrderSide::Sell, 10, 1, 0).unwrap();
    assert_eq!(s.base_locked, 0);
}

#[test]
fn websocket_registry_round_trip() {
    let mut ws = WebSocketManager::new();
    let a = ws.add_client();
    let b = ws.add_client();
    assert_ne!(a, b);
    ws.subscribe(a, 7);
    ws.subscribe(b, 7);
    ws.subscribe(b, 8);
    let mut t7 = ws.broadcast_targets(7);
    t7.sort();
    assert_eq!(t7, vec![a, b]);
    assert_eq!(ws.broadcast_targets(8), vec![b]);
    assert_eq!(ws.broadcast_targets(9), Vec::<u64>::new());

    ws.unsubscribe(a, 7);
    assert_eq!(ws.broadcast_targets(7), vec![b]);

    ws.remove_client(b);
    assert_eq!(ws.broadcast_targets(7), Vec::<u64>::new());
    assert_eq!(ws.broadcast_targets(8), Vec::<u64>::new());
}

#[test]
fn websocket_subscribe_is_idempotent() {
    let mut ws = WebSocketManager::new();
    let a = ws.add_client();
    ws.subscribe(a, 7);
    ws.subscribe(a, 7);
    assert_eq!(ws.broadcast_targets(7), vec![a]);
}
