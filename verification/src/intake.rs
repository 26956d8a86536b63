//! The order-intake pipeline: validation, matching, book maintenance and
//! the plan of persistence, settlement and broadcast work the host must
//! carry out, computed inside one market's critical section.

use vstd::prelude::*;
use crate::types::{
    Market, Order, OrderSide, OrderStatus, AppError, PlaceOrderRequest, TradeInfo,
    OrderbookSnapshot,
};
use crate::orderbook::{
    Orderbook, BookM, EntryM, levels_add, entry_of_order, side_has_at, level_agg_ok,
    opt_price_view, index_entry_ok, book_uncrossed,
};
use crate::matching::{MatchingEngine, TradeMatch, TradeM, cross, tseq, tm_of,
    lemma_cross_conservation, lemma_cross_prices_subset, lemma_place_buy_uncrossed,
    lemma_place_sell_uncrossed, side_has_price};
use crate::settlement::SettlementTask;

verus! {

/// A repository status update for one order: its new cumulative fill and
/// the status that fill dictates.
#[derive(Clone, Copy, Debug)]
pub struct OrderStatusUpdate {
    pub order_id: u64,
    pub filled: u64,
    pub status: OrderStatus,
}

/// Everything a successful placement asks the host to do, in order: insert
/// `order` as created, apply the maker updates, enqueue the settlement
/// tasks, persist the taker's final state, and broadcast the snapshot plus
/// the final order.
#[derive(Clone, Debug)]
pub struct PlacePlan {
    /// The order as first persisted: pending, nothing filled.
    pub order: Order,
    pub trades: Vec<TradeMatch>,
    /// Per-trade maker status updates, aligned with `trades`.
    pub maker_updates: Vec<OrderStatusUpdate>,
    /// Per-trade settlement tasks, aligned with `trades`.
    pub settlement_tasks: Vec<SettlementTask>,
    /// Per-trade response summaries, aligned with `trades`.
    pub trade_infos: Vec<TradeInfo>,
    /// The taker's state after the cross.
    pub final_order: Order,
    /// Depth-20 view of the book as the critical section ends.
    pub snapshot: OrderbookSnapshot,
}

/// Everything a successful cancellation asks the host to do.
#[derive(Clone, Debug)]
pub struct CancelPlan {
    /// The order as it must be persisted: cancelled.
    pub order: Order,
    /// The book entry that was taken out, if the order still rested.
    pub removed: Option<crate::orderbook::OrderEntry>,
    /// Depth-20 view of the book as the critical section ends.
    pub snapshot: OrderbookSnapshot,
}

/// Whether a placement request passes every validation gate.
pub open spec fn place_admissible(
    market: Option<Market>,
    req: PlaceOrderRequest,
    open_orders: u64,
    max_open_orders: Option<u64>,
) -> bool {
    match market {
        None => false,
        Some(m) => {
            &&& m.is_active
            &&& req.size >= m.min_order_size
            &&& req.price > 0 && req.price % m.tick_size == 0
            &&& match max_open_orders {
                Some(mx) => open_orders < mx,
                None => true,
            }
        },
    }
}

/// The status an order carries once `filled` of its `size` is done.
pub open spec fn status_for_filled(filled: int, size: int) -> OrderStatus {
    if filled == size {
        OrderStatus::Filled
    } else if filled > 0 {
        OrderStatus::PartiallyFilled
    } else {
        OrderStatus::Pending
    }
}

/// An executable trade carries exactly the fields of a model fill.
pub open spec fn trade_fields_ok(t: TradeMatch, s: TradeM) -> bool {
    &&& t.maker_order_id == s.maker_order_id
    &&& t.maker_wallet@ == s.maker_wallet
    &&& t.taker_order_id == s.taker_order_id
    &&& t.taker_wallet@ == s.taker_wallet
    &&& t.price == s.price
    &&& t.size == s.size
}

/// A maker status update reports the fill's cumulative state, with the
/// status the order lifecycle dictates.
pub open spec fn maker_update_ok(u: OrderStatusUpdate, s: TradeM) -> bool {
    &&& u.order_id == s.maker_order_id
    &&& u.filled == s.maker_filled_after
    &&& u.status == (if s.maker_filled_after == s.maker_size {
        OrderStatus::Filled
    } else {
        OrderStatus::PartiallyFilled
    })
}

/// A settlement task freezes the trade and the market's fee schedule.
pub open spec fn settlement_task_ok(t: SettlementTask, s: TradeM, market_id: u128, m: Market) -> bool {
    &&& trade_fields_ok(t.trade_match, s)
    &&& t.market_id == market_id
    &&& t.maker_fee_bps == m.maker_fee_bps
    &&& t.taker_fee_bps == m.taker_fee_bps
}

/// What a successful placement promises: the created record, the trades and
/// derived updates, the taker's final state, and the book's new shape.
pub open spec fn place_plan_ok(
    plan: PlacePlan,
    m: Market,
    req: PlaceOrderRequest,
    order_id: u64,
    now: i64,
    oldb: BookM,
    newb: BookM,
) -> bool {
    let c = cross(
        if req.side == OrderSide::Buy {
            oldb.asks
        } else {
            oldb.bids
        },
        req.side,
        order_id as int,
        req.wallet@,
        req.price as int,
        req.size as int,
    );
    let total = req.size - c.residual;
    let taker_entry = EntryM {
        order_id: order_id as int,
        wallet: req.wallet@,
        size: req.size as int,
        filled: total,
        timestamp: now as int,
    };
    &&& plan.order.order_id == order_id
    &&& plan.order.user_wallet@ == req.wallet@
    &&& plan.order.market_id == req.market_id
    &&& plan.order.side == req.side
    &&& plan.order.price == req.price
    &&& plan.order.size == req.size
    &&& plan.order.filled == 0
    &&& plan.order.status == OrderStatus::Pending
    &&& plan.order.on_chain_signature is None
    &&& plan.order.created_at == now
    &&& plan.order.updated_at == now
    &&& plan.trades@.len() == c.trades.len()
    &&& (forall|i: int|
        0 <= i < c.trades.len() ==> trade_fields_ok(#[trigger] plan.trades@[i], c.trades[i]))
    &&& plan.maker_updates@.len() == c.trades.len()
    &&& (forall|i: int|
        0 <= i < c.trades.len() ==> maker_update_ok(#[trigger] plan.maker_updates@[i], c.trades[i]))
    &&& plan.settlement_tasks@.len() == c.trades.len()
    &&& (forall|i: int|
        0 <= i < c.trades.len() ==> settlement_task_ok(
            #[trigger] plan.settlement_tasks@[i],
            c.trades[i],
            req.market_id,
            m,
        ))
    &&& plan.trade_infos@.len() == c.trades.len()
    &&& (forall|i: int|
        0 <= i < c.trades.len() ==> {
            let info = #[trigger] plan.trade_infos@[i];
            &&& info.maker_order_id == c.trades[i].maker_order_id
            &&& info.price == c.trades[i].price
            &&& info.size == c.trades[i].size
        })
    &&& plan.final_order == (Order {
        filled: plan.final_order.filled,
        status: plan.final_order.status,
        ..plan.order
    })
    &&& plan.final_order.filled == total
    &&& plan.final_order.filled == crate::matching::trades_total(c.trades)
    &&& plan.final_order.status == status_for_filled(total, req.size as int)
    &&& (if req.side == OrderSide::Buy {
        newb.asks == c.levels && newb.bids == (if c.residual > 0 {
            levels_add(oldb.bids, OrderSide::Buy, req.price as int, taker_entry)
        } else {
            oldb.bids
        })
    } else {
        newb.bids == c.levels && newb.asks == (if c.residual > 0 {
            levels_add(oldb.asks, OrderSide::Sell, req.price as int, taker_entry)
        } else {
            oldb.asks
        })
    })
    &&& newb.market_id == oldb.market_id
    &&& newb.last_price == (if c.trades.len() > 0 {
        Some(c.trades.last().price)
    } else {
        oldb.last_price
    })
    &&& snapshot_of(plan.snapshot, newb, 20)
}

/// A snapshot faithfully aggregates the top `depth` levels of a book model.
pub open spec fn snapshot_of(s: OrderbookSnapshot, b: BookM, depth: int) -> bool {
    &&& s.market_id == b.market_id
    &&& opt_price_view(s.last_price) == b.last_price
    &&& s.bids@.len() == (if depth <= b.bids.len() {
        depth
    } else {
        b.bids.len() as int
    })
    &&& (forall|i: int| 0 <= i < s.bids@.len() ==> level_agg_ok(#[trigger] s.bids@[i], b.bids[i]))
    &&& s.asks@.len() == (if depth <= b.asks.len() {
        depth
    } else {
        b.asks.len() as int
    })
    &&& (forall|i: int| 0 <= i < s.asks@.len() ==> level_agg_ok(#[trigger] s.asks@[i], b.asks[i]))
}

/// Copy a trade value field by field.
fn clone_trade(t: &TradeMatch) -> (r: TradeMatch)
    ensures
        r.maker_order_id == t.maker_order_id,
        r.maker_wallet@ == t.maker_wallet@,
        r.taker_order_id == t.taker_order_id,
        r.taker_wallet@ == t.taker_wallet@,
        r.price == t.price,
        r.size == t.size,
{
    TradeMatch {
        maker_order_id: t.maker_order_id,
        maker_wallet: t.maker_wallet.clone(),
        taker_order_id: t.taker_order_id,
        taker_wallet: t.taker_wallet.clone(),
        price: t.price,
        size: t.size,
    }
}

/// Place an order inside its market's critical section.
///
/// Validation runs in the specified order: the market must exist and be
/// active, the size must reach the market minimum, the price must be
/// positive and tick-aligned, and an optional per-user open-order budget
/// must not be exhausted. Nothing is touched when validation fails. On
/// success the book is crossed, the residual (if any) comes to rest, and
/// the returned plan carries every downstream effect.
#[verifier::rlimit(60)]
pub fn place_order(
    market: &Option<Market>,
    req: &PlaceOrderRequest,
    order_id: u64,
    now: i64,
    open_orders: u64,
    max_open_orders: &Option<u64>,
    book: &mut Orderbook,
) -> (r: Result<PlacePlan, AppError>)
    requires
        old(book).wf(),
        !old(book)@.locations.contains_key(order_id as int),
        match *market {
            Some(m) => m.wf(),
            None => true,
        },
    ensures
        final(book).wf(),
        *market is None ==> r == Err::<PlacePlan, AppError>(AppError::MarketNotFound) && final(book)@ == old(book)@,
        (match *market {
            Some(m) => !m.is_active,
            None => false,
        }) ==> r == Err::<PlacePlan, AppError>(AppError::MarketInactive) && final(book)@ == old(
            book,
        )@,
        (match *market {
            Some(m) => m.is_active && req.size < m.min_order_size,
            None => false,
        }) ==> (r matches Err(AppError::InvalidOrder(_))) && final(book)@ == old(book)@,
        (match *market {
            Some(m) => m.is_active && req.size >= m.min_order_size && !(req.price > 0 && req.price
                % m.tick_size == 0),
            None => false,
        }) ==> (r matches Err(AppError::InvalidOrder(_))) && final(book)@ == old(book)@,
        (match *market {
            Some(m) => m.is_active && req.size >= m.min_order_size && req.price > 0 && req.price
                % m.tick_size == 0 && (match *max_open_orders {
                Some(mx) => open_orders >= mx,
                None => false,
            }),
            None => false,
        }) ==> r == Err::<PlacePlan, AppError>(AppError::TooManyOrders) && final(book)@ == old(
            book,
        )@,
        book_uncrossed(old(book)@) ==> book_uncrossed(final(book)@),
        place_admissible(*market, *req, open_orders, *max_open_orders) ==> (r matches Ok(plan)
            && place_plan_ok(
            plan,
            market->Some_0,
            *req,
            order_id,
            now,
            old(book)@,
            final(book)@,
        )),
{
    let m = match market {
        None => {
            return Err(AppError::MarketNotFound);
        }
        Some(m) => m,
    };
    if !m.is_active {
        return Err(AppError::MarketInactive);
    }
    if req.size < m.min_order_size {
        return Err(AppError::InvalidOrder("order size below market minimum".to_owned()));
    }
    if req.price == 0 || req.price % m.tick_size != 0 {
        return Err(AppError::InvalidOrder("price not aligned to tick size".to_owned()));
    }
    match *max_open_orders {
        Some(mx) => {
            if open_orders >= mx {
                return Err(AppError::TooManyOrders);
            }
        }
        None => {}
    }
    let ghost oldb = book@;
    let order = Order {
        order_id,
        user_wallet: req.wallet.clone(),
        market_id: req.market_id,
        side: req.side,
        price: req.price,
        size: req.size,
        filled: 0,
        status: OrderStatus::Pending,
        on_chain_signature: None,
        created_at: now,
        updated_at: now,
    };
    let ghost c = cross(
        if req.side == OrderSide::Buy {
            oldb.asks
        } else {
            oldb.bids
        },
        req.side,
        order_id as int,
        req.wallet@,
        req.price as int,
        req.size as int,
    );
    let mr = MatchingEngine::match_order(book, &order);
    proof {
        lemma_cross_conservation(
            if req.side == OrderSide::Buy {
                oldb.asks
            } else {
                oldb.bids
            },
            req.side,
            order_id as int,
            req.wallet@,
            req.price as int,
            req.size as int,
        );
    }
    let total_filled = req.size - mr.remaining_size;
    let n = mr.trades.len();
    let mut maker_updates: Vec<OrderStatusUpdate> = Vec::new();
    let mut settlement_tasks: Vec<SettlementTask> = Vec::new();
    let mut trade_infos: Vec<TradeInfo> = Vec::new();
    let mut i: usize = 0;
    #[verifier::loop_isolation(false)]
    while i < n
        invariant
            0 <= i <= n,
            maker_updates@.len() == i,
            settlement_tasks@.len() == i,
            trade_infos@.len() == i,
            forall|k: int|
                0 <= k < i ==> maker_update_ok(#[trigger] maker_updates@[k], c.trades[k]),
            forall|k: int|
                0 <= k < i ==> settlement_task_ok(
                    #[trigger] settlement_tasks@[k],
                    c.trades[k],
                    req.market_id,
                    *m,
                ),
            forall|k: int|
                0 <= k < i ==> {
                    let info = #[trigger] trade_infos@[k];
                    &&& info.maker_order_id == c.trades[k].maker_order_id
                    &&& info.price == c.trades[k].price
                    &&& info.size == c.trades[k].size
                },
        decreases n - i,
    {
        proof {
            assert(tseq(mr.trades@, mr.maker_updates@)[i as int] == c.trades[i as int]);
            assert(tm_of(mr.trades@[i as int], mr.maker_updates@[i as int]) == c.trades[i as int]);
        }
        let mu = mr.maker_updates[i];
        let status = if mu.filled >= mu.size {
            OrderStatus::Filled
        } else {
            OrderStatus::PartiallyFilled
        };
        maker_updates.push(
            OrderStatusUpdate {
                order_id: mr.trades[i].maker_order_id,
                filled: mu.filled,
                status,
            },
        );
        settlement_tasks.push(
            SettlementTask {
                trade_match: clone_trade(&mr.trades[i]),
                market_id: req.market_id,
                maker_fee_bps: m.maker_fee_bps,
                taker_fee_bps: m.taker_fee_bps,
            },
        );
        trade_infos.push(
            TradeInfo {
                maker_order_id: mr.trades[i].maker_order_id,
                price: mr.trades[i].price,
                size: mr.trades[i].size,
            },
        );
        proof {
            let s = c.trades[i as int];
            assert(0 < s.maker_filled_after <= s.maker_size);
            assert(maker_updates@[i as int].filled == s.maker_filled_after);
            assert(maker_update_ok(maker_updates@[i as int], s));
            assert(settlement_task_ok(settlement_tasks@[i as int], s, req.market_id, *m));
        }
        i += 1;
    }
    let final_status = if total_filled >= req.size {
        OrderStatus::Filled
    } else if total_filled > 0 {
        OrderStatus::PartiallyFilled
    } else {
        OrderStatus::Pending
    };
    let final_order = Order {
        order_id,
        user_wallet: req.wallet.clone(),
        market_id: req.market_id,
        side: req.side,
        price: req.price,
        size: req.size,
        filled: total_filled,
        status: final_status,
        on_chain_signature: None,
        created_at: now,
        updated_at: now,
    };
    if mr.remaining_size > 0 {
        let resting = Order {
            order_id,
            user_wallet: req.wallet.clone(),
            market_id: req.market_id,
            side: req.side,
            price: req.price,
            size: req.size,
            filled: total_filled,
            status: final_status,
            on_chain_signature: None,
            created_at: now,
            updated_at: now,
        };
        proof {
            assert(!book@.locations.contains_key(order_id as int)) by {
                if book@.locations.contains_key(order_id as int) {
                    assert(index_entry_ok(
                        book@.locations[order_id as int],
                        order_id as int,
                        book@.bids,
                        book@.asks,
                    ));
                    match book@.locations[order_id as int].0 {
                        OrderSide::Buy => {
                            assert(side_has_at(
                                book@.bids,
                                order_id as int,
                                book@.locations[order_id as int].1,
                            ));
                            assert(side_has_at(
                                oldb.bids,
                                order_id as int,
                                book@.locations[order_id as int].1,
                            ));
                        }
                        OrderSide::Sell => {
                            assert(side_has_at(
                                book@.asks,
                                order_id as int,
                                book@.locations[order_id as int].1,
                            ));
                            assert(side_has_at(
                                oldb.asks,
                                order_id as int,
                                book@.locations[order_id as int].1,
                            ));
                        }
                    }
                    assert(oldb.locations.contains_key(order_id as int));
                }
            }
        }
        book.add_order(&resting);
        proof {
            assert(entry_of_order(resting) =~~= (EntryM {
                order_id: order_id as int,
                wallet: req.wallet@,
                size: req.size as int,
                filled: total_filled as int,
                timestamp: now as int,
            }));
        }
    }
    proof {
        if book_uncrossed(oldb) {
            let taker_entry = EntryM {
                order_id: order_id as int,
                wallet: req.wallet@,
                size: req.size as int,
                filled: (req.size - mr.remaining_size) as int,
                timestamp: now as int,
            };
            match req.side {
                OrderSide::Buy => {
                    lemma_place_buy_uncrossed(
                        oldb.bids,
                        oldb.asks,
                        order_id as int,
                        req.wallet@,
                        req.price as int,
                        req.size as int,
                        taker_entry,
                    );
                    if mr.remaining_size == 0 {
                        lemma_cross_prices_subset(
                            oldb.asks,
                            OrderSide::Buy,
                            order_id as int,
                            req.wallet@,
                            req.price as int,
                            req.size as int,
                        );
                        if book@.bids.len() > 0 && book@.asks.len() > 0 {
                            assert(side_has_price(oldb.asks, book@.asks[0].price));
                            let k0 = choose|k0: int|
                                0 <= k0 < oldb.asks.len() && (#[trigger] oldb.asks[k0]).price
                                    == book@.asks[0].price;
                            if k0 > 0 {
                                assert(crate::orderbook::price_before(
                                    OrderSide::Sell,
                                    oldb.asks[0].price,
                                    oldb.asks[k0].price,
                                ));
                            }
                        }
                    }
                }
                OrderSide::Sell => {
                    lemma_place_sell_uncrossed(
                        oldb.bids,
                        oldb.asks,
                        order_id as int,
                        req.wallet@,
                        req.price as int,
                        req.size as int,
                        taker_entry,
                    );
                    if mr.remaining_size == 0 {
                        lemma_cross_prices_subset(
                            oldb.bids,
                            OrderSide::Sell,
                            order_id as int,
                            req.wallet@,
                            req.price as int,
                            req.size as int,
                        );
                        if book@.bids.len() > 0 && book@.asks.len() > 0 {
                            assert(side_has_price(oldb.bids, book@.bids[0].price));
                            let k0 = choose|k0: int|
                                0 <= k0 < oldb.bids.len() && (#[trigger] oldb.bids[k0]).price
                                    == book@.bids[0].price;
                            if k0 > 0 {
                                assert(crate::orderbook::price_before(
                                    OrderSide::Buy,
                                    oldb.bids[0].price,
                                    oldb.bids[k0].price,
                                ));
                            }
                        }
                    }
                }
            }
            assert(book_uncrossed(book@));
        }
    }
    let snapshot = book.snapshot(20);
    Ok(
        PlacePlan {
            order,
            trades: mr.trades,
            maker_updates,
            settlement_tasks,
            trade_infos,
            final_order,
            snapshot,
        },
    )
}

/// Cancel an order inside its market's critical section.
///
/// The persisted order decides: a missing order or a terminal status is an
/// error and nothing is touched. On success the status becomes `Cancelled`,
/// and the book entry is taken out if it still rests there — a cancel of an
/// order the book no longer holds is still accepted.
pub fn cancel_order(order: &Option<Order>, now: i64, book: &mut Orderbook) -> (r: Result<
    CancelPlan,
    AppError,
>)
    requires
        old(book).wf(),
    ensures
        final(book).wf(),
        book_uncrossed(old(book)@) ==> book_uncrossed(final(book)@),
        *order is None ==> r == Err::<CancelPlan, AppError>(AppError::OrderNotFound) && final(book)@ == old(book)@,
        (match *order {
            Some(o) => !o.is_active_spec(),
            None => false,
        }) ==> (r matches Err(AppError::InvalidStatus)) && final(book)@ == old(book)@,
        (match *order {
            Some(o) => o.is_active_spec(),
            None => false,
        }) ==> ({
            let o = order->Some_0;
            &&& r matches Ok(plan) && {
                &&& plan.order == (Order { status: OrderStatus::Cancelled, updated_at: now, ..o })
                &&& (!old(book)@.locations.contains_key(o.order_id as int) ==> plan.removed
                    is None && final(book)@ == old(book)@)
                &&& (old(book)@.locations.contains_key(o.order_id as int) ==> ({
                    let loc = old(book)@.locations[o.order_id as int];
                    let oldside = if loc.0 == OrderSide::Buy {
                        old(book)@.bids
                    } else {
                        old(book)@.asks
                    };
                    let i = crate::orderbook::level_index_of_price(oldside, loc.1);
                    let j = crate::orderbook::entry_index_of_id(
                        oldside[i].entries,
                        o.order_id as int,
                    );
                    &&& plan.removed matches Some(e) && e@ == oldside[i].entries[j]
                    &&& final(book)@ == (BookM {
                        bids: if loc.0 == OrderSide::Buy {
                            crate::orderbook::levels_take_at(old(book)@.bids, i, j)
                        } else {
                            old(book)@.bids
                        },
                        asks: if loc.0 == OrderSide::Sell {
                            crate::orderbook::levels_take_at(old(book)@.asks, i, j)
                        } else {
                            old(book)@.asks
                        },
                        locations: old(book)@.locations.remove(o.order_id as int),
                        ..old(book)@
                    })
                }))
                &&& snapshot_of(plan.snapshot, final(book)@, 20)
            }
        }),
{
    let o = match order {
        None => {
            return Err(AppError::OrderNotFound);
        }
        Some(o) => o,
    };
    if !o.is_active() {
        return Err(AppError::InvalidStatus);
    }
    let updated = Order {
        order_id: o.order_id,
        user_wallet: o.user_wallet.clone(),
        market_id: o.market_id,
        side: o.side,
        price: o.price,
        size: o.size,
        filled: o.filled,
        status: OrderStatus::Cancelled,
        on_chain_signature: match &o.on_chain_signature {
            Some(s) => Some(s.clone()),
            None => None,
        },
        created_at: o.created_at,
        updated_at: now,
    };
    let removed = book.remove_order(o.order_id);
    let snapshot = book.snapshot(20);
    Ok(CancelPlan { order: updated, removed, snapshot })
}

} // verus!
