//! Core data model: sides, statuses, orders, markets, trades, snapshots and
//! the error taxonomy surfaced to callers.

use vstd::prelude::*;

verus! {

/// Denominator for fees expressed in basis points.
pub const BPS_DENOMINATOR: u64 = 10000;

/// Fixed scale used by `Order::quote_amount` (price is quoted against 10^9 base units).
pub const QUOTE_SCALE: u64 = 1_000_000_000;

/// Largest fee, in basis points, that a market may be configured with.
pub const MAX_FEE_BPS: u16 = 100;

/// Side of an order: a bid (buy) or an offer (sell).
#[derive(Clone, Copy, Debug, PartialEq, Eq, Structural)]
pub enum OrderSide {
    Buy,
    Sell,
}

impl OrderSide {
    /// The side a taker order consumes liquidity from.
    pub open spec fn opposite_spec(self) -> OrderSide {
        match self {
            OrderSide::Buy => OrderSide::Sell,
            OrderSide::Sell => OrderSide::Buy,
        }
    }

    pub fn opposite(self) -> (r: OrderSide)
        ensures
            r == self.opposite_spec(),
    {
        match self {
            OrderSide::Buy => OrderSide::Sell,
            OrderSide::Sell => OrderSide::Buy,
        }
    }
}

/// Lifecycle state of an order.
#[derive(Clone, Copy, Debug, PartialEq, Eq, Structural)]
pub enum OrderStatus {
    Pending,
    PartiallyFilled,
    Filled,
    Cancelled,
}

/// Error taxonomy surfaced to callers of the engine.
#[derive(Clone, Debug)]
pub enum AppError {
    /// Validation failed; the payload describes the offending field.
    InvalidOrder(String),
    OrderNotFound,
    MarketNotFound,
    MarketInactive,
    /// A state change was asked of an order whose status forbids it.
    InvalidStatus,
    InsufficientBalance,
    TooManyOrders,
    Unauthorized,
    /// A checked arithmetic step would have wrapped.
    ArithmeticOverflow,
    /// The settlement queue cannot accept more tasks.
    QueueFull,
    /// A lower-layer persistence adapter failed.
    StorageError(String),
    /// A downstream collaborator (executor, transport) failed.
    DependencyError(String),
}

/// A user-submitted order as persisted and as handed to the book.
#[derive(Clone, Debug)]
pub struct Order {
    /// Globally unique, strictly monotonic 64-bit identifier.
    pub order_id: u64,
    /// Opaque identifier of the submitting user.
    pub user_wallet: String,
    /// Identifier of the market the order trades on (a 128-bit UUID value).
    pub market_id: u128,
    pub side: OrderSide,
    /// Limit price in quote units; positive, a multiple of the market tick size.
    pub price: u64,
    /// Order size in base units.
    pub size: u64,
    /// Cumulative filled size.
    pub filled: u64,
    pub status: OrderStatus,
    /// Opaque settlement identifier once the downstream executor confirmed.
    pub on_chain_signature: Option<String>,
    /// Creation time, nanoseconds since the epoch.
    pub created_at: i64,
    /// Time of the most recent state change, nanoseconds since the epoch.
    pub updated_at: i64,
}

impl Order {
    /// Well-formedness: the status is exactly determined by how much is filled.
    pub open spec fn wf(self) -> bool {
        &&& self.size >= 1
        &&& self.filled <= self.size
        &&& (self.status == OrderStatus::Filled <==> self.filled == self.size)
        &&& (self.status == OrderStatus::Pending ==> self.filled == 0)
        &&& (self.status == OrderStatus::PartiallyFilled ==> 0 < self.filled < self.size)
        &&& (self.status == OrderStatus::Cancelled ==> self.filled < self.size)
    }

    pub open spec fn remaining_spec(self) -> int {
        self.size - self.filled
    }

    /// Unfilled size still outstanding.
    pub fn remaining(&self) -> (r: u64)
        requires
            self.filled <= self.size,
        ensures
            r == self.remaining_spec(),
    {
        self.size - self.filled
    }

    /// An order is active while it can still trade or be cancelled.
    pub open spec fn is_active_spec(self) -> bool {
        self.status == OrderStatus::Pending || self.status == OrderStatus::PartiallyFilled
    }

    pub fn is_active(&self) -> (r: bool)
        ensures
            r == self.is_active_spec(),
    {
        matches!(self.status, OrderStatus::Pending | OrderStatus::PartiallyFilled)
    }

    /// Record a fill of `amount` base units at time `now`, moving the status
    /// along the lifecycle: full size reached means `Filled`, any progress
    /// short of that means `PartiallyFilled`.
    pub fn fill(&mut self, amount: u64, now: i64) -> (r: Result<(), AppError>)
        ensures
            old(self).filled + amount <= u64::MAX ==> {
                &&& r is Ok
                &&& final(self).filled == old(self).filled + amount
                &&& final(self).status == (if old(self).filled + amount >= old(self).size {
                    OrderStatus::Filled
                } else if old(self).filled + amount > 0 {
                    OrderStatus::PartiallyFilled
                } else {
                    old(self).status
                })
                &&& *final(self) == (Order {
                    filled: final(self).filled,
                    status: final(self).status,
                    updated_at: now,
                    ..*old(self)
                })
            },
            old(self).filled + amount > u64::MAX ==> {
                &&& r == Err::<(), AppError>(AppError::ArithmeticOverflow)
                &&& *final(self) == *old(self)
            },
            old(self).wf() && amount <= old(self).remaining_spec() && old(self).is_active_spec()
                ==> final(self).wf(),
    {
        match self.filled.checked_add(amount) {
            Some(new_filled) => {
                self.filled = new_filled;
                if self.filled >= self.size {
                    self.status = OrderStatus::Filled;
                } else if self.filled > 0 {
                    self.status = OrderStatus::PartiallyFilled;
                }
                self.updated_at = now;
                Ok(())
            }
            None => Err(AppError::ArithmeticOverflow),
        }
    }

    /// Cancel the order at time `now`. Only an active order can be cancelled;
    /// `Cancelled` and `Filled` are terminal.
    pub fn cancel(&mut self, now: i64) -> (r: Result<(), AppError>)
        ensures
            old(self).is_active_spec() ==> {
                &&& r is Ok
                &&& *final(self) == (Order {
                    status: OrderStatus::Cancelled,
                    updated_at: now,
                    ..*old(self)
                })
            },
            !old(self).is_active_spec() ==> {
                &&& r == Err::<(), AppError>(AppError::InvalidStatus)
                &&& *final(self) == *old(self)
            },
            old(self).wf() && old(self).is_active_spec() ==> final(self).wf(),
    {
        if self.is_active() {
            self.status = OrderStatus::Cancelled;
            self.updated_at = now;
            Ok(())
        } else {
            Err(AppError::InvalidStatus)
        }
    }

    /// Quote-unit value of the full order size at its limit price, scaled by
    /// `QUOTE_SCALE`; `None` when the product does not fit in 64 bits.
    pub fn quote_amount(&self) -> (r: Option<u64>)
        ensures
            self.size * self.price <= u64::MAX ==> r == Some(
                ((self.size * self.price) / (QUOTE_SCALE as int)) as u64,
            ),
            self.size * self.price > u64::MAX ==> r is None,
    {
        match self.size.checked_mul(self.price) {
            Some(q) => Some(q / QUOTE_SCALE),
            None => None,
        }
    }
}

/// Configuration of a tradeable pair. Immutable after creation save for
/// `is_active`.
#[derive(Clone, Debug)]
pub struct Market {
    /// Opaque 128-bit UUID value.
    pub id: u128,
    /// Opaque identifier of the base asset.
    pub base_mint: String,
    /// Opaque identifier of the quote asset.
    pub quote_mint: String,
    pub base_decimals: u32,
    pub quote_decimals: u32,
    /// Smallest accepted order size, in base units; at least 1.
    pub min_order_size: u64,
    /// Minimum price increment, in quote units; positive.
    pub tick_size: u64,
    pub maker_fee_bps: u16,
    pub taker_fee_bps: u16,
    pub is_active: bool,
    /// Creation time, nanoseconds since the epoch.
    pub created_at: i64,
}

impl Market {
    pub open spec fn wf(self) -> bool {
        &&& self.tick_size > 0
        &&& self.min_order_size >= 1
        &&& self.maker_fee_bps <= MAX_FEE_BPS
        &&& self.taker_fee_bps <= MAX_FEE_BPS
    }

    /// A size is acceptable when it reaches the market minimum.
    pub fn validate_order_size(&self, size: u64) -> (r: bool)
        ensures
            r == (size >= self.min_order_size),
    {
        size >= self.min_order_size
    }

    /// A price is acceptable when positive and aligned to the tick size.
    pub fn validate_price(&self, price: u64) -> (r: bool)
        requires
            self.tick_size > 0,
        ensures
            r == (price > 0 && price % self.tick_size == 0),
    {
        price > 0 && price % self.tick_size == 0
    }

    /// Maker fee on `amount` quote units, truncated integer basis points;
    /// `None` when the intermediate product does not fit in 64 bits.
    pub fn calculate_maker_fee(&self, amount: u64) -> (r: Option<u64>)
        ensures
            amount * self.maker_fee_bps <= u64::MAX ==> r == Some(
                ((amount * self.maker_fee_bps) / (BPS_DENOMINATOR as int)) as u64,
            ),
            amount * self.maker_fee_bps > u64::MAX ==> r is None,
    {
        match amount.checked_mul(self.maker_fee_bps as u64) {
            Some(x) => Some(x / BPS_DENOMINATOR),
            None => None,
        }
    }

    /// Taker fee on `amount` quote units, truncated integer basis points;
    /// `None` when the intermediate product does not fit in 64 bits.
    pub fn calculate_taker_fee(&self, amount: u64) -> (r: Option<u64>)
        ensures
            amount * self.taker_fee_bps <= u64::MAX ==> r == Some(
                ((amount * self.taker_fee_bps) / (BPS_DENOMINATOR as int)) as u64,
            ),
            amount * self.taker_fee_bps > u64::MAX ==> r is None,
    {
        match amount.checked_mul(self.taker_fee_bps as u64) {
            Some(x) => Some(x / BPS_DENOMINATOR),
            None => None,
        }
    }
}

/// Durable record of an executed cross.
#[derive(Clone, Debug)]
pub struct Trade {
    pub market_id: u128,
    pub maker_order_id: u64,
    pub taker_order_id: u64,
    pub maker_wallet: String,
    pub taker_wallet: String,
    /// Execution price: always the maker's resting price.
    pub price: u64,
    pub size: u64,
    pub maker_fee: u64,
    pub taker_fee: u64,
    /// Opaque identifier assigned after downstream confirmation.
    pub settlement_signature: Option<String>,
    pub created_at: i64,
}

/// One aggregated price level of a snapshot.
#[derive(Clone, Debug)]
pub struct OrderbookLevel {
    pub price: u64,
    /// Sum of the remaining size across the level's entries.
    pub size: u128,
    /// Number of resting entries at this price.
    pub order_count: usize,
}

/// Aggregated top-N view of both sides of a book at one point in time.
#[derive(Clone, Debug)]
pub struct OrderbookSnapshot {
    pub market_id: u128,
    /// Highest price first.
    pub bids: Vec<OrderbookLevel>,
    /// Lowest price first.
    pub asks: Vec<OrderbookLevel>,
    pub last_price: Option<u64>,
    pub timestamp: i64,
}

/// Body of a request to place an order.
#[derive(Clone, Debug)]
pub struct PlaceOrderRequest {
    pub market_id: u128,
    pub side: OrderSide,
    pub price: u64,
    pub size: u64,
    pub wallet: String,
    pub signature: String,
}

/// Body of a request to cancel an order.
#[derive(Clone, Debug)]
pub struct CancelOrderRequest {
    pub order_id: u64,
    pub wallet: String,
    pub signature: String,
}

/// Payload of the health endpoint.
#[derive(Clone, Debug)]
pub struct HealthResponse {
    pub status: String,
    pub version: String,
}

/// Query parameters of the book snapshot endpoint.
#[derive(Clone, Copy, Debug)]
pub struct OrderbookQuery {
    pub depth: Option<usize>,
}

/// Query parameters of the recent-trades endpoint.
#[derive(Clone, Copy, Debug)]
pub struct TradesQuery {
    pub limit: Option<u64>,
}

/// Query parameters of the per-user orders endpoint.
#[derive(Clone, Copy, Debug)]
pub struct UserOrdersQuery {
    pub market_id: Option<u128>,
}

/// Trade summary returned from order placement.
#[derive(Clone, Debug)]
pub struct TradeInfo {
    pub maker_order_id: u64,
    pub price: u64,
    pub size: u64,
}

/// One live-update message of the pub/sub fan-out. Client-to-server
/// variants manage subscriptions; server-to-client variants carry book and
/// order events. The transport encodes it as a tagged envelope.
#[derive(Clone, Debug)]
pub enum WsMessage {
    Subscribe { market_id: u128 },
    Unsubscribe { market_id: u128 },
    OrderbookSnapshot(OrderbookSnapshot),
    OrderbookUpdate { market_id: u128, bids: Vec<OrderbookLevel>, asks: Vec<OrderbookLevel> },
    Trade(Trade),
    OrderUpdate(Order),
    Error { message: String },
}

/// Service configuration, resolved from the environment by the host program.
#[derive(Clone, Debug)]
pub struct Config {
    pub server_addr: String,
    pub database_url: String,
    pub redis_url: String,
    pub solana_rpc_url: String,
    pub program_id: String,
}

} // verus!
