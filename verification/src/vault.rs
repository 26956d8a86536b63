//! Per-user fund ledgers for the settlement program: deposits, withdrawals,
//! order locks, and the double-entry moves of a settled trade.

use vstd::prelude::*;
use crate::types::{AppError, Market, Order, OrderSide, OrderStatus, MAX_FEE_BPS};

verus! {

/// A user's funds on one market: free and locked balances per asset, plus
/// lifetime totals.
#[derive(Clone, Debug)]
pub struct UserVault {
    pub user: String,
    pub market_id: u128,
    pub base_balance: u64,
    pub quote_balance: u64,
    pub base_locked: u64,
    pub quote_locked: u64,
    pub total_base_deposited: u64,
    pub total_quote_deposited: u64,
    pub total_base_withdrawn: u64,
    pub total_quote_withdrawn: u64,
}

impl UserVault {
    /// Locked funds never exceed the balance that backs them.
    pub open spec fn wf(self) -> bool {
        &&& self.base_locked <= self.base_balance
        &&& self.quote_locked <= self.quote_balance
    }

    pub open spec fn available_base_spec(self) -> int {
        self.base_balance - self.base_locked
    }

    pub open spec fn available_quote_spec(self) -> int {
        self.quote_balance - self.quote_locked
    }

    /// A fresh, empty vault.
    pub fn new(user: String, market_id: u128) -> (r: UserVault)
        ensures
            r.wf(),
            r.user == user,
            r.market_id == market_id,
            r.base_balance == 0 && r.quote_balance == 0,
            r.base_locked == 0 && r.quote_locked == 0,
            r.total_base_deposited == 0 && r.total_quote_deposited == 0,
            r.total_base_withdrawn == 0 && r.total_quote_withdrawn == 0,
    {
        UserVault {
            user,
            market_id,
            base_balance: 0,
            quote_balance: 0,
            base_locked: 0,
            quote_locked: 0,
            total_base_deposited: 0,
            total_quote_deposited: 0,
            total_base_withdrawn: 0,
            total_quote_withdrawn: 0,
        }
    }

    /// Base units free to lock or withdraw.
    pub fn available_base(&self) -> (r: u64)
        requires
            self.wf(),
        ensures
            r == self.available_base_spec(),
    {
        self.base_balance - self.base_locked
    }

    /// Quote units free to lock or withdraw.
    pub fn available_quote(&self) -> (r: u64)
        requires
            self.wf(),
        ensures
            r == self.available_quote_spec(),
    {
        self.quote_balance - self.quote_locked
    }

    /// Lock base units behind a resting sell order.
    pub fn lock_base(&mut self, amount: u64) -> (r: Result<(), AppError>)
        requires
            old(self).wf(),
        ensures
            final(self).wf(),
            old(self).available_base_spec() >= amount ==> {
                &&& r is Ok
                &&& *final(self) == (UserVault {
                    base_locked: (old(self).base_locked + amount) as u64,
                    ..*old(self)
                })
            },
            old(self).available_base_spec() < amount ==> {
                &&& r == Err::<(), AppError>(AppError::InsufficientBalance)
                &&& *final(self) == *old(self)
            },
    {
        if self.available_base() >= amount {
            self.base_locked = self.base_locked + amount;
            Ok(())
        } else {
            Err(AppError::InsufficientBalance)
        }
    }

    /// Lock quote units behind a resting buy order.
    pub fn lock_quote(&mut self, amount: u64) -> (r: Result<(), AppError>)
        requires
            old(self).wf(),
        ensures
            final(self).wf(),
            old(self).available_quote_spec() >= amount ==> {
                &&& r is Ok
                &&& *final(self) == (UserVault {
                    quote_locked: (old(self).quote_locked + amount) as u64,
                    ..*old(self)
                })
            },
            old(self).available_quote_spec() < amount ==> {
                &&& r == Err::<(), AppError>(AppError::InsufficientBalance)
                &&& *final(self) == *old(self)
            },
    {
        if self.available_quote() >= amount {
            self.quote_locked = self.quote_locked + amount;
            Ok(())
        } else {
            Err(AppError::InsufficientBalance)
        }
    }

    /// Release base units (a cancelled or settled sell order).
    pub fn unlock_base(&mut self, amount: u64) -> (r: Result<(), AppError>)
        requires
            old(self).wf(),
        ensures
            final(self).wf(),
            amount <= old(self).base_locked ==> {
                &&& r is Ok
                &&& *final(self) == (UserVault {
                    base_locked: (old(self).base_locked - amount) as u64,
                    ..*old(self)
                })
            },
            amount > old(self).base_locked ==> {
                &&& r == Err::<(), AppError>(AppError::ArithmeticOverflow)
                &&& *final(self) == *old(self)
            },
    {
        match self.base_locked.checked_sub(amount) {
            Some(x) => {
                self.base_locked = x;
                Ok(())
            }
            None => Err(AppError::ArithmeticOverflow),
        }
    }

    /// Release quote units (a cancelled or settled buy order).
    pub fn unlock_quote(&mut self, amount: u64) -> (r: Result<(), AppError>)
        requires
            old(self).wf(),
        ensures
            final(self).wf(),
            amount <= old(self).quote_locked ==> {
                &&& r is Ok
                &&& *final(self) == (UserVault {
                    quote_locked: (old(self).quote_locked - amount) as u64,
                    ..*old(self)
                })
            },
            amount > old(self).quote_locked ==> {
                &&& r == Err::<(), AppError>(AppError::ArithmeticOverflow)
                &&& *final(self) == *old(self)
            },
    {
        match self.quote_locked.checked_sub(amount) {
            Some(x) => {
                self.quote_locked = x;
                Ok(())
            }
            None => Err(AppError::ArithmeticOverflow),
        }
    }

    /// Credit a deposit of one asset, tracking the lifetime total. Nothing
    /// changes when a counter would overflow.
    pub fn deposit(&mut self, amount: u64, is_base: bool) -> (r: Result<(), AppError>)
        requires
            old(self).wf(),
        ensures
            final(self).wf(),
            is_base && old(self).base_balance + amount <= u64::MAX && old(self).total_base_deposited + amount <= u64::MAX ==> {
                &&& r is Ok
                &&& *final(self) == (UserVault {
                    base_balance: (old(self).base_balance + amount) as u64,
                    total_base_deposited: (old(self).total_base_deposited + amount) as u64,
                    ..*old(self)
                })
            },
            !is_base && old(self).quote_balance + amount <= u64::MAX && old(self).total_quote_deposited + amount <= u64::MAX ==> {
                &&& r is Ok
                &&& *final(self) == (UserVault {
                    quote_balance: (old(self).quote_balance + amount) as u64,
                    total_quote_deposited: (old(self).total_quote_deposited + amount) as u64,
                    ..*old(self)
                })
            },
            (if is_base {
                old(self).base_balance + amount > u64::MAX || old(self).total_base_deposited
                    + amount > u64::MAX
            } else {
                old(self).quote_balance + amount > u64::MAX || old(self).total_quote_deposited
                    + amount > u64::MAX
            }) ==> {
                &&& r == Err::<(), AppError>(AppError::ArithmeticOverflow)
                &&& *final(self) == *old(self)
            },
    {
        if is_base {
            match (self.base_balance.checked_add(amount), self.total_base_deposited.checked_add(
                amount,
            )) {
                (Some(b), Some(t)) => {
                    self.base_balance = b;
                    self.total_base_deposited = t;
                    Ok(())
                }
                _ => Err(AppError::ArithmeticOverflow),
            }
        } else {
            match (self.quote_balance.checked_add(amount), self.total_quote_deposited.checked_add(
                amount,
            )) {
                (Some(b), Some(t)) => {
                    self.quote_balance = b;
                    self.total_quote_deposited = t;
                    Ok(())
                }
                _ => Err(AppError::ArithmeticOverflow),
            }
        }
    }

    /// Debit a withdrawal of one asset: only funds not locked behind open
    /// orders may leave. Nothing changes on failure.
    pub fn withdraw(&mut self, amount: u64, is_base: bool) -> (r: Result<(), AppError>)
        requires
            old(self).wf(),
        ensures
            final(self).wf(),
            is_base && old(self).available_base_spec() >= amount && old(self).total_base_withdrawn
                + amount <= u64::MAX ==> {
                &&& r is Ok
                &&& *final(self) == (UserVault {
                    base_balance: (old(self).base_balance - amount) as u64,
                    total_base_withdrawn: (old(self).total_base_withdrawn + amount) as u64,
                    ..*old(self)
                })
            },
            !is_base && old(self).available_quote_spec() >= amount && old(self).total_quote_withdrawn + amount <= u64::MAX ==> {
                &&& r is Ok
                &&& *final(self) == (UserVault {
                    quote_balance: (old(self).quote_balance - amount) as u64,
                    total_quote_withdrawn: (old(self).total_quote_withdrawn + amount) as u64,
                    ..*old(self)
                })
            },
            (if is_base {
                old(self).available_base_spec() < amount
            } else {
                old(self).available_quote_spec() < amount
            }) ==> {
                &&& r == Err::<(), AppError>(AppError::InsufficientBalance)
                &&& *final(self) == *old(self)
            },
            (if is_base {
                old(self).available_base_spec() >= amount && old(self).total_base_withdrawn
                    + amount > u64::MAX
            } else {
                old(self).available_quote_spec() >= amount && old(self).total_quote_withdrawn
                    + amount > u64::MAX
            }) ==> {
                &&& r == Err::<(), AppError>(AppError::ArithmeticOverflow)
                &&& *final(self) == *old(self)
            },
    {
        if is_base {
            if self.available_base() < amount {
                return Err(AppError::InsufficientBalance);
            }
            match self.total_base_withdrawn.checked_add(amount) {
                Some(t) => {
                    self.base_balance = self.base_balance - amount;
                    self.total_base_withdrawn = t;
                    Ok(())
                }
                None => Err(AppError::ArithmeticOverflow),
            }
        } else {
            if self.available_quote() < amount {
                return Err(AppError::InsufficientBalance);
            }
            match self.total_quote_withdrawn.checked_add(amount) {
                Some(t) => {
                    self.quote_balance = self.quote_balance - amount;
                    self.total_quote_withdrawn = t;
                    Ok(())
                }
                None => Err(AppError::ArithmeticOverflow),
            }
        }
    }
}

/// Whether the double-entry moves of one settled trade all fit: the seller
/// of base has the base locked, the payer of quote can cover the amount and
/// its fee, and no balance overflows.
pub open spec fn settle_moves_ok(
    maker: UserVault,
    taker: UserVault,
    maker_side: OrderSide,
    base_amount: int,
    quote_amount: int,
    maker_fee: int,
    taker_fee: int,
) -> bool {
    match maker_side {
        OrderSide::Sell => {
            &&& maker.base_locked >= base_amount
            &&& quote_amount >= maker_fee
            &&& maker.quote_balance + (quote_amount - maker_fee) <= u64::MAX
            &&& taker.quote_locked >= quote_amount
            &&& quote_amount + taker_fee <= u64::MAX
            &&& taker.quote_balance >= quote_amount + taker_fee
            &&& taker.available_quote_spec() >= taker_fee
            &&& taker.base_balance + base_amount <= u64::MAX
        },
        OrderSide::Buy => {
            &&& maker.quote_locked >= quote_amount
            &&& quote_amount + maker_fee <= u64::MAX
            &&& maker.quote_balance >= quote_amount + maker_fee
            &&& maker.available_quote_spec() >= maker_fee
            &&& maker.base_balance + base_amount <= u64::MAX
            &&& taker.base_locked >= base_amount
            &&& quote_amount >= taker_fee
            &&& taker.quote_balance + (quote_amount - taker_fee) <= u64::MAX
        },
    }
}

/// Apply one settled trade to both vaults: the base seller hands over the
/// base and receives the quote net of its fee; the base buyer pays the
/// quote plus nothing (its fee is deducted from what it receives when it
/// sold, or added to what it pays when it bought). All moves land together
/// or not at all, and across the two vaults base is conserved while quote
/// shrinks by exactly the two fees (which leave for the fee recipient).
pub fn settle_trade_vaults(
    maker: &mut UserVault,
    taker: &mut UserVault,
    maker_side: OrderSide,
    base_amount: u64,
    quote_amount: u64,
    maker_fee: u64,
    taker_fee: u64,
) -> (r: Result<(), AppError>)
    requires
        old(maker).wf(),
        old(taker).wf(),
    ensures
        final(maker).wf(),
        final(taker).wf(),
        settle_moves_ok(
            *old(maker),
            *old(taker),
            maker_side,
            base_amount as int,
            quote_amount as int,
            maker_fee as int,
            taker_fee as int,
        ) ==> {
            &&& r is Ok
            &&& (match maker_side {
                OrderSide::Sell => {
                    &&& *final(maker) == (UserVault {
                        base_locked: (old(maker).base_locked - base_amount) as u64,
                        base_balance: (old(maker).base_balance - base_amount) as u64,
                        quote_balance: (old(maker).quote_balance + quote_amount - maker_fee) as u64,
                        ..*old(maker)
                    })
                    &&& *final(taker) == (UserVault {
                        quote_locked: (old(taker).quote_locked - quote_amount) as u64,
                        quote_balance: (old(taker).quote_balance - quote_amount - taker_fee) as u64,
                        base_balance: (old(taker).base_balance + base_amount) as u64,
                        ..*old(taker)
                    })
                },
                OrderSide::Buy => {
                    &&& *final(maker) == (UserVault {
                        quote_locked: (old(maker).quote_locked - quote_amount) as u64,
                        quote_balance: (old(maker).quote_balance - quote_amount - maker_fee) as u64,
                        base_balance: (old(maker).base_balance + base_amount) as u64,
                        ..*old(maker)
                    })
                    &&& *final(taker) == (UserVault {
                        base_locked: (old(taker).base_locked - base_amount) as u64,
                        base_balance: (old(taker).base_balance - base_amount) as u64,
                        quote_balance: (old(taker).quote_balance + quote_amount - taker_fee) as u64,
                        ..*old(taker)
                    })
                },
            })
            &&& final(maker).base_balance + final(taker).base_balance == old(maker).base_balance
                + old(taker).base_balance
            &&& final(maker).quote_balance + final(taker).quote_balance == old(
                maker,
            ).quote_balance + old(taker).quote_balance - maker_fee - taker_fee
        },
        !settle_moves_ok(
            *old(maker),
            *old(taker),
            maker_side,
            base_amount as int,
            quote_amount as int,
            maker_fee as int,
            taker_fee as int,
        ) ==> {
            &&& r is Err
            &&& *final(maker) == *old(maker)
            &&& *final(taker) == *old(taker)
        },
{
    match maker_side {
        OrderSide::Sell => {
            if maker.base_locked < base_amount {
                return Err(AppError::InsufficientBalance);
            }
            if quote_amount < maker_fee {
                return Err(AppError::ArithmeticOverflow);
            }
            let maker_quote_received = quote_amount - maker_fee;
            if maker.quote_balance > u64::MAX - maker_quote_received {
                return Err(AppError::ArithmeticOverflow);
            }
            if taker.quote_locked < quote_amount {
                return Err(AppError::InsufficientBalance);
            }
            if taker_fee > u64::MAX - quote_amount {
                return Err(AppError::ArithmeticOverflow);
            }
            let taker_quote_paid = quote_amount + taker_fee;
            if taker.quote_balance < taker_quote_paid {
                return Err(AppError::InsufficientBalance);
            }
            if taker.available_quote() < taker_fee {
                return Err(AppError::InsufficientBalance);
            }
            if taker.base_balance > u64::MAX - base_amount {
                return Err(AppError::ArithmeticOverflow);
            }
            maker.base_locked = maker.base_locked - base_amount;
            maker.base_balance = maker.base_balance - base_amount;
            maker.quote_balance = maker.quote_balance + maker_quote_received;
            taker.quote_locked = taker.quote_locked - quote_amount;
            taker.quote_balance = taker.quote_balance - taker_quote_paid;
            taker.base_balance = taker.base_balance + base_amount;
            Ok(())
        }
        OrderSide::Buy => {
            if maker.quote_locked < quote_amount {
                return Err(AppError::InsufficientBalance);
            }
            if maker_fee > u64::MAX - quote_amount {
                return Err(AppError::ArithmeticOverflow);
            }
            let maker_quote_paid = quote_amount + maker_fee;
            if maker.quote_balance < maker_quote_paid {
                return Err(AppError::InsufficientBalance);
            }
            if maker.available_quote() < maker_fee {
                return Err(AppError::InsufficientBalance);
            }
            if maker.base_balance > u64::MAX - base_amount {
                return Err(AppError::ArithmeticOverflow);
            }
            if taker.base_locked < base_amount {
                return Err(AppError::InsufficientBalance);
            }
            if quote_amount < taker_fee {
                return Err(AppError::ArithmeticOverflow);
            }
            let taker_quote_received = quote_amount - taker_fee;
            if taker.quote_balance > u64::MAX - taker_quote_received {
                return Err(AppError::ArithmeticOverflow);
            }
            maker.quote_locked = maker.quote_locked - quote_amount;
            maker.quote_balance = maker.quote_balance - maker_quote_paid;
            maker.base_balance = maker.base_balance + base_amount;
            taker.base_locked = taker.base_locked - base_amount;
            taker.base_balance = taker.base_balance - base_amount;
            taker.quote_balance = taker.quote_balance + taker_quote_received;
            Ok(())
        }
    }
}

/// Quote units an order of `size` base units at `price` is worth, scaled
/// by `10^base_decimals` and truncated; `None` on 64-bit overflow.
pub fn order_quote_value(size: u64, price: u64, base_decimals: u32) -> (r: Option<u64>)
    ensures
        ({
            let sp = size * price;
            let p10 = crate::settlement::pow10(base_decimals as nat);
            if sp <= u64::MAX && p10 <= u64::MAX {
                r == Some((sp / p10) as u64)
            } else {
                r is None
            }
        }),
{
    proof {
        crate::settlement::lemma_pow10_pos(base_decimals as nat);
    }
    let sp = match size.checked_mul(price) {
        Some(x) => x,
        None => {
            return None;
        }
    };
    match crate::settlement::pow10_checked(base_decimals) {
        Some(p10) => Some(sp / p10),
        None => None,
    }
}

/// Reserve funds behind a freshly placed order: a buy locks the quote value
/// of the order, a sell locks its base size. Returns the quote value; on
/// any failure the vault is untouched.
pub fn lock_for_order(
    vault: &mut UserVault,
    side: OrderSide,
    size: u64,
    price: u64,
    base_decimals: u32,
) -> (r: Result<u64, AppError>)
    requires
        old(vault).wf(),
    ensures
        final(vault).wf(),
        ({
            let sp = size * price;
            let p10 = crate::settlement::pow10(base_decimals as nat);
            let q = sp / p10;
            if sp > u64::MAX || p10 > u64::MAX {
                r == Err::<u64, AppError>(AppError::ArithmeticOverflow) && *final(vault) == *old(
                    vault,
                )
            } else {
                match side {
                    OrderSide::Buy => {
                        if old(vault).available_quote_spec() >= q {
                            r == Ok::<u64, AppError>(q as u64) && *final(vault) == (UserVault {
                                quote_locked: (old(vault).quote_locked + q) as u64,
                                ..*old(vault)
                            })
                        } else {
                            r == Err::<u64, AppError>(AppError::InsufficientBalance) && *final(vault) == *old(vault)
                        }
                    },
                    OrderSide::Sell => {
                        if old(vault).available_base_spec() >= size {
                            r == Ok::<u64, AppError>(q as u64) && *final(vault) == (UserVault {
                                base_locked: (old(vault).base_locked + size) as u64,
                                ..*old(vault)
                            })
                        } else {
                            r == Err::<u64, AppError>(AppError::InsufficientBalance) && *final(vault) == *old(vault)
                        }
                    },
                }
            }
        }),
{
    proof {
        crate::settlement::lemma_pow10_pos(base_decimals as nat);
    }
    let quote_value = match order_quote_value(size, price, base_decimals) {
        Some(q) => q,
        None => {
            return Err(AppError::ArithmeticOverflow);
        }
    };
    match side {
        OrderSide::Buy => {
            match vault.lock_quote(quote_value) {
                Ok(u) => u,
                Err(e) => {
                    return Err(e);
                }
            };
        }
        OrderSide::Sell => {
            match vault.lock_base(size) {
                Ok(u) => u,
                Err(e) => {
                    return Err(e);
                }
            };
        }
    }
    Ok(quote_value)
}

/// Release what a cancelled order still had reserved: a buy frees the quote
/// value of its remaining size, a sell frees the remaining base. On any
/// failure the vault is untouched.
pub fn unlock_for_cancel(
    vault: &mut UserVault,
    side: OrderSide,
    remaining: u64,
    price: u64,
    base_decimals: u32,
) -> (r: Result<(), AppError>)
    requires
        old(vault).wf(),
    ensures
        final(vault).wf(),
        ({
            let sp = remaining * price;
            let p10 = crate::settlement::pow10(base_decimals as nat);
            let q = sp / p10;
            if sp > u64::MAX || p10 > u64::MAX {
                r == Err::<(), AppError>(AppError::ArithmeticOverflow) && *final(vault) == *old(
                    vault,
                )
            } else {
                match side {
                    OrderSide::Buy => {
                        if q <= old(vault).quote_locked {
                            r is Ok && *final(vault) == (UserVault {
                                quote_locked: (old(vault).quote_locked - q) as u64,
                                ..*old(vault)
                            })
                        } else {
                            r == Err::<(), AppError>(AppError::ArithmeticOverflow) && *final(vault) == *old(vault)
                        }
                    },
                    OrderSide::Sell => {
                        if remaining <= old(vault).base_locked {
                            r is Ok && *final(vault) == (UserVault {
                                base_locked: (old(vault).base_locked - remaining) as u64,
                                ..*old(vault)
                            })
                        } else {
                            r == Err::<(), AppError>(AppError::ArithmeticOverflow) && *final(vault) == *old(vault)
                        }
                    },
                }
            }
        }),
{
    proof {
        crate::settlement::lemma_pow10_pos(base_decimals as nat);
    }
    let quote_value = match order_quote_value(remaining, price, base_decimals) {
        Some(q) => q,
        None => {
            return Err(AppError::ArithmeticOverflow);
        }
    };
    match side {
        OrderSide::Buy => {
            match vault.unlock_quote(quote_value) {
                Ok(u) => u,
                Err(e) => {
                    return Err(e);
                }
            };
        }
        OrderSide::Sell => {
            match vault.unlock_base(remaining) {
                Ok(u) => u,
                Err(e) => {
                    return Err(e);
                }
            };
        }
    }
    Ok(())
}

/// Whether every checked arithmetic step of a settlement fits in 64 bits.
pub open spec fn settle_amounts_ok(fill_size: int, fill_price: int, m: Market) -> bool {
    let p10 = crate::settlement::pow10(m.base_decimals as nat);
    let q = (fill_size * fill_price) / p10;
    &&& fill_size * fill_price <= u64::MAX
    &&& p10 <= u64::MAX
    &&& q * m.maker_fee_bps <= u64::MAX
    &&& q * m.taker_fee_bps <= u64::MAX
    &&& q * m.maker_fee_bps / (crate::types::BPS_DENOMINATOR as int) + q * m.taker_fee_bps / (
    crate::types::BPS_DENOMINATOR as int) <= u64::MAX
}

/// Nothing moved: both vaults and both orders as they were.
pub open spec fn settle_untouched(
    mv0: UserVault,
    mv1: UserVault,
    tv0: UserVault,
    tv1: UserVault,
    mo0: Order,
    mo1: Order,
    to0: Order,
    to1: Order,
) -> bool {
    &&& mv1 == mv0
    &&& tv1 == tv0
    &&& mo1 == mo0
    &&& to1 == to0
}

/// Settle one matched fill between two users: validate both orders, derive
/// the quote amount and both fees from the market, move the funds through
/// both vaults, and advance both orders' fill state. Either every effect
/// lands, or an error is returned and nothing at all has moved.
///
/// On success the returned value is the total fee amount that leaves the
/// two vaults for the fee recipient; base units are conserved between the
/// two vaults.
#[verifier::rlimit(60)]
pub fn settle_trade(
    maker_vault: &mut UserVault,
    taker_vault: &mut UserVault,
    maker_order: &mut Order,
    taker_order: &mut Order,
    market: &Market,
    fill_size: u64,
    fill_price: u64,
    now: i64,
) -> (r: Result<u64, AppError>)
    requires
        old(maker_vault).wf(),
        old(taker_vault).wf(),
        old(maker_order).wf(),
        old(taker_order).wf(),
    ensures
        final(maker_vault).wf(),
        final(taker_vault).wf(),
        ({
            let p10 = crate::settlement::pow10(market.base_decimals as nat);
            let q = (fill_size * fill_price) / p10;
            let mf = q * market.maker_fee_bps / (crate::types::BPS_DENOMINATOR as int);
            let tf = q * market.taker_fee_bps / (crate::types::BPS_DENOMINATOR as int);
            let untouched = settle_untouched(
                *old(maker_vault),
                *final(maker_vault),
                *old(taker_vault),
                *final(taker_vault),
                *old(maker_order),
                *final(maker_order),
                *old(taker_order),
                *final(taker_order),
            );
            &&& ((!old(maker_order).is_active_spec() || !old(taker_order).is_active_spec()) ==> r
                == Err::<u64, AppError>(AppError::InvalidStatus) && untouched)
            &&& ((old(maker_order).is_active_spec() && old(taker_order).is_active_spec() && (old(
                maker_order,
            ).remaining_spec() < fill_size || old(taker_order).remaining_spec() < fill_size)) ==> (
            r matches Err(AppError::InvalidOrder(_))) && untouched)
            &&& ((old(maker_order).is_active_spec() && old(taker_order).is_active_spec() && old(
                maker_order,
            ).remaining_spec() >= fill_size && old(taker_order).remaining_spec() >= fill_size
                && !settle_amounts_ok(fill_size as int, fill_price as int, *market)) ==> r
                == Err::<u64, AppError>(AppError::ArithmeticOverflow) && untouched)
            &&& ((old(maker_order).is_active_spec() && old(taker_order).is_active_spec() && old(
                maker_order,
            ).remaining_spec() >= fill_size && old(taker_order).remaining_spec() >= fill_size
                && settle_amounts_ok(fill_size as int, fill_price as int, *market)
                && !settle_moves_ok(
                *old(maker_vault),
                *old(taker_vault),
                old(maker_order).side,
                fill_size as int,
                q,
                mf,
                tf,
            )) ==> r is Err && untouched)
            &&& ((old(maker_order).is_active_spec() && old(taker_order).is_active_spec() && old(
                maker_order,
            ).remaining_spec() >= fill_size && old(taker_order).remaining_spec() >= fill_size
                && settle_amounts_ok(fill_size as int, fill_price as int, *market)
                && settle_moves_ok(
                *old(maker_vault),
                *old(taker_vault),
                old(maker_order).side,
                fill_size as int,
                q,
                mf,
                tf,
            )) ==> {
                &&& r == Ok::<u64, AppError>((mf + tf) as u64)
                &&& final(maker_vault).base_balance + final(taker_vault).base_balance == old(
                    maker_vault,
                ).base_balance + old(taker_vault).base_balance
                &&& final(maker_vault).quote_balance + final(taker_vault).quote_balance == old(
                    maker_vault,
                ).quote_balance + old(taker_vault).quote_balance - mf - tf
                &&& *final(maker_order) == (Order {
                    filled: (old(maker_order).filled + fill_size) as u64,
                    status: if old(maker_order).filled + fill_size >= old(maker_order).size {
                        OrderStatus::Filled
                    } else if old(maker_order).filled + fill_size > 0 {
                        OrderStatus::PartiallyFilled
                    } else {
                        old(maker_order).status
                    },
                    updated_at: now,
                    ..*old(maker_order)
                })
                &&& *final(taker_order) == (Order {
                    filled: (old(taker_order).filled + fill_size) as u64,
                    status: if old(taker_order).filled + fill_size >= old(taker_order).size {
                        OrderStatus::Filled
                    } else if old(taker_order).filled + fill_size > 0 {
                        OrderStatus::PartiallyFilled
                    } else {
                        old(taker_order).status
                    },
                    updated_at: now,
                    ..*old(taker_order)
                })
                &&& final(maker_order).wf()
                &&& final(taker_order).wf()
            })
        }),
{
    proof {
        crate::settlement::lemma_pow10_pos(market.base_decimals as nat);
    }
    if !maker_order.is_active() || !taker_order.is_active() {
        return Err(AppError::InvalidStatus);
    }
    if maker_order.remaining() < fill_size || taker_order.remaining() < fill_size {
        return Err(AppError::InvalidOrder("settlement amount mismatch".to_owned()));
    }
    let quote_amount = match order_quote_value(fill_size, fill_price, market.base_decimals) {
        Some(q) => q,
        None => {
            return Err(AppError::ArithmeticOverflow);
        }
    };
    let maker_fee = match market.calculate_maker_fee(quote_amount) {
        Some(f) => f,
        None => {
            return Err(AppError::ArithmeticOverflow);
        }
    };
    let taker_fee = match market.calculate_taker_fee(quote_amount) {
        Some(f) => f,
        None => {
            return Err(AppError::ArithmeticOverflow);
        }
    };
    let total_fees = match maker_fee.checked_add(taker_fee) {
        Some(t) => t,
        None => {
            return Err(AppError::ArithmeticOverflow);
        }
    };
    match settle_trade_vaults(
        maker_vault,
        taker_vault,
        maker_order.side,
        fill_size,
        quote_amount,
        maker_fee,
        taker_fee,
    ) {
        Ok(u) => u,
        Err(e) => {
            return Err(e);
        }
    };
    let maker_fill = maker_order.fill(fill_size, now);
    proof {
        assert(maker_fill is Ok);
    }
    let taker_fill = taker_order.fill(fill_size, now);
    proof {
        assert(taker_fill is Ok);
    }
    Ok(total_fees)
}

/// Whether a market configuration is acceptable at initialization: a
/// positive tick, a positive minimum size, and fees within the cap.
pub fn validate_market_config(
    tick_size: u64,
    min_order_size: u64,
    maker_fee_bps: u16,
    taker_fee_bps: u16,
) -> (r: bool)
    ensures
        r == (tick_size > 0 && min_order_size >= 1 && maker_fee_bps <= MAX_FEE_BPS && taker_fee_bps
            <= MAX_FEE_BPS),
{
    tick_size > 0 && min_order_size >= 1 && maker_fee_bps <= MAX_FEE_BPS && taker_fee_bps
        <= MAX_FEE_BPS
}

} // verus!
