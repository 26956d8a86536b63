//! Settlement bookkeeping: the task queued per trade, and the fee arithmetic
//! applied when a task is drained.

use vstd::prelude::*;
use crate::types::{Market, Trade, AppError, BPS_DENOMINATOR};
use crate::matching::TradeMatch;

verus! {

/// Default capacity of the settlement queue's bounded channel.
pub const SETTLEMENT_QUEUE_CAPACITY: usize = 10000;

/// One buffered unit of settlement work.
#[derive(Clone, Debug)]
pub struct SettlementTask {
    pub trade_match: TradeMatch,
    pub market_id: u128,
    pub maker_fee_bps: u16,
    pub taker_fee_bps: u16,
}

/// The amounts a settlement derives from one trade.
#[derive(Clone, Copy, Debug)]
pub struct SettlementAmounts {
    /// Quote units exchanged: `size * price / 10^base_decimals`, truncated.
    pub quote_amount: u64,
    pub maker_fee: u64,
    pub taker_fee: u64,
}

/// Ten to the `exp`.
pub open spec fn pow10(exp: nat) -> int
    decreases exp,
{
    if exp == 0 {
        1
    } else {
        10 * pow10((exp - 1) as nat)
    }
}

pub proof fn lemma_pow10_pos(exp: nat)
    ensures
        pow10(exp) >= 1,
    decreases exp,
{
    if exp > 0 {
        lemma_pow10_pos((exp - 1) as nat);
    }
}

pub proof fn lemma_pow10_increases(a: nat, b: nat)
    requires
        a <= b,
    ensures
        pow10(a) <= pow10(b),
    decreases b,
{
    if a < b {
        lemma_pow10_increases(a, (b - 1) as nat);
        lemma_pow10_pos((b - 1) as nat);
    }
}

/// `10^exp` as a machine word; `None` when it does not fit in 64 bits.
#[verifier::loop_isolation(false)]
pub(crate) fn pow10_checked(exp: u32) -> (r: Option<u64>)
    ensures
        pow10(exp as nat) <= u64::MAX ==> r == Some(pow10(exp as nat) as u64),
        pow10(exp as nat) > u64::MAX ==> r is None,
{
    let mut acc: u64 = 1;
    let mut i: u32 = 0;
    while i < exp
        invariant
            0 <= i <= exp,
            acc == pow10(i as nat),
        decreases exp - i,
    {
        match acc.checked_mul(10) {
            Some(x) => {
                acc = x;
            }
            None => {
                proof {
                    lemma_pow10_increases((i + 1) as nat, exp as nat);
                }
                return None;
            }
        }
        i += 1;
    }
    Some(acc)
}

/// The fee arithmetic for one settlement task, all of it checked:
/// `quote = size * price / 10^base_decimals`, each fee
/// `quote * bps / 10000` truncated; any 64-bit overflow is reported.
pub fn compute_settlement(task: &SettlementTask, market: &Market) -> (r: Result<
    SettlementAmounts,
    AppError,
>)
    ensures
        ({
            let sp = task.trade_match.size * task.trade_match.price;
            let p10 = pow10(market.base_decimals as nat);
            let q = sp / p10;
            if sp <= u64::MAX && p10 <= u64::MAX && q * task.maker_fee_bps <= u64::MAX && q
                * task.taker_fee_bps <= u64::MAX {
                r matches Ok(a) && a.quote_amount == q && a.maker_fee == q * task.maker_fee_bps
                    / (BPS_DENOMINATOR as int) && a.taker_fee == q * task.taker_fee_bps / (
                BPS_DENOMINATOR as int)
            } else {
                r == Err::<SettlementAmounts, AppError>(AppError::ArithmeticOverflow)
            }
        }),
{
    proof {
        lemma_pow10_pos(market.base_decimals as nat);
    }
    let sp = match task.trade_match.size.checked_mul(task.trade_match.price) {
        Some(x) => x,
        None => {
            return Err(AppError::ArithmeticOverflow);
        }
    };
    let p10 = match pow10_checked(market.base_decimals) {
        Some(x) => x,
        None => {
            return Err(AppError::ArithmeticOverflow);
        }
    };
    let quote_amount = sp / p10;
    let maker_fee = match quote_amount.checked_mul(task.maker_fee_bps as u64) {
        Some(x) => x / BPS_DENOMINATOR,
        None => {
            return Err(AppError::ArithmeticOverflow);
        }
    };
    let taker_fee = match quote_amount.checked_mul(task.taker_fee_bps as u64) {
        Some(x) => x / BPS_DENOMINATOR,
        None => {
            return Err(AppError::ArithmeticOverflow);
        }
    };
    Ok(SettlementAmounts { quote_amount, maker_fee, taker_fee })
}

/// The unsettled durable row recorded for one task before the downstream
/// executor runs.
pub fn build_trade(task: &SettlementTask, amounts: &SettlementAmounts, now: i64) -> (r: Trade)
    ensures
        r.market_id == task.market_id,
        r.maker_order_id == task.trade_match.maker_order_id,
        r.taker_order_id == task.trade_match.taker_order_id,
        r.maker_wallet@ == task.trade_match.maker_wallet@,
        r.taker_wallet@ == task.trade_match.taker_wallet@,
        r.price == task.trade_match.price,
        r.size == task.trade_match.size,
        r.maker_fee == amounts.maker_fee,
        r.taker_fee == amounts.taker_fee,
        r.settlement_signature is None,
        r.created_at == now,
{
    Trade {
        market_id: task.market_id,
        maker_order_id: task.trade_match.maker_order_id,
        taker_order_id: task.trade_match.taker_order_id,
        maker_wallet: task.trade_match.maker_wallet.clone(),
        taker_wallet: task.trade_match.taker_wallet.clone(),
        price: task.trade_match.price,
        size: task.trade_match.size,
        maker_fee: amounts.maker_fee,
        taker_fee: amounts.taker_fee,
        settlement_signature: None,
        created_at: now,
    }
}

} // verus!
