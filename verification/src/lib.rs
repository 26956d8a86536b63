//! An off-chain central limit order book (CLOB) matching engine core:
//! price-time priority matching, per-market order books, order intake,
//! pub/sub fan-out bookkeeping and settlement fee accounting.

pub mod clock;
pub mod intake;
pub mod matching;
pub mod orderbook;
pub mod settlement;
pub mod types;
pub mod vault;
pub mod websocket;
