//! A limit order book for a single trading pair: resting bid and ask price
//! levels with price-time priority, taker/maker crossing, partial fills and
//! multi-level sweeps, with every operation specified and verified.

pub mod types;
pub mod matching;
pub mod order_book;
pub mod laws;
