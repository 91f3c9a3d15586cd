//! Values that the order book takes and hands back.

use vstd::prelude::*;

verus! {

/// The side of an order: a buyer bids, a seller asks.
#[derive(Debug, Clone, Copy, PartialEq, Eq, Structural)]
pub enum Side {
    Buy,
    Sell,
}

/// Whether an incoming order was taken by the book.
#[derive(Debug, Clone, Copy, PartialEq, Eq, Structural)]
pub enum OrderStatus {
    Accepted,
    Rejected,
}

/// The total quantity resting at one price on one side of the book.
///
/// In a snapshot, a quantity of zero reports a level that was removed.
#[derive(Debug, Clone, Copy, PartialEq, Eq, Structural)]
pub struct PriceLevel {
    pub price: u64,
    pub qty: u64,
}

/// One execution between the incoming (taker) order and a resting (maker)
/// level, at the maker's price.
#[derive(Debug, Clone, Copy, PartialEq, Eq, Structural)]
pub struct Trade {
    pub price: u64,
    pub qty: u64,
    pub taker_side: Side,
}

/// The price levels that one operation added, changed or removed, per side.
#[derive(Debug, Clone, PartialEq)]
pub struct BookSnapshot {
    pub bids_changed: Vec<PriceLevel>,
    pub asks_changed: Vec<PriceLevel>,
}

/// What the book answers to one incoming order.
#[derive(Debug, Clone, PartialEq)]
pub struct OrderResult {
    pub order_id: String,
    pub status: OrderStatus,
    pub trades: Vec<Trade>,
    pub book_snap: BookSnapshot,
}

} // verus!
