//! The domain types shared by the matching core and the gateways.
use vstd::prelude::*;

verus! {

/// The side of the market an order is on.
#[derive(Debug, Clone, Copy, PartialEq, Eq, Structural)]
pub enum Side {
    Buy,
    Sell,
}

impl Default for Side {
    fn default() -> (side: Self)
        ensures
            side == Side::Buy,
    {
        Side::Buy
    }
}

/// A limit order: trade up to `qty` at `price` or better.
#[derive(Debug, Clone, Copy, PartialEq, Eq, Structural)]
pub struct Order {
    pub id: u64,
    pub side: Side,
    pub price: u64,
    pub qty: u64,
}

impl Default for Order {
    fn default() -> (order: Self)
        ensures
            order == (Order { id: 0, side: Side::Buy, price: 0, qty: 0 }),
    {
        Order { id: 0, side: Side::Buy, price: 0, qty: 0 }
    }
}

/// One trade between a resting maker order and an incoming taker order.
#[derive(Debug, Clone, Copy, PartialEq, Eq, Structural)]
pub struct Fill {
    pub maker_order_id: u64,
    pub taker_order_id: u64,
    pub price: u64,
    pub qty: u64,
}

/// A price and the whole quantity that rests at it.
#[derive(Debug, Clone, Copy, PartialEq, Eq, Structural)]
pub struct Level {
    pub price: u64,
    pub qty: u64,
}

/// The quantity that rests at a price of one side after an event; zero means
/// that the level is gone.
#[derive(Debug, Clone, Copy, PartialEq, Eq, Structural)]
pub struct LevelUpdate {
    pub side: Side,
    pub price: u64,
    pub qty: u64,
}

/// The change of the order book in one event. The updates are enough to bring
/// the levels of the book before the event to those after it.
#[derive(Debug, Clone, PartialEq, Eq)]
pub struct BookDelta {
    pub seq: u64,
    pub changes: Vec<LevelUpdate>,
}

/// The best levels of both sides, best price first.
#[derive(Debug, Clone, PartialEq, Eq)]
pub struct OrderbookSnapshot {
    pub seq: u64,
    pub bids: Vec<Level>,
    pub asks: Vec<Level>,
}

/// What came of one order.
#[derive(Debug, Clone, PartialEq, Eq)]
pub enum EngineEvent {
    Filled {
        taker_id: u64,
        fills: Vec<Fill>,
        delta: BookDelta,
    },
    Resting {
        order_id: u64,
        delta: BookDelta,
    },
}

} // verus!
