//! The mathematics of a limit order book with price-time priority.
//!
//! One side of the book is the sequence of its resting orders in the order in
//! which they trade: best price first, and first come first served within a
//! price.
use crate::types::{EngineEvent, Fill, Level, LevelUpdate, Order, Side};
use vstd::prelude::*;

verus! {

/// The side that orders of `side` trade against.
pub open spec fn opposite(side: Side) -> Side {
    match side {
        Side::Buy => Side::Sell,
        Side::Sell => Side::Buy,
    }
}

/// Whether a resting order of `side` at price `a` trades no later than one at
/// price `b`: the highest bid and the lowest ask trade first.
pub open spec fn at_least_as_good(side: Side, a: u64, b: u64) -> bool {
    match side {
        Side::Buy => a >= b,
        Side::Sell => a <= b,
    }
}

/// Whether `taker` accepts to trade at `price`.
pub open spec fn crosses(taker: Order, price: u64) -> bool {
    at_least_as_good(opposite(taker.side), price, taker.price)
}

/// `order` with `by` less to trade.
pub open spec fn reduce(order: Order, by: int) -> Order {
    Order { qty: (order.qty - by) as u64, ..order }
}

/// The quantity that `maker` and `taker` exchange.
pub open spec fn trade_qty(maker: Order, taker: Order) -> u64 {
    if maker.qty <= taker.qty {
        maker.qty
    } else {
        taker.qty
    }
}

/// Whether `taker` trades with the first of `makers`.
pub open spec fn trades(makers: Seq<Order>, taker: Order) -> bool {
    makers.len() > 0 && taker.qty > 0 && crosses(taker, makers[0].price)
}

/// The trades of `taker` with `makers`, which stand in priority order.
pub open spec fn fills(makers: Seq<Order>, taker: Order) -> Seq<Fill>
    decreases makers.len(),
{
    if !trades(makers, taker) {
        Seq::empty()
    } else {
        let qty = trade_qty(makers[0], taker);
        seq![
            Fill {
                maker_order_id: makers[0].id,
                taker_order_id: taker.id,
                price: makers[0].price,
                qty,
            },
        ] + fills(makers.drop_first(), reduce(taker, qty as int))
    }
}

/// What rests of `makers` once `taker` has traded.
pub open spec fn after(makers: Seq<Order>, taker: Order) -> Seq<Order>
    decreases makers.len(),
{
    if !trades(makers, taker) {
        makers
    } else if makers[0].qty <= taker.qty {
        after(makers.drop_first(), reduce(taker, makers[0].qty as int))
    } else {
        makers.update(0, reduce(makers[0], taker.qty as int))
    }
}

/// What `makers` leave of the quantity of `taker`.
pub open spec fn unfilled(makers: Seq<Order>, taker: Order) -> u64
    decreases makers.len(),
{
    if !trades(makers, taker) {
        taker.qty
    } else {
        let qty = trade_qty(makers[0], taker);
        unfilled(makers.drop_first(), reduce(taker, qty as int))
    }
}

/// The number of leading orders whose price is at least as good as `price`.
pub open spec fn reach(orders: Seq<Order>, side: Side, price: u64) -> nat
    decreases orders.len(),
{
    if orders.len() == 0 || !at_least_as_good(side, orders[0].price, price) {
        0
    } else {
        1 + reach(orders.drop_first(), side, price)
    }
}

/// `orders` with `order` behind all those whose price is at least as good.
pub open spec fn enqueue(orders: Seq<Order>, order: Order) -> Seq<Order> {
    orders.insert(reach(orders, order.side, order.price) as int, order)
}

/// The quantity of `orders` in all.
pub open spec fn total(orders: Seq<Order>) -> nat
    decreases orders.len(),
{
    if orders.len() == 0 {
        0
    } else {
        total(orders.drop_last()) + orders.last().qty as nat
    }
}

/// The quantity of `fills` in all.
pub open spec fn volume(fills: Seq<Fill>) -> nat
    decreases fills.len(),
{
    if fills.len() == 0 {
        0
    } else {
        volume(fills.drop_last()) + fills.last().qty as nat
    }
}

/// The quantity of `orders` that rests at `price`.
pub open spec fn depth_at(orders: Seq<Order>, price: u64) -> nat
    decreases orders.len(),
{
    if orders.len() == 0 {
        0
    } else {
        depth_at(orders.drop_last(), price) + if orders.last().price == price {
            orders.last().qty as nat
        } else {
            0
        }
    }
}

/// `prices` with each run of equal neighbours cut down to one.
pub open spec fn runs(prices: Seq<u64>) -> Seq<u64>
    decreases prices.len(),
{
    if prices.len() == 0 {
        Seq::empty()
    } else if prices.len() > 1 && prices[prices.len() - 2] == prices.last() {
        runs(prices.drop_last())
    } else {
        runs(prices.drop_last()).push(prices.last())
    }
}

/// The prices of `orders`, one for each order.
pub open spec fn order_prices(orders: Seq<Order>) -> Seq<u64> {
    orders.map_values(|o: Order| o.price)
}

/// The prices of `fills`, one for each fill.
pub open spec fn fill_prices(fills: Seq<Fill>) -> Seq<u64> {
    fills.map_values(|f: Fill| f.price)
}

/// The level of `orders` at `price`.
pub open spec fn level_at(orders: Seq<Order>, price: u64) -> Level {
    Level { price, qty: depth_at(orders, price) as u64 }
}

/// The levels of `orders`, in the order in which their orders stand.
pub open spec fn levels(orders: Seq<Order>) -> Seq<Level> {
    runs(order_prices(orders)).map_values(|p: u64| level_at(orders, p))
}

/// The first `depth` of `levels`, or all of them where there are fewer.
pub open spec fn top(levels: Seq<Level>, depth: int) -> Seq<Level> {
    if levels.len() <= depth {
        levels
    } else {
        levels.take(depth)
    }
}

/// What a delta says of `price` when `orders` rest on `side`.
pub open spec fn update_at(side: Side, orders: Seq<Order>, price: u64) -> LevelUpdate {
    LevelUpdate { side, price, qty: depth_at(orders, price) as u64 }
}

/// One update for each price at which `fills` traded, best first; `left` is
/// what rests on `side` after them.
pub open spec fn traded_updates(side: Side, fills: Seq<Fill>, left: Seq<Order>) -> Seq<
    LevelUpdate,
> {
    runs(fill_prices(fills)).map_values(|p: u64| update_at(side, left, p))
}

/// Whether `orders` stand in price priority.
pub open spec fn by_priority(side: Side, orders: Seq<Order>) -> bool {
    forall|i: int, j: int|
        0 <= i < j < orders.len() ==> at_least_as_good(
            side,
            (#[trigger] orders[i]).price,
            (#[trigger] orders[j]).price,
        )
}

/// What holds of every side of a book: its orders are in priority order and
/// have something left to trade, and the quantity at each price can be counted.
pub open spec fn side_wf(side: Side, orders: Seq<Order>) -> bool {
    &&& by_priority(side, orders)
    &&& forall|i: int| 0 <= i < orders.len() ==> (#[trigger] orders[i]).side == side
    &&& forall|i: int| 0 <= i < orders.len() ==> (#[trigger] orders[i]).qty > 0
    &&& forall|p: u64| #[trigger] depth_at(orders, p) <= u64::MAX
}

/// An order book: the sequence number of the last event and both sides.
#[verifier::ext_equal]
pub struct BookView {
    pub seq: u64,
    pub bids: Seq<Order>,
    pub asks: Seq<Order>,
}

impl BookView {
    /// The orders that rest on `side`.
    pub open spec fn side(self, side: Side) -> Seq<Order> {
        match side {
            Side::Buy => self.bids,
            Side::Sell => self.asks,
        }
    }

    /// Whether every bid is below every ask.
    pub open spec fn uncrossed(self) -> bool {
        forall|i: int, j: int|
            0 <= i < self.bids.len() && 0 <= j < self.asks.len() ==> (#[trigger] self.bids[i]).price
                < (#[trigger] self.asks[j]).price
    }

    /// What holds of every book.
    pub open spec fn wf(self) -> bool {
        &&& side_wf(Side::Buy, self.bids)
        &&& side_wf(Side::Sell, self.asks)
        &&& self.uncrossed()
    }

    /// The trades that `taker` makes.
    pub open spec fn fills(self, taker: Order) -> Seq<Fill> {
        fills(self.side(opposite(taker.side)), taker)
    }

    /// The quantity of `taker` that does not trade.
    pub open spec fn unfilled(self, taker: Order) -> u64 {
        unfilled(self.side(opposite(taker.side)), taker)
    }

    /// What rests on the side of `taker` afterwards: its remainder joins the
    /// queue at its price.
    pub open spec fn own_after(self, taker: Order) -> Seq<Order> {
        let rest = self.unfilled(taker);
        if rest > 0 {
            enqueue(self.side(taker.side), Order { qty: rest, ..taker })
        } else {
            self.side(taker.side)
        }
    }

    /// What rests on the other side afterwards.
    pub open spec fn makers_after(self, taker: Order) -> Seq<Order> {
        after(self.side(opposite(taker.side)), taker)
    }

    /// The book once `taker` has been processed.
    pub open spec fn process(self, taker: Order) -> BookView {
        match taker.side {
            Side::Buy => BookView {
                seq: self.seq,
                bids: self.own_after(taker),
                asks: self.makers_after(taker),
            },
            Side::Sell => BookView {
                seq: self.seq,
                bids: self.makers_after(taker),
                asks: self.own_after(taker),
            },
        }
    }

    /// The updates that processing `taker` sends out: the prices at which it
    /// traded, best first, and then the price at which it rests.
    pub open spec fn changes(self, taker: Order) -> Seq<LevelUpdate> {
        let traded = traded_updates(
            opposite(taker.side),
            self.fills(taker),
            self.makers_after(taker),
        );
        if self.unfilled(taker) > 0 {
            traded.push(update_at(taker.side, self.own_after(taker), taker.price))
        } else {
            traded
        }
    }

    /// Whether the quantity at the price of `taker` can still be counted when
    /// its remainder rests there.
    pub open spec fn has_room(self, taker: Order) -> bool {
        self.unfilled(taker) > 0 ==> depth_at(self.side(taker.side), taker.price) + self.unfilled(
            taker,
        ) <= u64::MAX
    }

    /// Whether `event` reports that `taker` was processed on this book.
    pub open spec fn reports(self, taker: Order, event: EngineEvent) -> bool {
        let traded = self.fills(taker);
        match event {
            EngineEvent::Filled { taker_id, fills, delta } => {
                &&& traded.len() > 0
                &&& taker_id == taker.id
                &&& fills@ == traded
                &&& delta.seq == self.seq
                &&& delta.changes@ == self.changes(taker)
            },
            EngineEvent::Resting { order_id, delta } => {
                &&& traded.len() == 0
                &&& order_id == taker.id
                &&& delta.seq == self.seq
                &&& delta.changes@ == self.changes(taker)
            },
        }
    }
}

} // verus!
