//! The order book of the matching core.
use crate::ladder::Ladder;
use crate::laws::quantity_conserved;
use crate::lemmas::{
    lemma_after_suffix, lemma_after_wf, lemma_enqueue_wf, lemma_reach_split, lemma_swept,
};
use crate::model::{levels, opposite, top, volume, BookView};
use crate::types::{BookDelta, EngineEvent, Fill, LevelUpdate, Order, OrderbookSnapshot, Side};
use vstd::prelude::*;

verus! {

/// A limit order book that matches with price-time priority.
pub struct OrderBook {
    bids: Ladder,
    asks: Ladder,
    seq: u64,
}

impl View for OrderBook {
    type V = BookView;

    closed spec fn view(&self) -> BookView {
        BookView { seq: self.seq, bids: self.bids@, asks: self.asks@ }
    }
}

impl OrderBook {
    /// What holds of every order book.
    pub closed spec fn wf(&self) -> bool {
        &&& self.bids.inv()
        &&& self.asks.inv()
        &&& self.bids.on() == Side::Buy
        &&& self.asks.on() == Side::Sell
        &&& self@.uncrossed()
    }

    /// Every order book is well formed as a model: both sides are in priority
    /// order, no order is empty, and every bid is below every ask.
    pub proof fn lemma_wf(&self)
        requires
            self.wf(),
        ensures
            self@.wf(),
    {
        self.bids.lemma_inv();
        self.asks.lemma_inv();
    }

    /// An empty book.
    pub fn new() -> (book: Self)
        ensures
            book.wf(),
            book@ == (BookView { seq: 0, bids: Seq::empty(), asks: Seq::empty() }),
    {
        OrderBook { bids: Ladder::new(Side::Buy), asks: Ladder::new(Side::Sell), seq: 0 }
    }

    /// Sets the sequence number that the next events carry.
    pub fn set_seq(&mut self, seq: u64)
        requires
            old(self).wf(),
        ensures
            final(self).wf(),
            final(self)@ == (BookView { seq, ..old(self)@ }),
    {
        self.seq = seq;
    }

    /// The best `depth` levels of each side, best first.
    pub fn snapshot(&self, depth: usize) -> (snap: OrderbookSnapshot)
        requires
            self.wf(),
        ensures
            snap.seq == self@.seq,
            snap.bids@ == top(levels(self@.bids), depth as int),
            snap.asks@ == top(levels(self@.asks), depth as int),
    {
        OrderbookSnapshot {
            seq: self.seq,
            bids: self.bids.top(depth),
            asks: self.asks.top(depth),
        }
    }

    /// Whether the quantity at the price of `order` can still be counted when
    /// what is left of it rests there.
    pub fn accepts(&self, order: &Order) -> (accepted: bool)
        requires
            self.wf(),
        ensures
            accepted == self@.has_room(*order),
    {
        proof {
            self.lemma_wf();
        }
        match order.side {
            Side::Buy => {
                let left = self.asks.unmatched(order);
                left == 0 || self.bids.depth(order.price) <= u64::MAX - left
            },
            Side::Sell => {
                let left = self.bids.unmatched(order);
                left == 0 || self.asks.depth(order.price) <= u64::MAX - left
            },
        }
    }

    /// Matches `order` against the other side, lets what is left of it rest,
    /// and reports the trades and the levels that changed.
    pub fn process(&mut self, order: Order) -> (event: EngineEvent)
        requires
            old(self).wf(),
            old(self)@.has_room(order),
        ensures
            final(self).wf(),
            final(self)@ == old(self)@.process(order),
            old(self)@.reports(order, event),
            event matches EngineEvent::Filled { fills, .. } ==> fills@.len() > 0 && volume(fills@)
                + old(self)@.unfilled(order) == order.qty,
            event is Resting ==> old(self)@.unfilled(order) == order.qty,
    {
        let ghost was = self@;
        proof {
            self.lemma_wf();
            lemma_process_wf(was, order);
            quantity_conserved(was, order);
            if was.fills(order).len() == 0 {
                assert(was.fills(order) =~= Seq::<Fill>::empty());
            }
        }
        let (fills, mut changes, left) = match order.side {
            Side::Buy => self.asks.sweep(&order),
            Side::Sell => self.bids.sweep(&order),
        };
        if left > 0 {
            let rest = Order { id: order.id, side: order.side, price: order.price, qty: left };
            let level_qty = match order.side {
                Side::Buy => self.bids.rest(rest),
                Side::Sell => self.asks.rest(rest),
            };
            changes.push(LevelUpdate { side: order.side, price: order.price, qty: level_qty });
        }
        let delta = BookDelta { seq: self.seq, changes };
        if fills.is_empty() {
            EngineEvent::Resting { order_id: order.id, delta }
        } else {
            EngineEvent::Filled { taker_id: order.id, fills, delta }
        }
    }
}

impl Default for OrderBook {
    fn default() -> (book: Self)
        ensures
            book.wf(),
            book@ == (BookView { seq: 0, bids: Seq::empty(), asks: Seq::empty() }),
    {
        OrderBook::new()
    }
}

/// Processing an order keeps the book well formed; above all, it never leaves
/// the book crossed.
pub proof fn lemma_process_wf(book: BookView, taker: Order)
    requires
        book.wf(),
        book.has_room(taker),
    ensures
        book.process(taker).wf(),
{
    let makers = book.side(opposite(taker.side));
    let own = book.side(taker.side);
    let left = book.makers_after(taker);
    let rest = book.unfilled(taker);
    let own_after = book.own_after(taker);
    let gone = makers.len() - left.len();
    lemma_after_wf(opposite(taker.side), makers, taker);
    lemma_after_suffix(makers, taker);
    if rest > 0 {
        let order = Order { qty: rest, ..taker };
        lemma_enqueue_wf(own, order);
        lemma_reach_split(own, taker.side, taker.price);
        lemma_swept(makers, taker);
    }
    assert forall|i: int, j: int|
        0 <= i < own_after.len() && 0 <= j < left.len() implies match taker.side {
        Side::Buy => (#[trigger] own_after[i]).price < (#[trigger] left[j]).price,
        Side::Sell => own_after[i].price > left[j].price,
    } by {
        assert(left[j].price == makers[j + gone].price);
    }
}

} // verus!
