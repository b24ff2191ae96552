//! A gateway's replica of the order book: the best levels of each side, kept
//! up to date with the deltas that the core sends.
use crate::model::{at_least_as_good, top};
use crate::types::{BookDelta, Level, LevelUpdate, OrderbookSnapshot, Side};
use vstd::prelude::*;

verus! {

/// The number of levels that a replica keeps of each side.
pub const REPLICA_DEPTH: usize = 20;

/// The place of the first level at `price`, or the number of levels where there
/// is none.
pub open spec fn position(levels: Seq<Level>, price: u64) -> nat
    decreases levels.len(),
{
    if levels.len() == 0 || levels[0].price == price {
        0
    } else {
        1 + position(levels.drop_first(), price)
    }
}

/// The place of the first level whose price is worse than `price`, or the
/// number of levels where there is none.
pub open spec fn first_worse(levels: Seq<Level>, side: Side, price: u64) -> nat
    decreases levels.len(),
{
    if levels.len() == 0 || !at_least_as_good(side, levels[0].price, price) {
        0
    } else {
        1 + first_worse(levels.drop_first(), side, price)
    }
}

/// The side whose levels are the bids, or those that are not.
pub open spec fn side_of(bids: bool) -> Side {
    if bids {
        Side::Buy
    } else {
        Side::Sell
    }
}

/// `levels` of `side` once `update` has been applied.
pub open spec fn updated(levels: Seq<Level>, side: Side, update: LevelUpdate) -> Seq<Level> {
    let at = position(levels, update.price) as int;
    if at < levels.len() {
        if update.qty == 0 {
            levels.remove(at)
        } else {
            levels.update(at, Level { price: update.price, qty: update.qty })
        }
    } else if update.qty == 0 {
        levels
    } else {
        let level = Level { price: update.price, qty: update.qty };
        top(
            levels.insert(first_worse(levels, side, update.price) as int, level),
            REPLICA_DEPTH as int,
        )
    }
}

/// A replica: the sequence number of the last delta and the best levels.
#[verifier::ext_equal]
pub struct ReplicaView {
    pub seq: u64,
    pub bids: Seq<Level>,
    pub asks: Seq<Level>,
}

impl ReplicaView {
    /// The levels of `side`.
    pub open spec fn side(self, side: Side) -> Seq<Level> {
        match side {
            Side::Buy => self.bids,
            Side::Sell => self.asks,
        }
    }

    /// The replica once `update` has been applied.
    pub open spec fn update(self, update: LevelUpdate) -> ReplicaView {
        match update.side {
            Side::Buy => ReplicaView { bids: updated(self.bids, Side::Buy, update), ..self },
            Side::Sell => ReplicaView { asks: updated(self.asks, Side::Sell, update), ..self },
        }
    }

    /// The replica once `changes` have been applied one after the other.
    pub open spec fn updates(self, changes: Seq<LevelUpdate>) -> ReplicaView
        decreases changes.len(),
    {
        if changes.len() == 0 {
            self
        } else {
            self.updates(changes.drop_last()).update(changes.last())
        }
    }

    /// The replica once the delta of `seq` with `changes` has come in. One that
    /// is not next in sequence changes nothing.
    pub open spec fn delta(self, seq: u64, changes: Seq<LevelUpdate>) -> ReplicaView {
        if seq == self.seq + 1 {
            ReplicaView { seq, ..self.updates(changes) }
        } else {
            self
        }
    }
}

/// A replica of the order book.
pub struct LocalBook {
    pub seq: u64,
    /// The best bids, highest price first.
    pub bids: Vec<Level>,
    /// The best asks, lowest price first.
    pub asks: Vec<Level>,
}

impl View for LocalBook {
    type V = ReplicaView;

    open spec fn view(&self) -> ReplicaView {
        ReplicaView { seq: self.seq, bids: self.bids@, asks: self.asks@ }
    }
}

impl Default for LocalBook {
    fn default() -> (book: Self)
        ensures
            book@ == (ReplicaView { seq: 0, bids: Seq::empty(), asks: Seq::empty() }),
    {
        LocalBook { seq: 0, bids: Vec::new(), asks: Vec::new() }
    }
}

impl LocalBook {
    /// Replaces the replica by `snap`.
    pub fn apply_snapshot(&mut self, snap: &OrderbookSnapshot)
        ensures
            final(self)@ == (ReplicaView { seq: snap.seq, bids: snap.bids@, asks: snap.asks@ }),
            final(self).seq == snap.seq,
            final(self).bids@ == snap.bids@,
            final(self).asks@ == snap.asks@,
    {
        self.seq = snap.seq;
        self.bids = snap.bids.clone();
        self.asks = snap.asks.clone();
        proof {
            assert(self.bids@ =~= snap.bids@);
            assert(self.asks@ =~= snap.asks@);
        }
    }

    /// Applies `delta` where it is next in sequence. Gives whether it was; on a
    /// gap the replica stays as it is.
    pub fn apply_delta(&mut self, delta: &BookDelta) -> (applied: bool)
        requires
            old(self).seq < u64::MAX,
        ensures
            applied == (delta.seq == old(self).seq + 1),
            final(self)@ == old(self)@.delta(delta.seq, delta.changes@),
            !applied ==> {
                &&& final(self).seq == old(self).seq
                &&& final(self).bids@ == old(self).bids@
                &&& final(self).asks@ == old(self).asks@
            },
            applied ==> final(self).seq == old(self).seq + 1,
    {
        if delta.seq != self.seq + 1 {
            return false;
        }
        let ghost was = self@;
        self.seq = delta.seq;
        let mut i: usize = 0;
        proof {
            assert(delta.changes@.take(0) =~= Seq::<LevelUpdate>::empty());
            assert(was.updates(Seq::empty()) == was);
        }
        while i < delta.changes.len()
            invariant
                i <= delta.changes@.len(),
                self@ == (ReplicaView {
                    seq: delta.seq,
                    ..was.updates(delta.changes@.take(i as int))
                }),
            decreases delta.changes@.len() - i,
        {
            let update = &delta.changes[i];
            proof {
                let upto = delta.changes@.take(i + 1);
                assert(upto.drop_last() =~= delta.changes@.take(i as int));
                assert(upto.last() == *update);
            }
            match update.side {
                Side::Buy => apply_level_update(&mut self.bids, update, true),
                Side::Sell => apply_level_update(&mut self.asks, update, false),
            }
            i = i + 1;
        }
        assert(delta.changes@.take(i as int) =~= delta.changes@);
        true
    }
}

/// Applies `update` to `levels`, which are the bids or the asks.
pub fn apply_level_update(levels: &mut Vec<Level>, update: &LevelUpdate, bids: bool)
    ensures
        final(levels)@ == updated(old(levels)@, side_of(bids), *update),
{
    let at = find_price(levels, update.price);
    if at < levels.len() {
        if update.qty == 0 {
            levels.remove(at);
        } else {
            levels[at] = Level { price: update.price, qty: update.qty };
        }
    } else if update.qty > 0 {
        let level = Level { price: update.price, qty: update.qty };
        let at = find_worse(levels, update.price, bids);
        levels.insert(at, level);
        levels.truncate(REPLICA_DEPTH);
        proof {
            let grown = old(levels)@.insert(at as int, level);
            assert(levels@ =~= top(grown, REPLICA_DEPTH as int));
        }
    }
}

/// The place of the first level at `price`.
fn find_price(levels: &Vec<Level>, price: u64) -> (at: usize)
    ensures
        at == position(levels@, price),
        at <= levels@.len(),
        at < levels@.len() ==> levels@[at as int].price == price,
{
    let mut i: usize = 0;
    assert(levels@.skip(0) =~= levels@);
    while i < levels.len()
        invariant
            i <= levels@.len(),
            position(levels@, price) == i + position(levels@.skip(i as int), price),
        decreases levels@.len() - i,
    {
        if levels[i].price == price {
            return i;
        }
        assert(levels@.skip(i as int).drop_first() =~= levels@.skip(i + 1));
        i = i + 1;
    }
    i
}

/// The place of the first level whose price is worse than `price`.
fn find_worse(levels: &Vec<Level>, price: u64, bids: bool) -> (at: usize)
    ensures
        at == first_worse(levels@, side_of(bids), price),
        at <= levels@.len(),
{
    let ghost side = side_of(bids);
    let mut i: usize = 0;
    assert(levels@.skip(0) =~= levels@);
    while i < levels.len()
        invariant
            i <= levels@.len(),
            side == side_of(bids),
            first_worse(levels@, side, price) == i + first_worse(
                levels@.skip(i as int),
                side,
                price,
            ),
        decreases levels@.len() - i,
    {
        let worse = if bids {
            levels[i].price < price
        } else {
            levels[i].price > price
        };
        if worse {
            return i;
        }
        assert(levels@.skip(i as int).drop_first() =~= levels@.skip(i + 1));
        i = i + 1;
    }
    i
}

} // verus!
