//! What the event of an order tells, held against the book before and after it,
//! order by order.
use crate::laws::{
    first_come_first_served, lemma_priority, lemma_runs_contain, lemma_volume_concat,
    limit_respected, matched_to_the_end, quantity_conserved,
};
use crate::lemmas::{
    lemma_depth_concat, lemma_depth_one, lemma_enqueue_depth, lemma_reach_split,
    lemma_total_concat,
};
use crate::model::{
    after, at_least_as_good, crosses, depth_at, enqueue, fill_prices, fills, opposite, reach,
    reduce, runs, total, trade_qty, traded_updates, trades, unfilled, volume, BookView,
};
use crate::orderbook::lemma_process_wf;
use crate::sync::lemma_runs_strict;
use crate::types::{BookDelta, EngineEvent, Fill, LevelUpdate, Order, Side};
use vstd::prelude::*;

verus! {

/// Every order that rests anywhere counts once, with its whole quantity, at its
/// own price and at no other.
pub proof fn depth_counts_every_order(orders: Seq<Order>, k: int, order: Order, price: u64)
    requires
        0 <= k <= orders.len(),
    ensures
        depth_at(Seq::empty(), price) == 0,
        order.price == price ==> depth_at(orders.insert(k, order), price) == depth_at(orders, price)
            + order.qty,
        order.price != price ==> depth_at(orders.insert(k, order), price) == depth_at(
            orders,
            price,
        ),
        total(Seq::empty()) == 0,
        total(orders.insert(k, order)) == total(orders) + order.qty,
{
    let front = orders.take(k);
    let back = orders.skip(k);
    assert(orders =~= front + back);
    assert(orders.insert(k, order) =~= front + seq![order] + back);
    lemma_depth_concat(front, back, price);
    lemma_depth_concat(front + seq![order], back, price);
    lemma_depth_concat(front, seq![order], price);
    lemma_total_concat(front, back);
    lemma_total_concat(front + seq![order], back);
    lemma_total_concat(front, seq![order]);
    lemma_depth_one(order, price);
}

/// Every fill counts once, with its whole quantity.
pub proof fn volume_counts_every_fill(told: Seq<Fill>, k: int, fill: Fill)
    requires
        0 <= k <= told.len(),
    ensures
        volume(Seq::empty()) == 0,
        volume(told.insert(k, fill)) == volume(told) + fill.qty,
{
    let front = told.take(k);
    let back = told.skip(k);
    let one = seq![fill];
    assert(told =~= front + back);
    assert(told.insert(k, fill) =~= front + one + back);
    lemma_volume_concat(front, back);
    lemma_volume_concat(front + one, back);
    lemma_volume_concat(front, one);
    assert(one.drop_last() =~= Seq::<Fill>::empty());
    assert(volume(one.drop_last()) == 0);
    assert(one.last() == fill);
}

/// What the trades of `taker` leave of each of `makers`.
proof fn lemma_left(makers: Seq<Order>, taker: Order)
    requires
        forall|i: int| 0 <= i < makers.len() ==> (#[trigger] makers[i]).qty > 0,
    ensures
        ({
            let all = fills(makers, taker);
            let left = after(makers, taker);
            let n = all.len() as int;
            let gone = makers.len() - left.len();
            &&& n <= makers.len()
            &&& gone == n || (n > 0 && gone == n - 1)
            &&& forall|i: int| 0 <= i < gone ==> (#[trigger] all[i]).qty == makers[i].qty
            &&& forall|i: int|
                gone <= i < makers.len() ==> {
                    let was = #[trigger] makers[i];
                    let now = left[i - gone];
                    let traded: int = if i < n {
                        all[i].qty as int
                    } else {
                        0
                    };
                    &&& now.id == was.id
                    &&& now.side == was.side
                    &&& now.price == was.price
                    &&& now.qty == was.qty - traded
                }
            &&& gone == n - 1 ==> {
                &&& all[n - 1].qty < makers[n - 1].qty
                &&& unfilled(makers, taker) == 0
            }
        }),
    decreases makers.len(),
{
    if trades(makers, taker) {
        let qty = trade_qty(makers[0], taker);
        let next = reduce(taker, qty as int);
        let rest = makers.drop_first();
        let all = fills(makers, taker);
        let left = after(makers, taker);
        let gone = makers.len() - left.len();
        lemma_left(rest, next);
        if makers[0].qty <= taker.qty {
            assert forall|i: int| 0 <= i < gone implies (#[trigger] all[i]).qty
                == makers[i].qty by {
                if i > 0 {
                    assert(all[i] == fills(rest, next)[i - 1]);
                    assert(makers[i] == rest[i - 1]);
                }
            }
            assert forall|i: int| gone <= i < makers.len() implies {
                let was = #[trigger] makers[i];
                let now = left[i - gone];
                let traded: int = if i < all.len() {
                    all[i].qty as int
                } else {
                    0
                };
                &&& now.id == was.id
                &&& now.side == was.side
                &&& now.price == was.price
                &&& now.qty == was.qty - traded
            } by {
                assert(makers[i] == rest[i - 1]);
                if i < all.len() {
                    assert(all[i] == fills(rest, next)[i - 1]);
                }
            }
            let n = all.len() as int;
            if gone == n - 1 {
                assert(all[n - 1] == fills(rest, next)[n - 2]);
                assert(makers[n - 1] == rest[n - 2]);
            }
        } else {
            assert(next.qty == 0);
            assert(fills(rest, next) =~= Seq::<Fill>::empty());
            assert(all.len() == 1);
            assert(unfilled(rest, next) == 0);
            assert(left =~= makers.update(0, reduce(makers[0], taker.qty as int)));
        }
    }
}

/// The event of an order tells of every trade: it has one fill for each resting
/// order that lost quantity, from the best on and with none passed over. The
/// fill names that order, its price and exactly the quantity that it lost; all
/// of them but the last are used up, and only used up orders leave the book.
///
/// `makers` and `left` are the other side before and after, `told` the fills
/// that the event carries.
#[verifier::spinoff_prover]
#[verifier::rlimit(40)]
pub proof fn event_tells_every_trade(
    book: BookView,
    taker: Order,
    event: EngineEvent,
    makers: Seq<Order>,
    left: Seq<Order>,
    told: Seq<Fill>,
)
    requires
        book.wf(),
        book.reports(taker, event),
        taker.side == Side::Buy ==> makers == book.asks && left == book.process(taker).asks,
        taker.side == Side::Sell ==> makers == book.bids && left == book.process(taker).bids,
        event matches EngineEvent::Filled { fills, .. } ==> told == fills@,
        event is Resting ==> told == Seq::<Fill>::empty(),
    ensures
        event is Filled <==> told.len() > 0,
        event matches EngineEvent::Filled { taker_id, .. } ==> taker_id == taker.id,
        event matches EngineEvent::Resting { order_id, .. } ==> order_id == taker.id,
        told.len() <= makers.len(),
        makers.len() - left.len() == told.len() || (told.len() > 0 && makers.len() - left.len()
            == told.len() - 1),
        forall|i: int|
            0 <= i < told.len() ==> {
                &&& (#[trigger] told[i]).maker_order_id == makers[i].id
                &&& told[i].taker_order_id == taker.id
                &&& told[i].price == makers[i].price
                &&& 0 < told[i].qty <= makers[i].qty
                &&& i < makers.len() - left.len() <==> told[i].qty == makers[i].qty
                &&& taker.side == Side::Buy ==> told[i].price <= taker.price
                &&& taker.side == Side::Sell ==> told[i].price >= taker.price
            },
        forall|i: int|
            makers.len() - left.len() <= i < makers.len() ==> {
                let was = #[trigger] makers[i];
                let now = left[i - (makers.len() - left.len())];
                &&& now.id == was.id
                &&& now.side == was.side
                &&& now.price == was.price
                &&& i < told.len() ==> now.qty == was.qty - told[i].qty
                &&& i >= told.len() ==> now.qty == was.qty
            },
{
    assert(left == after(makers, taker));
    assert(told == fills(makers, taker)) by {
        if event is Resting {
            assert(fills(makers, taker) =~= Seq::<Fill>::empty());
        }
    }
    assert forall|i: int| 0 <= i < makers.len() implies (#[trigger] makers[i]).qty > 0 by {}
    lemma_trades(makers, taker);
}

/// The trades of `taker` with `makers`, one by one, and what they leave.
proof fn lemma_trades(makers: Seq<Order>, taker: Order)
    requires
        forall|i: int| 0 <= i < makers.len() ==> (#[trigger] makers[i]).qty > 0,
    ensures
        ({
            let told = fills(makers, taker);
            let left = after(makers, taker);
            let gone = makers.len() - left.len();
            &&& told.len() <= makers.len()
            &&& gone == told.len() || (told.len() > 0 && gone == told.len() - 1)
            &&& forall|i: int|
                0 <= i < told.len() ==> {
                    &&& (#[trigger] told[i]).maker_order_id == makers[i].id
                    &&& told[i].taker_order_id == taker.id
                    &&& told[i].price == makers[i].price
                    &&& 0 < told[i].qty <= makers[i].qty
                    &&& i < gone <==> told[i].qty == makers[i].qty
                    &&& taker.side == Side::Buy ==> told[i].price <= taker.price
                    &&& taker.side == Side::Sell ==> told[i].price >= taker.price
                }
            &&& forall|i: int|
                gone <= i < makers.len() ==> {
                    let was = #[trigger] makers[i];
                    let now = left[i - gone];
                    &&& now.id == was.id
                    &&& now.side == was.side
                    &&& now.price == was.price
                    &&& i < told.len() ==> now.qty == was.qty - told[i].qty
                    &&& i >= told.len() ==> now.qty == was.qty
                }
        }),
{
    let told = fills(makers, taker);
    let gone = makers.len() - after(makers, taker).len();
    lemma_priority(makers, taker);
    lemma_left(makers, taker);
    assert forall|i: int| 0 <= i < told.len() implies {
        &&& i < gone <==> (#[trigger] told[i]).qty == makers[i].qty
        &&& taker.side == Side::Buy ==> told[i].price <= taker.price
        &&& taker.side == Side::Sell ==> told[i].price >= taker.price
    } by {
        assert(crosses(taker, told[i].price));
    }
}

/// The event of an order accounts for its whole quantity: what its fills add up
/// to is what the other side lost, the rest is what its own side gained, and
/// nothing rests as long as the order could still trade.
///
/// `makers` and `left` are the other side before and after, `own` and `own_now`
/// the order's own side, `told` the fills that the event carries.
#[verifier::spinoff_prover]
#[verifier::rlimit(40)]
pub proof fn event_accounts_for_the_order(
    book: BookView,
    taker: Order,
    event: EngineEvent,
    makers: Seq<Order>,
    left: Seq<Order>,
    own: Seq<Order>,
    own_now: Seq<Order>,
    told: Seq<Fill>,
)
    requires
        book.wf(),
        book.reports(taker, event),
        taker.side == Side::Buy ==> {
            &&& makers == book.asks
            &&& left == book.process(taker).asks
            &&& own == book.bids
            &&& own_now == book.process(taker).bids
        },
        taker.side == Side::Sell ==> {
            &&& makers == book.bids
            &&& left == book.process(taker).bids
            &&& own == book.asks
            &&& own_now == book.process(taker).asks
        },
        event matches EngineEvent::Filled { fills, .. } ==> told == fills@,
        event is Resting ==> told == Seq::<Fill>::empty(),
    ensures
        volume(told) + book.unfilled(taker) == taker.qty,
        total(makers) == total(left) + volume(told),
        total(own_now) + volume(told) == total(own) + taker.qty,
        volume(told) < taker.qty && left.len() > 0 && taker.side == Side::Buy ==> left[0].price
            > taker.price,
        volume(told) < taker.qty && left.len() > 0 && taker.side == Side::Sell ==> left[0].price
            < taker.price,
        book.process(taker).seq == book.seq,
{
    quantity_conserved(book, taker);
    assert(told =~= book.fills(taker));
    if book.unfilled(taker) > 0 {
        matched_to_the_end(book, taker);
        assert(left == book.makers_after(taker));
        if left.len() > 0 {
            assert(left[0] == book.makers_after(taker)[0]);
        }
    }
}

/// What is left of an order joins its own side, as many as its fills leave and
/// under its own id, behind every order at its price or a better one and ahead
/// of all worse ones. Nothing else changes there. Gives the place where it
/// stands.
#[verifier::spinoff_prover]
#[verifier::rlimit(40)]
pub proof fn rest_joins_the_queue(
    book: BookView,
    taker: Order,
    event: EngineEvent,
    own: Seq<Order>,
    own_now: Seq<Order>,
    told: Seq<Fill>,
) -> (k: int)
    requires
        book.wf(),
        book.reports(taker, event),
        taker.side == Side::Buy ==> own == book.bids && own_now == book.process(taker).bids,
        taker.side == Side::Sell ==> own == book.asks && own_now == book.process(taker).asks,
        event matches EngineEvent::Filled { fills, .. } ==> told == fills@,
        event is Resting ==> told == Seq::<Fill>::empty(),
    ensures
        0 <= k <= own.len(),
        volume(told) >= taker.qty ==> own_now == own,
        volume(told) < taker.qty ==> {
            &&& own_now == own.insert(k, own_now[k])
            &&& own_now[k].id == taker.id
            &&& own_now[k].side == taker.side
            &&& own_now[k].price == taker.price
            &&& own_now[k].qty == taker.qty - volume(told)
        },
        forall|i: int|
            0 <= i < k ==> {
                &&& taker.side == Side::Buy ==> (#[trigger] own[i]).price >= taker.price
                &&& taker.side == Side::Sell ==> own[i].price <= taker.price
            },
        forall|i: int|
            k <= i < own.len() ==> {
                &&& taker.side == Side::Buy ==> (#[trigger] own[i]).price < taker.price
                &&& taker.side == Side::Sell ==> own[i].price > taker.price
            },
{
    let k = reach(own, taker.side, taker.price) as int;
    let rest = Order { qty: book.unfilled(taker), ..taker };
    let joined = enqueue(own, rest);
    quantity_conserved(book, taker);
    assert(told =~= book.fills(taker));
    first_come_first_served(own, rest);
    lemma_reach_split(own, taker.side, taker.price);
    assert forall|i: int| k <= i < own.len() implies !at_least_as_good(
        taker.side,
        (#[trigger] own[i]).price,
        taker.price,
    ) by {
        assert(joined[i + 1] == own[i]);
    }
    if book.unfilled(taker) > 0 {
        assert(own_now == joined);
        assert(own_now[k] == rest);
        assert(own_now =~= own.insert(k, own_now[k]));
    }
    k
}

/// Whether one of `told` was traded at `price`.
pub open spec fn traded_at(told: Seq<Fill>, price: u64) -> bool {
    exists|f: int| 0 <= f < told.len() && (#[trigger] told[f]).price == price
}

/// Whether one of the first `m` of `changes` is for `price`.
pub open spec fn updated_at(changes: Seq<LevelUpdate>, m: int, price: u64) -> bool {
    exists|i: int| 0 <= i < m && (#[trigger] changes[i]).price == price
}

/// The delta of an order tells of every level that changed and of no other, once
/// each: the prices at which it traded, from the best on, and then the price at
/// which it rests. Each update tells all that is left at its price.
///
/// `left` is the other side afterwards, `own_now` the order's own, `told` the
/// fills that the event carries and `delta` its delta, of which the first `m`
/// updates are for the prices that traded.
#[verifier::spinoff_prover]
#[verifier::rlimit(40)]
pub proof fn event_tells_every_level(
    book: BookView,
    taker: Order,
    event: EngineEvent,
    left: Seq<Order>,
    own_now: Seq<Order>,
    told: Seq<Fill>,
    delta: BookDelta,
    m: int,
)
    requires
        book.wf(),
        book.has_room(taker),
        book.reports(taker, event),
        taker.side == Side::Buy ==> left == book.process(taker).asks && own_now == book.process(
            taker,
        ).bids,
        taker.side == Side::Sell ==> left == book.process(taker).bids && own_now == book.process(
            taker,
        ).asks,
        event matches EngineEvent::Filled { fills, delta: d, .. } ==> told == fills@ && delta == d,
        event matches EngineEvent::Resting { delta: d, .. } ==> told == Seq::<Fill>::empty()
            && delta == d,
        volume(told) < taker.qty ==> m == delta.changes@.len() - 1,
        volume(told) >= taker.qty ==> m == delta.changes@.len(),
    ensures
        delta.seq == book.seq,
        m >= 0,
        forall|p: u64|
            #![trigger updated_at(delta.changes@, m, p)]
            #![trigger traded_at(told, p)]
            updated_at(delta.changes@, m, p) <==> traded_at(told, p),
        forall|i: int|
            0 <= i < m ==> {
                &&& (#[trigger] delta.changes@[i]).side != taker.side
                &&& delta.changes@[i].qty == depth_at(left, delta.changes@[i].price)
            },
        forall|i: int, j: int|
            0 <= i < j < m ==> {
                &&& taker.side == Side::Buy ==> (#[trigger] delta.changes@[i]).price < (
                #[trigger] delta.changes@[j]).price
                &&& taker.side == Side::Sell ==> delta.changes@[i].price > delta.changes@[j].price
            },
        m < delta.changes@.len() ==> {
            &&& delta.changes@[m].side == taker.side
            &&& delta.changes@[m].price == taker.price
            &&& delta.changes@[m].qty == depth_at(own_now, taker.price)
        },
{
    let side = opposite(taker.side);
    let traded = traded_updates(side, told, left);
    let changes = delta.changes@;
    assert(told == book.fills(taker)) by {
        if event is Resting {
            assert(book.fills(taker) =~= Seq::<Fill>::empty());
        }
    }
    assert(volume(told) + book.unfilled(taker) == taker.qty) by {
        quantity_conserved(book, taker);
    }
    lemma_changes_fit(book, taker);
    lemma_traded_levels(side, told, left);
    assert(traded.len() == m);
    assert forall|i: int| 0 <= i < m implies #[trigger] changes[i] == traded[i] by {}
    assert forall|p: u64|
        #![trigger updated_at(changes, m, p)]
        #![trigger traded_at(told, p)]
        updated_at(changes, m, p) <==> traded_at(told, p) by {
        lemma_same_prices(changes, traded, m, p);
        assert(updated_at(traded, m, p) <==> traded_at(told, p));
    }
}

proof fn lemma_same_prices(a: Seq<LevelUpdate>, b: Seq<LevelUpdate>, m: int, price: u64)
    requires
        forall|i: int| 0 <= i < m ==> #[trigger] a[i] == b[i],
    ensures
        updated_at(a, m, price) <==> updated_at(b, m, price),
{
    if updated_at(a, m, price) {
        let i = choose|i: int| 0 <= i < m && (#[trigger] a[i]).price == price;
        assert(b[i].price == price);
    }
    if updated_at(b, m, price) {
        let i = choose|i: int| 0 <= i < m && (#[trigger] b[i]).price == price;
        assert(a[i].price == price);
    }
}

/// The prices at which an order trades get no better, and what is left on both
/// sides can be counted.
proof fn lemma_changes_fit(book: BookView, taker: Order)
    requires
        book.wf(),
        book.has_room(taker),
    ensures
        forall|i: int, j: int|
            0 <= i < j < book.fills(taker).len() ==> at_least_as_good(
                opposite(taker.side),
                (#[trigger] book.fills(taker)[i]).price,
                (#[trigger] book.fills(taker)[j]).price,
            ),
        forall|p: u64| #[trigger] depth_at(book.makers_after(taker), p) <= u64::MAX,
        depth_at(book.own_after(taker), taker.price) <= u64::MAX,
{
    limit_respected(book, taker);
    lemma_process_wf(book, taker);
}

/// The updates for the prices of `told`, which do not get better.
proof fn lemma_traded_levels(side: Side, told: Seq<Fill>, left: Seq<Order>)
    requires
        forall|i: int, j: int|
            0 <= i < j < told.len() ==> at_least_as_good(
                side,
                (#[trigger] told[i]).price,
                (#[trigger] told[j]).price,
            ),
        forall|p: u64| #[trigger] depth_at(left, p) <= u64::MAX,
    ensures
        ({
            let traded = traded_updates(side, told, left);
            &&& forall|i: int|
                0 <= i < traded.len() ==> {
                    &&& (#[trigger] traded[i]).side == side
                    &&& traded[i].qty == depth_at(left, traded[i].price)
                }
            &&& forall|p: u64|
                #![trigger updated_at(traded, traded.len() as int, p)]
                #![trigger traded_at(told, p)]
                updated_at(traded, traded.len() as int, p) <==> traded_at(told, p)
            &&& forall|i: int, j: int|
                0 <= i < j < traded.len() ==> at_least_as_good(
                    side,
                    (#[trigger] traded[i]).price,
                    (#[trigger] traded[j]).price,
                ) && traded[i].price != traded[j].price
        }),
{
    let prices = fill_prices(told);
    let touched = runs(prices);
    let traded = traded_updates(side, told, left);
    assert forall|i: int, j: int| 0 <= i < j < prices.len() implies at_least_as_good(
        side,
        #[trigger] prices[i],
        #[trigger] prices[j],
    ) by {
        assert(prices[i] == told[i].price);
        assert(prices[j] == told[j].price);
    }
    lemma_runs_strict(side, prices);
    assert forall|i: int| 0 <= i < traded.len() implies {
        &&& (#[trigger] traded[i]).side == side
        &&& traded[i].qty == depth_at(left, traded[i].price)
    } by {
        assert(depth_at(left, touched[i]) <= u64::MAX);
    }
    assert forall|p: u64|
        #![trigger updated_at(traded, traded.len() as int, p)]
        #![trigger traded_at(told, p)]
        updated_at(traded, traded.len() as int, p) <==> traded_at(told, p) by {
        lemma_runs_contain(prices, p);
        if updated_at(traded, traded.len() as int, p) {
            let i = choose|i: int| 0 <= i < traded.len() && (#[trigger] traded[i]).price == p;
            assert(touched[i] == p);
            let f = choose|f: int| 0 <= f < prices.len() && prices[f] == p;
            assert(told[f].price == p);
        }
        if traded_at(told, p) {
            let f = choose|f: int| 0 <= f < told.len() && (#[trigger] told[f]).price == p;
            assert(prices[f] == p);
            let i = choose|i: int| 0 <= i < touched.len() && touched[i] == p;
            assert(traded[i].price == p);
        }
    }
    assert forall|i: int, j: int| 0 <= i < j < traded.len() implies at_least_as_good(
        side,
        (#[trigger] traded[i]).price,
        (#[trigger] traded[j]).price,
    ) && traded[i].price != traded[j].price by {
        assert(traded[i].price == touched[i]);
        assert(traded[j].price == touched[j]);
    }
}

/// The book has room for an order exactly when every level can still be counted
/// once the order has been processed.
pub proof fn room_is_what_the_levels_need(book: BookView, taker: Order)
    requires
        book.wf(),
    ensures
        book.has_room(taker) <==> forall|p: u64|
            #![trigger depth_at(book.process(taker).bids, p)]
            #![trigger depth_at(book.process(taker).asks, p)]
            depth_at(book.process(taker).bids, p) <= u64::MAX && depth_at(
                book.process(taker).asks,
                p,
            ) <= u64::MAX,
{
    let own = book.side(taker.side);
    let next = book.process(taker);
    let rest = Order { qty: book.unfilled(taker), ..taker };
    if book.has_room(taker) {
        lemma_process_wf(book, taker);
    } else {
        lemma_enqueue_depth(own, rest, taker.price);
        assert(depth_at(next.side(taker.side), taker.price) > u64::MAX);
        assert(depth_at(next.bids, taker.price) > u64::MAX || depth_at(next.asks, taker.price)
            > u64::MAX);
    }
}

} // verus!
