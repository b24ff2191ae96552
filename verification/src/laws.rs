//! What matching promises, whatever the book and the order.
use crate::lemmas::{
    lemma_after_depth, lemma_after_suffix, lemma_after_wf, lemma_enqueue_depth, lemma_first,
    lemma_reach_split, lemma_swept,
};
use crate::model::{
    after, at_least_as_good, crosses, depth_at, enqueue, fill_prices, fills, opposite, reach,
    reduce, runs, side_wf, total, trade_qty, traded_updates, trades, unfilled, update_at, volume,
    BookView,
};
use crate::types::{Fill, LevelUpdate, Order, Side};
use vstd::prelude::*;

verus! {

/// Price-time priority: the trades of an order are with the first resting
/// orders of the other side, in the order in which they stand there, each at
/// the price of the resting order. All of these but the last trade in full.
pub proof fn price_time_priority(book: BookView, taker: Order)
    requires
        book.wf(),
    ensures
        ({
            let makers = book.side(opposite(taker.side));
            let trades = book.fills(taker);
            &&& trades.len() <= makers.len()
            &&& forall|i: int|
                0 <= i < trades.len() ==> {
                    &&& (#[trigger] trades[i]).maker_order_id == makers[i].id
                    &&& trades[i].taker_order_id == taker.id
                    &&& trades[i].price == makers[i].price
                    &&& 0 < trades[i].qty <= makers[i].qty
                    &&& i < trades.len() - 1 ==> trades[i].qty == makers[i].qty
                }
        }),
{
    lemma_priority(book.side(opposite(taker.side)), taker);
}

/// Of `makers` alone, which stand in priority order.
pub proof fn lemma_priority(makers: Seq<Order>, taker: Order)
    requires
        forall|i: int| 0 <= i < makers.len() ==> (#[trigger] makers[i]).qty > 0,
    ensures
        ({
            let trades = fills(makers, taker);
            &&& trades.len() <= makers.len()
            &&& forall|i: int|
                0 <= i < trades.len() ==> {
                    &&& (#[trigger] trades[i]).maker_order_id == makers[i].id
                    &&& trades[i].taker_order_id == taker.id
                    &&& trades[i].price == makers[i].price
                    &&& crosses(taker, trades[i].price)
                    &&& 0 < trades[i].qty <= makers[i].qty
                    &&& i < trades.len() - 1 ==> trades[i].qty == makers[i].qty
                }
        }),
    decreases makers.len(),
{
    if trades(makers, taker) {
        let next = reduce(taker, trade_qty(makers[0], taker) as int);
        let rest = makers.drop_first();
        lemma_priority(rest, next);
        let all = fills(makers, taker);
        assert forall|i: int| 0 <= i < all.len() implies {
            &&& (#[trigger] all[i]).maker_order_id == makers[i].id
            &&& all[i].taker_order_id == taker.id
            &&& all[i].price == makers[i].price
            &&& crosses(taker, all[i].price)
            &&& 0 < all[i].qty <= makers[i].qty
            &&& i < all.len() - 1 ==> all[i].qty == makers[i].qty
        } by {
            if i > 0 {
                assert(all[i] == fills(rest, next)[i - 1]);
                assert(makers[i] == rest[i - 1]);
            } else if all.len() > 1 {
                assert(trades(rest, next));
            }
        }
    }
}

/// An order never trades at a price worse than its limit, and its trades get
/// no better as they go.
pub proof fn limit_respected(book: BookView, taker: Order)
    requires
        book.wf(),
    ensures
        forall|i: int|
            0 <= i < book.fills(taker).len() ==> match taker.side {
                Side::Buy => (#[trigger] book.fills(taker)[i]).price <= taker.price,
                Side::Sell => book.fills(taker)[i].price >= taker.price,
            },
        forall|i: int, j: int|
            0 <= i < j < book.fills(taker).len() ==> at_least_as_good(
                opposite(taker.side),
                (#[trigger] book.fills(taker)[i]).price,
                (#[trigger] book.fills(taker)[j]).price,
            ),
{
    let makers = book.side(opposite(taker.side));
    lemma_priority(makers, taker);
    assert forall|i: int, j: int| 0 <= i < j < book.fills(taker).len() implies at_least_as_good(
        opposite(taker.side),
        (#[trigger] book.fills(taker)[i]).price,
        (#[trigger] book.fills(taker)[j]).price,
    ) by {
        assert(at_least_as_good(opposite(taker.side), makers[i].price, makers[j].price));
    }
}

/// An order trades as long as it can: where something of it is left, no order
/// that it would trade with is left either.
pub proof fn matched_to_the_end(book: BookView, taker: Order)
    requires
        book.wf(),
        book.unfilled(taker) > 0,
    ensures
        forall|i: int|
            0 <= i < book.makers_after(taker).len() ==> !crosses(
                taker,
                (#[trigger] book.makers_after(taker)[i]).price,
            ),
{
    let makers = book.side(opposite(taker.side));
    let left = book.makers_after(taker);
    lemma_swept(makers, taker);
    lemma_after_wf(opposite(taker.side), makers, taker);
    assert forall|i: int| 0 <= i < left.len() implies !crosses(
        taker,
        (#[trigger] left[i]).price,
    ) by {
        if i > 0 {
            assert(at_least_as_good(opposite(taker.side), left[0].price, left[i].price));
        }
    }
}

/// Nothing is lost and nothing is made up: what an order trades and what is
/// left of it are what it came with, what it trades is what the other side
/// loses, and what is left of it is what its own side gains.
pub proof fn quantity_conserved(book: BookView, taker: Order)
    ensures
        volume(book.fills(taker)) + book.unfilled(taker) == taker.qty,
        total(book.process(taker).side(opposite(taker.side))) + volume(book.fills(taker)) == total(
            book.side(opposite(taker.side)),
        ),
        total(book.process(taker).side(taker.side)) == total(book.side(taker.side))
            + book.unfilled(taker),
{
    let makers = book.side(opposite(taker.side));
    lemma_conserved(makers, taker);
    if book.unfilled(taker) > 0 {
        lemma_enqueue_depth(
            book.side(taker.side),
            Order { qty: book.unfilled(taker), ..taker },
            taker.price,
        );
    }
}

proof fn lemma_conserved(makers: Seq<Order>, taker: Order)
    ensures
        volume(fills(makers, taker)) + unfilled(makers, taker) == taker.qty,
        total(after(makers, taker)) + volume(fills(makers, taker)) == total(makers),
    decreases makers.len(),
{
    if trades(makers, taker) {
        let qty = trade_qty(makers[0], taker);
        let next = reduce(taker, qty as int);
        let rest = makers.drop_first();
        lemma_conserved(rest, next);
        lemma_first(makers, 0);
        let all = fills(makers, taker);
        lemma_volume_concat(seq![all[0]], fills(rest, next));
        assert(seq![all[0]].drop_last() =~= Seq::<Fill>::empty());
        assert(volume(seq![all[0]]) == qty) by {
            assert(volume(seq![all[0]].drop_last()) == 0);
        }
        if makers[0].qty > taker.qty {
            let left = after(makers, taker);
            assert(fills(rest, next) =~= Seq::<Fill>::empty());
            assert(left.drop_first() =~= rest);
            lemma_first(left, 0);
        }
    } else {
        assert(volume(fills(makers, taker)) == 0);
    }
}

pub proof fn lemma_volume_concat(a: Seq<Fill>, b: Seq<Fill>)
    ensures
        volume(a + b) == volume(a) + volume(b),
    decreases b.len(),
{
    if b.len() == 0 {
        assert(a + b =~= a);
    } else {
        assert((a + b).drop_last() =~= a + b.drop_last());
        lemma_volume_concat(a, b.drop_last());
    }
}

/// First come, first served: an order joins its side behind every order at a
/// price at least as good, its own price among them, and ahead of all others,
/// which stay in the order they had.
pub proof fn first_come_first_served(orders: Seq<Order>, order: Order)
    requires
        side_wf(order.side, orders),
    ensures
        ({
            let n = reach(orders, order.side, order.price) as int;
            let joined = enqueue(orders, order);
            &&& joined.len() == orders.len() + 1
            &&& joined[n] == order
            &&& forall|i: int|
                0 <= i < n ==> #[trigger] joined[i] == orders[i] && at_least_as_good(
                    order.side,
                    joined[i].price,
                    order.price,
                )
            &&& forall|i: int|
                n < i < joined.len() ==> #[trigger] joined[i] == orders[i - 1] && !at_least_as_good(
                    order.side,
                    joined[i].price,
                    order.price,
                )
        }),
{
    let n = reach(orders, order.side, order.price) as int;
    let joined = enqueue(orders, order);
    lemma_reach_split(orders, order.side, order.price);
    assert forall|i: int| n < i < joined.len() implies #[trigger] joined[i] == orders[i - 1]
        && !at_least_as_good(order.side, joined[i].price, order.price) by {
        if i - 1 > n {
            assert(at_least_as_good(order.side, orders[n].price, orders[i - 1].price));
        }
    }
}

/// Orders keep their ids: whatever rests after an order has been processed is an
/// order that rested before, with the same id and price and no more quantity, or
/// what is left of the new one, under the id that it came with.
pub proof fn orders_keep_their_ids(book: BookView, taker: Order, side: Side, i: int)
    requires
        book.wf(),
        0 <= i < book.process(taker).side(side).len(),
    ensures
        ({
            let rests = book.process(taker).side(side)[i];
            ||| rests == (Order { qty: book.unfilled(taker), ..taker })
            ||| exists|j: int|
                0 <= j < book.side(side).len() && rests == (Order {
                    qty: rests.qty,
                    ..(#[trigger] book.side(side)[j])
                }) && rests.qty <= book.side(side)[j].qty
        }),
{
    let before = book.side(side);
    let now = book.process(taker).side(side);
    if side == taker.side {
        let n = reach(before, side, taker.price) as int;
        lemma_reach_split(before, side, taker.price);
        if book.unfilled(taker) == 0 || i < n {
            assert(now[i] == before[i]);
        } else if i > n {
            assert(now[i] == before[i - 1]);
        }
    } else {
        let gone = before.len() - now.len();
        lemma_after_suffix(before, taker);
        assert(now[i] == (Order { qty: now[i].qty, ..before[i + gone] }));
    }
}

/// The quantity at `price` of `side` that a receiver of `changes` knows of when
/// it knew of `before` there: what the last update for it says.
pub open spec fn told(changes: Seq<LevelUpdate>, side: Side, price: u64, before: nat) -> nat
    decreases changes.len(),
{
    if changes.len() == 0 {
        before
    } else if changes.last().side == side && changes.last().price == price {
        changes.last().qty as nat
    } else {
        told(changes.drop_last(), side, price, before)
    }
}

/// A delta is enough to bring the levels before an event to those after it:
/// whoever knows what rested at every price and is told the changes knows what
/// rests at every price.
pub proof fn delta_sufficient(book: BookView, taker: Order, side: Side, price: u64)
    requires
        book.wf(),
        book.has_room(taker),
    ensures
        told(book.changes(taker), side, price, depth_at(book.side(side), price)) == depth_at(
            book.process(taker).side(side),
            price,
        ),
{
    let makers = book.side(opposite(taker.side));
    let left = book.makers_after(taker);
    let traded = traded_updates(opposite(taker.side), book.fills(taker), left);
    let changes = book.changes(taker);
    if book.unfilled(taker) > 0 {
        assert(changes.drop_last() =~= traded);
        lemma_enqueue_depth(
            book.side(taker.side),
            Order { qty: book.unfilled(taker), ..taker },
            price,
        );
    }
    lemma_after_depth(makers, taker, price);
    assert(depth_at(makers, price) <= u64::MAX);
    if side == opposite(taker.side) {
        lemma_told_traded(side, book.fills(taker), left, price, depth_at(makers, price));
        lemma_after_untouched(makers, taker, price);
        lemma_runs_contain(fill_prices(book.fills(taker)), price);
        if fill_prices(book.fills(taker)).contains(price) {
        } else {
            assert forall|i: int| 0 <= i < book.fills(taker).len() implies (#[trigger] book.fills(
                taker,
            )[i]).price != price by {
                assert(fill_prices(book.fills(taker))[i] == book.fills(taker)[i].price);
            }
        }
    } else {
        lemma_told_other(traded, side, price, depth_at(book.side(side), price));
    }
}

/// Updates of the other side tell nothing of this one.
proof fn lemma_told_other(changes: Seq<LevelUpdate>, side: Side, price: u64, before: nat)
    requires
        forall|i: int| 0 <= i < changes.len() ==> (#[trigger] changes[i]).side != side,
    ensures
        told(changes, side, price, before) == before,
    decreases changes.len(),
{
    if changes.len() > 0 {
        lemma_told_other(changes.drop_last(), side, price, before);
    }
}

/// The updates for the prices that traded tell what is left there.
proof fn lemma_told_traded(
    side: Side,
    traded: Seq<Fill>,
    left: Seq<Order>,
    price: u64,
    before: nat,
)
    requires
        depth_at(left, price) <= u64::MAX,
    ensures
        told(traded_updates(side, traded, left), side, price, before) == if runs(
            fill_prices(traded),
        ).contains(price) {
            depth_at(left, price)
        } else {
            before
        },
{
    lemma_told_prices(side, runs(fill_prices(traded)), left, price, before);
}

proof fn lemma_told_prices(
    side: Side,
    prices: Seq<u64>,
    left: Seq<Order>,
    price: u64,
    before: nat,
)
    requires
        depth_at(left, price) <= u64::MAX,
    ensures
        told(prices.map_values(|p: u64| update_at(side, left, p)), side, price, before) == if prices
            .contains(price) {
            depth_at(left, price)
        } else {
            before
        },
    decreases prices.len(),
{
    let changes = prices.map_values(|p: u64| update_at(side, left, p));
    if prices.len() > 0 {
        let fewer = prices.drop_last();
        lemma_told_prices(side, fewer, left, price, before);
        assert(changes.drop_last() =~= fewer.map_values(|p: u64| update_at(side, left, p)));
        assert(prices =~= fewer.push(prices.last()));
        if prices.contains(price) && prices.last() != price {
            let i = choose|i: int| 0 <= i < prices.len() && prices[i] == price;
            assert(fewer[i] == price);
        }
        if fewer.contains(price) {
            let i = choose|i: int| 0 <= i < fewer.len() && fewer[i] == price;
            assert(prices[i] == price);
        }
        if prices.last() == price {
            assert(prices[prices.len() - 1] == price);
        }
    }
}

/// Cutting down runs loses no price and adds none.
pub proof fn lemma_runs_contain(prices: Seq<u64>, price: u64)
    ensures
        runs(prices).contains(price) <==> prices.contains(price),
    decreases prices.len(),
{
    if prices.len() > 0 {
        let fewer = prices.drop_last();
        lemma_runs_contain(fewer, price);
        if prices.contains(price) {
            let i = choose|i: int| 0 <= i < prices.len() && prices[i] == price;
            if i < fewer.len() {
                assert(fewer[i] == price);
            } else if prices.len() > 1 && prices[prices.len() - 2] == prices.last() {
                assert(fewer[fewer.len() - 1] == price);
            } else {
                assert(runs(prices)[runs(fewer).len() as int] == price);
            }
        }
        if fewer.contains(price) {
            let i = choose|i: int| 0 <= i < fewer.len() && fewer[i] == price;
            assert(prices[i] == price);
            let j = choose|j: int| 0 <= j < runs(fewer).len() && runs(fewer)[j] == price;
            assert(runs(prices)[j] == price);
        }
        if runs(prices).contains(price) && !runs(fewer).contains(price) {
            let j = choose|j: int| 0 <= j < runs(prices).len() && runs(prices)[j] == price;
            if j < runs(fewer).len() {
                assert(runs(fewer)[j] == price);
            }
            assert(prices[prices.len() - 1] == price);
        }
    }
}

/// A price at which nothing traded keeps its depth.
pub proof fn lemma_after_untouched(makers: Seq<Order>, taker: Order, price: u64)
    ensures
        (forall|i: int|
            0 <= i < fills(makers, taker).len() ==> (#[trigger] fills(makers, taker)[i]).price
                != price) ==> depth_at(after(makers, taker), price) == depth_at(makers, price),
    decreases makers.len(),
{
    if trades(makers, taker) {
        let next = reduce(taker, trade_qty(makers[0], taker) as int);
        let rest = makers.drop_first();
        let all = fills(makers, taker);
        lemma_after_untouched(rest, next, price);
        lemma_first(makers, price);
        if forall|i: int| 0 <= i < all.len() ==> (#[trigger] all[i]).price != price {
            assert(all[0].price != price);
            assert forall|i: int| 0 <= i < fills(rest, next).len() implies (#[trigger] fills(
                rest,
                next,
            )[i]).price != price by {
                assert(all[i + 1] == fills(rest, next)[i]);
            }
            if makers[0].qty > taker.qty {
                let left = after(makers, taker);
                assert(left.drop_first() =~= rest);
                lemma_first(left, price);
            }
        }
    }
}

} // verus!
