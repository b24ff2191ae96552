//! Facts about the model that the proofs of the executable code rest on.
use crate::model::{
    after, at_least_as_good, crosses, depth_at, enqueue, fills, reach, reduce, runs, side_wf, total,
    trade_qty, trades, unfilled,
};
use crate::types::{Order, Side};
use vstd::prelude::*;

verus! {

pub proof fn lemma_total_concat(a: Seq<Order>, b: Seq<Order>)
    ensures
        total(a + b) == total(a) + total(b),
    decreases b.len(),
{
    if b.len() == 0 {
        assert(a + b =~= a);
    } else {
        assert((a + b).drop_last() =~= a + b.drop_last());
        lemma_total_concat(a, b.drop_last());
    }
}

pub proof fn lemma_depth_concat(a: Seq<Order>, b: Seq<Order>, price: u64)
    ensures
        depth_at(a + b, price) == depth_at(a, price) + depth_at(b, price),
    decreases b.len(),
{
    if b.len() == 0 {
        assert(a + b =~= a);
    } else {
        assert((a + b).drop_last() =~= a + b.drop_last());
        lemma_depth_concat(a, b.drop_last(), price);
    }
}

pub proof fn lemma_depth_one(order: Order, price: u64)
    ensures
        depth_at(seq![order], price) == if order.price == price {
            order.qty as nat
        } else {
            0
        },
        total(seq![order]) == order.qty,
{
    let one = seq![order];
    assert(one.drop_last() =~= Seq::<Order>::empty());
    assert(depth_at(one.drop_last(), price) == 0);
    assert(total(one.drop_last()) == 0);
}

/// Orders that all have one price: their depth there is their total.
pub proof fn lemma_depth_single_price(orders: Seq<Order>, price: u64)
    requires
        forall|i: int| 0 <= i < orders.len() ==> (#[trigger] orders[i]).price == price,
    ensures
        depth_at(orders, price) == total(orders),
    decreases orders.len(),
{
    if orders.len() > 0 {
        lemma_depth_single_price(orders.drop_last(), price);
    }
}

/// Nothing rests at a price that no order has.
pub proof fn lemma_depth_absent(orders: Seq<Order>, price: u64)
    requires
        forall|i: int| 0 <= i < orders.len() ==> (#[trigger] orders[i]).price != price,
    ensures
        depth_at(orders, price) == 0,
    decreases orders.len(),
{
    if orders.len() > 0 {
        lemma_depth_absent(orders.drop_last(), price);
    }
}

/// An order that rests counts towards the depth at its price.
pub proof fn lemma_depth_present(orders: Seq<Order>, i: int)
    requires
        0 <= i < orders.len(),
    ensures
        depth_at(orders, orders[i].price) >= orders[i].qty,
    decreases orders.len(),
{
    if i < orders.len() - 1 {
        lemma_depth_present(orders.drop_last(), i);
    }
}

/// Taking the first order away takes its quantity away.
pub proof fn lemma_first(orders: Seq<Order>, price: u64)
    requires
        orders.len() > 0,
    ensures
        total(orders) == orders[0].qty + total(orders.drop_first()),
        depth_at(orders, price) == depth_at(orders.drop_first(), price) + if orders[0].price
            == price {
            orders[0].qty as nat
        } else {
            0
        },
{
    assert(orders =~= seq![orders[0]] + orders.drop_first());
    lemma_total_concat(seq![orders[0]], orders.drop_first());
    lemma_depth_concat(seq![orders[0]], orders.drop_first(), price);
    lemma_depth_one(orders[0], price);
}

/// What rests after a taker is the end of what rested before; only the first
/// order of it may have traded.
pub proof fn lemma_after_suffix(makers: Seq<Order>, taker: Order)
    requires
        forall|i: int| 0 <= i < makers.len() ==> (#[trigger] makers[i]).qty > 0,
    ensures
        ({
            let left = after(makers, taker);
            let gone = makers.len() - left.len();
            &&& gone >= 0
            &&& forall|i: int| 0 < i < left.len() ==> #[trigger] left[i] == makers[i + gone]
            &&& left.len() > 0 ==> {
                &&& left[0] == Order { qty: left[0].qty, ..makers[gone] }
                &&& 0 < left[0].qty <= makers[gone].qty
            }
        }),
    decreases makers.len(),
{
    if trades(makers, taker) && makers[0].qty <= taker.qty {
        let rest = makers.drop_first();
        lemma_after_suffix(rest, reduce(taker, makers[0].qty as int));
        let left = after(makers, taker);
        let gone = makers.len() - left.len();
        assert forall|i: int| 0 < i < left.len() implies #[trigger] left[i] == makers[i + gone] by {
            assert(left[i] == rest[i + (rest.len() - left.len())]);
        }
    }
}

/// What rests at any price does not grow on the side that a taker meets.
pub proof fn lemma_after_depth(makers: Seq<Order>, taker: Order, price: u64)
    ensures
        depth_at(after(makers, taker), price) <= depth_at(makers, price),
        total(after(makers, taker)) <= total(makers),
    decreases makers.len(),
{
    if trades(makers, taker) {
        lemma_first(makers, price);
        if makers[0].qty <= taker.qty {
            lemma_after_depth(makers.drop_first(), reduce(taker, makers[0].qty as int), price);
        } else {
            let left = after(makers, taker);
            assert(left.drop_first() =~= makers.drop_first());
            lemma_first(left, price);
        }
    }
}

/// A taker that accepts every price of `front` meets `front` first and then,
/// with what is left of it, `back`.
pub proof fn lemma_concat(front: Seq<Order>, back: Seq<Order>, taker: Order)
    requires
        forall|i: int| 0 <= i < front.len() ==> crosses(taker, (#[trigger] front[i]).price),
    ensures
        ({
            let left = Order { qty: unfilled(front, taker), ..taker };
            &&& fills(front + back, taker) == fills(front, taker) + fills(back, left)
            &&& after(front + back, taker) == after(front, taker) + after(back, left)
            &&& unfilled(front + back, taker) == unfilled(back, left)
            &&& after(front, taker).len() > 0 ==> left.qty == 0
        }),
    decreases front.len(),
{
    let left = Order { qty: unfilled(front, taker), ..taker };
    if front.len() == 0 {
        assert(front + back =~= back);
        assert(left == taker);
        assert(fills(front + back, taker) =~= fills(front, taker) + fills(back, left));
        assert(after(front + back, taker) =~= after(front, taker) + after(back, left));
    } else if taker.qty == 0 {
        assert(left == taker);
        assert(fills(front + back, taker) =~= fills(front, taker) + fills(back, left));
    } else {
        let qty = trade_qty(front[0], taker);
        let next = reduce(taker, qty as int);
        assert((front + back).drop_first() =~= front.drop_first() + back);
        lemma_concat(front.drop_first(), back, next);
        assert(trades(front + back, taker));
        assert(trades(front, taker));
        assert(fills(front + back, taker) =~= fills(front, taker) + fills(back, left));
        if front[0].qty > taker.qty {
            assert(next.qty == 0);
            assert(left.qty == 0);
            assert(after(front + back, taker) =~= after(front, taker) + after(back, left));
        }
    }
}

/// A taker does not grow by trading.
pub proof fn lemma_unfilled_bound(makers: Seq<Order>, taker: Order)
    ensures
        unfilled(makers, taker) <= taker.qty,
    decreases makers.len(),
{
    if trades(makers, taker) {
        let qty = trade_qty(makers[0], taker);
        lemma_unfilled_bound(makers.drop_first(), reduce(taker, qty as int));
    }
}

/// Of a taker that accepts every price of `makers`, what their total does not
/// cover is left.
pub proof fn lemma_unfilled_all_cross(makers: Seq<Order>, taker: Order)
    requires
        forall|i: int| 0 <= i < makers.len() ==> crosses(taker, (#[trigger] makers[i]).price),
    ensures
        unfilled(makers, taker) == if total(makers) >= taker.qty {
            0
        } else {
            taker.qty - total(makers)
        },
    decreases makers.len(),
{
    if trades(makers, taker) {
        let qty = trade_qty(makers[0], taker);
        lemma_first(makers, 0);
        lemma_unfilled_all_cross(makers.drop_first(), reduce(taker, qty as int));
    }
}

/// Where exactly the orders of `front` have a price at least as good, the reach
/// of that price is `front`.
pub proof fn lemma_reach(front: Seq<Order>, back: Seq<Order>, side: Side, price: u64)
    requires
        forall|i: int|
            0 <= i < front.len() ==> at_least_as_good(side, (#[trigger] front[i]).price, price),
        back.len() > 0 ==> !at_least_as_good(side, back[0].price, price),
    ensures
        reach(front + back, side, price) == front.len(),
    decreases front.len(),
{
    if front.len() == 0 {
        assert(front + back =~= back);
    } else {
        assert((front + back).drop_first() =~= front.drop_first() + back);
        lemma_reach(front.drop_first(), back, side, price);
    }
}

/// While a taker has something left, no order that it accepts is left.
pub proof fn lemma_swept(makers: Seq<Order>, taker: Order)
    requires
        unfilled(makers, taker) > 0,
    ensures
        after(makers, taker).len() > 0 ==> !crosses(taker, after(makers, taker)[0].price),
    decreases makers.len(),
{
    if trades(makers, taker) {
        let next = reduce(taker, trade_qty(makers[0], taker) as int);
        if makers[0].qty <= taker.qty {
            lemma_swept(makers.drop_first(), next);
        } else {
            assert(next.qty == 0);
            assert(unfilled(makers.drop_first(), next) == 0);
        }
    }
}

/// The reach of a price ends where the prices get worse.
pub proof fn lemma_reach_split(orders: Seq<Order>, side: Side, price: u64)
    ensures
        reach(orders, side, price) <= orders.len(),
        forall|i: int|
            0 <= i < reach(orders, side, price) ==> at_least_as_good(
                side,
                (#[trigger] orders[i]).price,
                price,
            ),
        reach(orders, side, price) < orders.len() ==> !at_least_as_good(
            side,
            orders[reach(orders, side, price) as int].price,
            price,
        ),
    decreases orders.len(),
{
    if orders.len() > 0 && at_least_as_good(side, orders[0].price, price) {
        let rest = orders.drop_first();
        lemma_reach_split(rest, side, price);
        assert forall|i: int| 0 <= i < reach(orders, side, price) implies at_least_as_good(
            side,
            (#[trigger] orders[i]).price,
            price,
        ) by {
            if i > 0 {
                assert(orders[i] == rest[i - 1]);
            }
        }
    }
}

/// Joining a side adds to the depth at one price.
pub proof fn lemma_enqueue_depth(orders: Seq<Order>, order: Order, price: u64)
    ensures
        depth_at(enqueue(orders, order), price) == depth_at(orders, price) + if price
            == order.price {
            order.qty as nat
        } else {
            0
        },
        total(enqueue(orders, order)) == total(orders) + order.qty,
{
    let n = reach(orders, order.side, order.price) as int;
    lemma_reach_split(orders, order.side, order.price);
    let front = orders.take(n);
    let back = orders.skip(n);
    assert(orders =~= front + back);
    assert(enqueue(orders, order) =~= front + seq![order] + back);
    lemma_depth_concat(front, back, price);
    lemma_depth_concat(front + seq![order], back, price);
    lemma_depth_concat(front, seq![order], price);
    lemma_total_concat(front, back);
    lemma_total_concat(front + seq![order], back);
    lemma_total_concat(front, seq![order]);
    lemma_depth_one(order, price);
}

/// The side that a taker meets stays well formed.
pub proof fn lemma_after_wf(side: Side, makers: Seq<Order>, taker: Order)
    requires
        side_wf(side, makers),
    ensures
        side_wf(side, after(makers, taker)),
{
    let left = after(makers, taker);
    let gone = makers.len() - left.len();
    lemma_after_suffix(makers, taker);
    assert forall|i: int| 0 <= i < left.len() implies (#[trigger] left[i]).side == side
        && left[i].qty > 0 && left[i].price == makers[i + gone].price by {
        assert(makers[i + gone].qty > 0);
    }
    assert forall|i: int, j: int| 0 <= i < j < left.len() implies at_least_as_good(
        side,
        (#[trigger] left[i]).price,
        (#[trigger] left[j]).price,
    ) by {
        assert(at_least_as_good(side, makers[i + gone].price, makers[j + gone].price));
    }
    assert forall|p: u64| #[trigger] depth_at(left, p) <= u64::MAX by {
        lemma_after_depth(makers, taker, p);
        assert(depth_at(makers, p) <= u64::MAX);
    }
}

/// The side that an order joins stays well formed.
pub proof fn lemma_enqueue_wf(orders: Seq<Order>, order: Order)
    requires
        side_wf(order.side, orders),
        order.qty > 0,
        depth_at(orders, order.price) + order.qty <= u64::MAX,
    ensures
        side_wf(order.side, enqueue(orders, order)),
{
    let side = order.side;
    let joined = enqueue(orders, order);
    let n = reach(orders, side, order.price) as int;
    lemma_reach_split(orders, side, order.price);
    assert forall|i: int| 0 <= i < joined.len() implies #[trigger] joined[i] == if i < n {
        orders[i]
    } else if i == n {
        order
    } else {
        orders[i - 1]
    } by {}
    assert forall|i: int, j: int| 0 <= i < j < joined.len() implies at_least_as_good(
        side,
        (#[trigger] joined[i]).price,
        (#[trigger] joined[j]).price,
    ) by {
        if i == n && j > n + 1 {
            assert(at_least_as_good(side, orders[n].price, orders[j - 1].price));
        }
    }
    assert forall|p: u64| #[trigger] depth_at(joined, p) <= u64::MAX by {
        lemma_enqueue_depth(orders, order, p);
        assert(depth_at(orders, p) <= u64::MAX);
    }
}

/// The fills of a taker with orders of one price have that price.
pub proof fn lemma_fills_single_price(makers: Seq<Order>, taker: Order, price: u64)
    requires
        forall|i: int| 0 <= i < makers.len() ==> (#[trigger] makers[i]).price == price,
    ensures
        forall|i: int|
            0 <= i < fills(makers, taker).len() ==> (#[trigger] fills(makers, taker)[i]).price
                == price,
    decreases makers.len(),
{
    if trades(makers, taker) {
        let qty = trade_qty(makers[0], taker);
        let next = reduce(taker, qty as int);
        lemma_fills_single_price(makers.drop_first(), next, price);
        assert forall|i: int| 0 <= i < fills(makers, taker).len() implies (#[trigger] fills(
            makers,
            taker,
        )[i]).price == price by {
            if i > 0 {
                assert(fills(makers, taker)[i] == fills(makers.drop_first(), next)[i - 1]);
            }
        }
    }
}

/// A new run ends a sequence of prices.
pub proof fn lemma_runs_extend(front: Seq<u64>, back: Seq<u64>, price: u64)
    requires
        back.len() > 0,
        forall|i: int| 0 <= i < back.len() ==> #[trigger] back[i] == price,
        front.len() > 0 ==> front.last() != price,
    ensures
        runs(front + back) == runs(front).push(price),
    decreases back.len(),
{
    let all = front + back;
    if back.len() == 1 {
        assert(all.drop_last() =~= front);
    } else {
        assert(all.drop_last() =~= front + back.drop_last());
        lemma_runs_extend(front, back.drop_last(), price);
    }
}

} // verus!
