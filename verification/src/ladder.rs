//! One side of the order book: a sorted map from price to the queue of orders
//! that rest there.
use crate::lemmas::{
    lemma_after_depth, lemma_after_suffix, lemma_concat, lemma_depth_absent, lemma_depth_concat,
    lemma_depth_one, lemma_depth_single_price, lemma_fills_single_price, lemma_reach,
    lemma_runs_extend, lemma_total_concat, lemma_unfilled_all_cross, lemma_unfilled_bound,
};
use crate::model::{
    after, crosses, depth_at, enqueue, fill_prices, fills, levels, opposite, order_prices, reduce,
    runs, side_wf, top, total, trade_qty, traded_updates, trades, unfilled,
};
use crate::types::{Fill, Level, LevelUpdate, Order, Side};
use std::collections::{BTreeMap, VecDeque};
use vstd::prelude::*;
use vstd::std_specs::btree::increasing_seq;
use vstd::std_specs::cmp::OrdSpec;
use vstd::std_specs::iter::IteratorSpec;

verus! {

/// One side of an order book.
///
/// The map is keyed by rank, so that the best level always comes first: asks
/// rank by price and bids by how far they are below the highest price.
pub struct Ladder {
    side: Side,
    queues: BTreeMap<u64, VecDeque<Order>>,
}

/// The place of `price` on `side`: the better the price, the lower.
pub open spec fn rank(side: Side, price: u64) -> u64 {
    match side {
        Side::Buy => (u64::MAX - price) as u64,
        Side::Sell => price,
    }
}

/// All ranks are below this.
spec fn ranks() -> int {
    u64::MAX + 1
}

/// The orders of rank `k`.
spec fn queue_at(queues: Map<u64, VecDeque<Order>>, k: int) -> Seq<Order> {
    if 0 <= k < ranks() && queues.contains_key(k as u64) {
        queues[k as u64]@
    } else {
        Seq::empty()
    }
}

/// The orders of the ranks from `lo` up to `hi`, best first.
spec fn span(queues: Map<u64, VecDeque<Order>>, lo: int, hi: int) -> Seq<Order>
    decreases hi - lo,
{
    if lo >= hi {
        Seq::empty()
    } else {
        queue_at(queues, lo) + span(queues, lo + 1, hi)
    }
}

/// What holds of the queue at rank `k`.
spec fn queue_ok(side: Side, k: u64, queue: Seq<Order>) -> bool {
    &&& queue.len() > 0
    &&& total(queue) <= u64::MAX
    &&& forall|i: int|
        0 <= i < queue.len() ==> {
            &&& (#[trigger] queue[i]).side == side
            &&& rank(side, queue[i].price) == k
            &&& queue[i].qty > 0
        }
}

/// What holds of the queues of a side.
spec fn queues_ok(side: Side, queues: Map<u64, VecDeque<Order>>) -> bool {
    forall|k: u64| #[trigger] queues.contains_key(k) ==> queue_ok(side, k, queues[k]@)
}

proof fn lemma_span_split(queues: Map<u64, VecDeque<Order>>, lo: int, mid: int, hi: int)
    requires
        lo <= mid <= hi,
    ensures
        span(queues, lo, hi) == span(queues, lo, mid) + span(queues, mid, hi),
    decreases mid - lo,
{
    if lo < mid {
        lemma_span_split(queues, lo + 1, mid, hi);
        assert(span(queues, lo, hi) =~= span(queues, lo, mid) + span(queues, mid, hi));
    } else {
        assert(span(queues, lo, hi) =~= span(queues, lo, mid) + span(queues, mid, hi));
    }
}

proof fn lemma_span_empty(queues: Map<u64, VecDeque<Order>>, lo: int, hi: int)
    requires
        forall|k: u64| #[trigger] queues.contains_key(k) ==> !(lo <= k < hi),
    ensures
        span(queues, lo, hi) == Seq::<Order>::empty(),
    decreases hi - lo,
{
    if lo < hi {
        lemma_span_empty(queues, lo + 1, hi);
        assert(span(queues, lo, hi) =~= Seq::<Order>::empty());
    }
}

/// Where no rank from `lo` on is taken, the orders up to `lo` are all.
proof fn lemma_rest_empty(queues: Map<u64, VecDeque<Order>>, lo: int)
    requires
        0 <= lo <= ranks(),
    ensures
        (forall|k: u64| #[trigger] queues.contains_key(k) ==> k < lo) ==> span(queues, 0, lo)
            == span(queues, 0, ranks()),
{
    if forall|k: u64| #[trigger] queues.contains_key(k) ==> k < lo {
        lemma_span_split(queues, 0, lo, ranks());
        lemma_span_empty(queues, lo, ranks());
        assert(span(queues, 0, lo) =~= span(queues, 0, ranks()));
    }
}

proof fn lemma_span_same(
    a: Map<u64, VecDeque<Order>>,
    b: Map<u64, VecDeque<Order>>,
    lo: int,
    hi: int,
)
    requires
        forall|k: int| lo <= k < hi ==> #[trigger] queue_at(a, k) == queue_at(b, k),
    ensures
        span(a, lo, hi) == span(b, lo, hi),
    decreases hi - lo,
{
    if lo < hi {
        assert(queue_at(a, lo) == queue_at(b, lo));
        lemma_span_same(a, b, lo + 1, hi);
    }
}

/// The orders of a side are those better than rank `k`, those of rank `k`, and
/// those worse.
proof fn lemma_span_around(queues: Map<u64, VecDeque<Order>>, k: u64)
    ensures
        span(queues, 0, ranks()) == span(queues, 0, k as int) + queue_at(queues, k as int) + span(
            queues,
            k + 1,
            ranks(),
        ),
{
    lemma_span_split(queues, 0, k as int, ranks());
    assert(span(queues, k as int, ranks()) == queue_at(queues, k as int) + span(
        queues,
        k + 1,
        ranks(),
    ));
    assert(span(queues, 0, ranks()) =~= span(queues, 0, k as int) + queue_at(queues, k as int)
        + span(queues, k + 1, ranks()));
}

/// Replacing the queue of rank `k` leaves the orders of the other ranks alone.
proof fn lemma_span_replace(
    a: Map<u64, VecDeque<Order>>,
    b: Map<u64, VecDeque<Order>>,
    k: u64,
)
    requires
        forall|j: u64|
            j != k ==> (#[trigger] a.contains_key(j) <==> b.contains_key(j)) && (a.contains_key(j)
                ==> a[j] == b[j]),
    ensures
        span(a, 0, k as int) == span(b, 0, k as int),
        span(a, k + 1, ranks()) == span(b, k + 1, ranks()),
{
    assert forall|j: int| 0 <= j < k implies #[trigger] queue_at(a, j) == queue_at(b, j) by {
        assert(a.contains_key(j as u64) <==> b.contains_key(j as u64));
    }
    assert forall|j: int| k + 1 <= j < ranks() implies #[trigger] queue_at(a, j) == queue_at(
        b,
        j,
    ) by {
        assert(a.contains_key(j as u64) <==> b.contains_key(j as u64));
    }
    lemma_span_same(a, b, 0, k as int);
    lemma_span_same(a, b, k + 1, ranks());
}

/// The orders of a span have the ranks of the span and are in priority order.
proof fn lemma_span_ok(side: Side, queues: Map<u64, VecDeque<Order>>, lo: int, hi: int)
    requires
        queues_ok(side, queues),
        0 <= lo,
        hi <= ranks(),
    ensures
        ({
            let orders = span(queues, lo, hi);
            &&& forall|i: int|
                0 <= i < orders.len() ==> {
                    &&& (#[trigger] orders[i]).side == side
                    &&& lo <= rank(side, orders[i].price) < hi
                    &&& orders[i].qty > 0
                }
            &&& forall|i: int, j: int|
                0 <= i < j < orders.len() ==> rank(side, (#[trigger] orders[i]).price) <= rank(
                    side,
                    (#[trigger] orders[j]).price,
                )
        }),
    decreases hi - lo,
{
    if lo < hi {
        lemma_span_ok(side, queues, lo + 1, hi);
        let head = queue_at(queues, lo);
        let tail = span(queues, lo + 1, hi);
        let orders = span(queues, lo, hi);
        if queues.contains_key(lo as u64) {
            assert(queue_ok(side, lo as u64, head));
        }
        assert(forall|i: int| 0 <= i < head.len() ==> orders[i] == head[i]);
        assert(forall|i: int|
            head.len() <= i < orders.len() ==> orders[i] == tail[i - head.len()]);
    }
}

/// The depth at a price is what the queue at its rank holds.
proof fn lemma_span_depth(side: Side, queues: Map<u64, VecDeque<Order>>, price: u64)
    requires
        queues_ok(side, queues),
    ensures
        depth_at(span(queues, 0, ranks()), price) == total(
            queue_at(queues, rank(side, price) as int),
        ),
{
    let k = rank(side, price);
    let below = span(queues, 0, k as int);
    let at = queue_at(queues, k as int);
    let above = span(queues, k + 1, ranks());
    lemma_span_around(queues, k);
    lemma_span_ok(side, queues, 0, k as int);
    lemma_span_ok(side, queues, k + 1, ranks());
    lemma_depth_concat(below + at, above, price);
    lemma_depth_concat(below, at, price);
    assert forall|i: int| 0 <= i < below.len() implies (#[trigger] below[i]).price != price by {}
    assert forall|i: int| 0 <= i < above.len() implies (#[trigger] above[i]).price != price by {}
    lemma_depth_absent(below, price);
    lemma_depth_absent(above, price);
    if queues.contains_key(k) {
        assert(queue_ok(side, k, at));
    }
    assert forall|i: int| 0 <= i < at.len() implies (#[trigger] at[i]).price == price by {}
    lemma_depth_single_price(at, price);
}

/// An order that joins the queue at its rank joins the side behind all orders
/// whose price is at least as good.
proof fn lemma_join(
    side: Side,
    was: Map<u64, VecDeque<Order>>,
    now: Map<u64, VecDeque<Order>>,
    k: u64,
    order: Order,
)
    requires
        queues_ok(side, was),
        order.side == side,
        rank(side, order.price) == k,
        order.qty > 0,
        total(queue_at(was, k as int).push(order)) <= u64::MAX,
        now.contains_key(k),
        now[k]@ == queue_at(was, k as int).push(order),
        now == was.insert(k, now[k]),
    ensures
        queues_ok(side, now),
        span(now, 0, ranks()) == enqueue(span(was, 0, ranks()), order),
{
    let front = span(was, 0, k as int);
    let queue = queue_at(was, k as int);
    let back = span(was, k + 1, ranks());
    if was.contains_key(k) {
        assert(queue_ok(side, k, queue));
    }
    assert forall|j: u64| #[trigger] now.contains_key(j) implies queue_ok(side, j, now[j]@) by {
        if j != k {
            assert(was.contains_key(j));
        }
    }
    lemma_span_around(was, k);
    lemma_span_around(now, k);
    lemma_span_replace(now, was, k);
    lemma_span_ok(side, was, 0, k as int);
    lemma_span_ok(side, was, k + 1, ranks());
    lemma_reach(front + queue, back, side, order.price);
    assert(span(now, 0, ranks()) =~= (front + queue + back).insert(
        (front + queue).len() as int,
        order,
    ));
}

/// Whether `entries` are those of `queues`, in ascending order of rank.
spec fn lists(
    queues: Map<u64, VecDeque<Order>>,
    entries: Seq<(&u64, &VecDeque<Order>)>,
) -> bool {
    &&& forall|i: int|
        0 <= i < entries.len() ==> {
            &&& queues.contains_key(*(#[trigger] entries[i]).0)
            &&& queues[*entries[i].0] == *entries[i].1
        }
    &&& forall|k: u64| #[trigger]
        queues.contains_key(k) ==> exists|i: int|
            0 <= i < entries.len() && *(#[trigger] entries[i]).0 == k
    &&& forall|i: int, j: int|
        0 <= i < j < entries.len() ==> *(#[trigger] entries[i]).0 < *(#[trigger] entries[j]).0
}

/// What iterating over a map of queues gives.
proof fn lemma_entries(
    queues: Map<u64, VecDeque<Order>>,
    entries: Seq<(&u64, &VecDeque<Order>)>,
)
    requires
        increasing_seq(entries.map_values(|e: (&u64, &VecDeque<Order>)| *e.0)),
        forall|i: int|
            0 <= i < entries.len() ==> {
                &&& queues.contains_key(*(#[trigger] entries[i]).0)
                &&& queues[*entries[i].0] == *entries[i].1
            },
        forall|k: u64| #[trigger] queues.contains_key(k) ==> entries.contains((&k, &queues[k])),
    ensures
        lists(queues, entries),
{
    broadcast use vstd::laws_cmp::group_laws_cmp;

    let keys = entries.map_values(|e: (&u64, &VecDeque<Order>)| *e.0);
    assert forall|i: int, j: int| 0 <= i < j < entries.len() implies *(#[trigger] entries[i]).0
        < *(#[trigger] entries[j]).0 by {
        assert(keys[i].cmp_spec(&keys[j]) is Less);
    }
    assert forall|k: u64| #[trigger] queues.contains_key(k) implies exists|i: int|
        0 <= i < entries.len() && *(#[trigger] entries[i]).0 == k by {
        let i = choose|i: int| 0 <= i < entries.len() && entries[i] == (&k, &queues[k]);
        assert(*entries[i].0 == k);
    }
}

/// No entry lies between two neighbours.
proof fn lemma_gap(
    queues: Map<u64, VecDeque<Order>>,
    entries: Seq<(&u64, &VecDeque<Order>)>,
    n: int,
)
    requires
        lists(queues, entries),
        0 <= n <= entries.len(),
    ensures
        ({
            let lo = if n == 0 {
                0
            } else {
                *entries[n - 1].0 + 1
            };
            let hi = if n == entries.len() {
                ranks()
            } else {
                *entries[n].0 as int
            };
            &&& lo <= hi
            &&& forall|j: u64| #[trigger] queues.contains_key(j) ==> !(lo <= j < hi)
        }),
{
    assert forall|j: u64| #[trigger] queues.contains_key(j) implies (n > 0 && j
        <= *entries[n - 1].0) || (n < entries.len() && j >= *entries[n].0) by {
        let i = choose|i: int| 0 <= i < entries.len() && *(#[trigger] entries[i]).0 == j;
        if i < n {
            assert(i == n - 1 || *entries[i].0 < *entries[n - 1].0);
        } else {
            assert(i == n || *entries[n].0 < *entries[i].0);
        }
    }
    if 0 < n < entries.len() {
        assert(*entries[n - 1].0 < *entries[n].0);
    }
}

/// The level that an entry of the map makes.
spec fn entry_level(side: Side, entry: (&u64, &VecDeque<Order>)) -> Level {
    Level { price: rank(side, *entry.0), qty: total(entry.1@) as u64 }
}

/// The prices of the first `n` entries are the runs of the orders up to there.
proof fn lemma_entry_prices(
    side: Side,
    queues: Map<u64, VecDeque<Order>>,
    entries: Seq<(&u64, &VecDeque<Order>)>,
    n: int,
)
    requires
        queues_ok(side, queues),
        lists(queues, entries),
        0 <= n <= entries.len(),
    ensures
        ({
            let hi = if n == 0 {
                0
            } else {
                *entries[n - 1].0 + 1
            };
            runs(order_prices(span(queues, 0, hi))) == Seq::new(
                n as nat,
                |i: int| rank(side, *entries[i].0),
            )
        }),
    decreases n,
{
    if n == 0 {
        lemma_span_empty(queues, 0, 0);
        assert(order_prices(span(queues, 0, 0)) =~= Seq::<u64>::empty());
        assert(runs(order_prices(span(queues, 0, 0))) =~= Seq::new(
            0,
            |i: int| rank(side, *entries[i].0),
        ));
    } else {
        lemma_entry_prices(side, queues, entries, n - 1);
        let k = *entries[n - 1].0;
        let hi = if n == 1 {
            0
        } else {
            *entries[n - 2].0 + 1
        };
        let front = span(queues, 0, hi);
        let back = queues[k]@;
        lemma_gap(queues, entries, n - 1);
        lemma_span_split(queues, 0, hi, k + 1);
        lemma_span_split(queues, hi, k as int, k + 1);
        lemma_span_empty(queues, hi, k as int);
        assert(span(queues, k as int, k + 1) =~= back + span(queues, k + 1, k + 1));
        assert(span(queues, 0, k + 1) =~= front + back);
        assert(queue_ok(side, k, back));
        lemma_span_ok(side, queues, 0, hi);
        let price = rank(side, k);
        assert(order_prices(front + back) =~= order_prices(front) + order_prices(back));
        lemma_runs_extend(order_prices(front), order_prices(back), price);
        assert(runs(order_prices(span(queues, 0, k + 1))) =~= Seq::new(
            n as nat,
            |i: int| rank(side, *entries[i].0),
        ));
    }
}

/// The levels of a side are those of the entries of its map.
proof fn lemma_levels(
    side: Side,
    queues: Map<u64, VecDeque<Order>>,
    entries: Seq<(&u64, &VecDeque<Order>)>,
)
    requires
        queues_ok(side, queues),
        lists(queues, entries),
    ensures
        levels(span(queues, 0, ranks())).len() == entries.len(),
        forall|i: int|
            0 <= i < entries.len() ==> #[trigger] levels(span(queues, 0, ranks()))[i]
                == entry_level(side, entries[i]),
{
    let n = entries.len() as int;
    let orders = span(queues, 0, ranks());
    let hi = if n == 0 {
        0
    } else {
        *entries[n - 1].0 + 1
    };
    lemma_entry_prices(side, queues, entries, n);
    lemma_gap(queues, entries, n);
    lemma_span_split(queues, 0, hi, ranks());
    lemma_span_empty(queues, hi, ranks());
    assert(orders =~= span(queues, 0, hi));
    assert forall|i: int| 0 <= i < entries.len() implies #[trigger] levels(orders)[i]
        == entry_level(side, entries[i]) by {
        let price = rank(side, *entries[i].0);
        assert(runs(order_prices(orders))[i] == price);
        lemma_span_depth(side, queues, price);
        assert(rank(side, price) == *entries[i].0);
    }
}

/// Trades `taker`, of which `rest` is left, against `queue`, whose prices it
/// accepts, and adds the fills to `traded`. Gives what is left of `rest`.
fn fill_queue(
    queue: &mut VecDeque<Order>,
    taker: &Order,
    rest: u64,
    traded: &mut Vec<Fill>,
) -> (left: u64)
    requires
        forall|i: int|
            0 <= i < old(queue)@.len() ==> crosses(*taker, (#[trigger] old(queue)@[i]).price),
    ensures
        final(queue)@ == after(old(queue)@, (Order { qty: rest, ..*taker })),
        final(traded)@ == old(traded)@ + fills(old(queue)@, (Order { qty: rest, ..*taker })),
        left == unfilled(old(queue)@, (Order { qty: rest, ..*taker })),
{
    let ghost start = Order { qty: rest, ..*taker };
    let ghost makers = queue@;
    let ghost before = traded@;
    let mut rest: u64 = rest;
    while rest > 0 && queue.len() > 0
        invariant
            forall|i: int|
                0 <= i < queue@.len() ==> crosses(*taker, (#[trigger] queue@[i]).price),
            traded@ + fills(queue@, (Order { qty: rest, ..*taker })) == before + fills(
                makers,
                start,
            ),
            after(queue@, (Order { qty: rest, ..*taker })) == after(makers, start),
            unfilled(queue@, (Order { qty: rest, ..*taker })) == unfilled(makers, start),
        ensures
            rest == 0 || queue@.len() == 0,
        decreases queue@.len() + rest,
    {
        let ghost queue_was = queue@;
        let ghost traded_was = traded@;
        let ghost left_was = Order { qty: rest, ..*taker };
        let maker = match queue.pop_front() {
            Some(maker) => maker,
            None => {
                break;
            },
        };
        let qty: u64 = if maker.qty <= rest {
            maker.qty
        } else {
            rest
        };
        traded.push(
            Fill {
                maker_order_id: maker.id,
                taker_order_id: taker.id,
                price: maker.price,
                qty,
            },
        );
        if maker.qty > qty {
            queue.push_front(
                Order { id: maker.id, side: maker.side, price: maker.price, qty: maker.qty - qty },
            );
        }
        rest = rest - qty;
        proof {
            assert(trades(queue_was, left_was));
            assert(queue_was.drop_first() =~= queue_was.subrange(1, queue_was.len() as int));
            assert(traded_was + fills(queue_was, left_was) =~= traded@ + fills(
                queue_was.drop_first(),
                (Order { qty: rest, ..*taker }),
            ));
            assert(reduce(left_was, qty as int) == (Order { qty: rest, ..*taker }));
            assert(unfilled(queue_was, left_was) == unfilled(
                queue_was.drop_first(),
                (Order { qty: rest, ..*taker }),
            ));
            if maker.qty > qty {
                assert(queue@ =~= queue_was.update(0, reduce(maker, qty as int)));
            }
        }
    }
    proof {
        assert(fills(queue@, (Order { qty: rest, ..*taker })) =~= Seq::<Fill>::empty());
        assert(traded@ =~= before + fills(makers, start));
    }
    rest
}

/// What it means for the side that a taker clears the best level, `front`, of
/// it as far as it can; `back` is the rest of the side.
proof fn lemma_level(
    side: Side,
    front: Seq<Order>,
    back: Seq<Order>,
    taker: Order,
    price: u64,
    traded: Seq<Fill>,
)
    requires
        trades(front, taker),
        front[0].qty > 0,
        forall|i: int| 0 <= i < front.len() ==> (#[trigger] front[i]).price == price,
        forall|i: int| 0 <= i < front.len() ==> (#[trigger] front[i]).qty > 0,
        forall|i: int| 0 <= i < back.len() ==> (#[trigger] back[i]).price != price,
        traded.len() > 0 ==> traded.last().price != price,
    ensures
        ({
            let now = Order { qty: unfilled(front, taker), ..taker };
            let fresh = fills(front, taker);
            let queue = after(front, taker);
            let left = after(front + back, taker);
            &&& now.qty < taker.qty
            &&& queue.len() > 0 ==> now.qty == 0
            &&& fills(front + back, taker) == fresh + fills(queue + back, now)
            &&& after(queue + back, now) == left
            &&& unfilled(queue + back, now) == unfilled(front + back, taker)
            &&& traded_updates(side, traded + fresh, left) == traded_updates(
                side,
                traded,
                left,
            ).push(LevelUpdate { side, price, qty: total(queue) as u64 })
        }),
{
    let now = Order { qty: unfilled(front, taker), ..taker };
    let fresh = fills(front, taker);
    let queue = after(front, taker);
    let left = after(front + back, taker);
    lemma_concat(front, back, taker);
    lemma_unfilled_bound(front.drop_first(), reduce(taker, trade_qty(front[0], taker) as int));
    lemma_after_suffix(front, taker);
    if queue.len() == 0 {
        assert(queue + back =~= back);
        assert(left =~= after(back, now));
    } else {
        assert(fills(back, now) =~= fills(queue + back, now));
    }
    lemma_depth_absent(back, price);
    lemma_after_depth(back, now, price);
    lemma_depth_concat(queue, after(back, now), price);
    lemma_depth_single_price(queue, price);
    assert(total(queue) == depth_at(left, price));
    lemma_fills_single_price(front, taker, price);
    assert(fill_prices(traded + fresh) =~= fill_prices(traded) + fill_prices(fresh));
    lemma_runs_extend(fill_prices(traded), fill_prices(fresh), price);
    assert(traded_updates(side, traded + fresh, left) =~= traded_updates(side, traded, left).push(
        LevelUpdate { side, price, qty: total(queue) as u64 },
    ));
}

/// The quantity of `queue` in all.
fn queue_total(queue: &VecDeque<Order>) -> (sum: u64)
    requires
        total(queue@) <= u64::MAX,
    ensures
        sum == total(queue@),
{
    let mut sum: u64 = 0;
    let mut i: usize = 0;
    assert(queue@.take(0) =~= Seq::<Order>::empty());
    while i < queue.len()
        invariant
            i <= queue@.len(),
            sum == total(queue@.take(i as int)),
            total(queue@) <= u64::MAX,
        decreases queue@.len() - i,
    {
        proof {
            let upto = queue@.take(i + 1);
            assert(upto.drop_last() =~= queue@.take(i as int));
            assert(queue@ =~= upto + queue@.skip(i + 1));
            lemma_total_concat(upto, queue@.skip(i + 1));
        }
        sum = sum + queue[i].qty;
        i = i + 1;
    }
    assert(queue@.take(i as int) =~= queue@);
    sum
}

impl Ladder {
    /// The resting orders in priority order.
    pub closed spec fn view(&self) -> Seq<Order> {
        span(self.queues@, 0, ranks())
    }

    /// The side of the book that this is.
    pub closed spec fn on(&self) -> Side {
        self.side
    }

    /// What holds of every ladder.
    pub closed spec fn inv(&self) -> bool {
        queues_ok(self.side, self.queues@)
    }

    /// Every ladder is a well-formed side.
    pub proof fn lemma_inv(&self)
        requires
            self.inv(),
        ensures
            side_wf(self.on(), self@),
    {
        lemma_span_ok(self.side, self.queues@, 0, ranks());
        assert forall|p: u64| #[trigger] depth_at(self@, p) <= u64::MAX by {
            lemma_span_depth(self.side, self.queues@, p);
            let k = rank(self.side, p);
            if self.queues@.contains_key(k) {
                assert(queue_ok(self.side, k, self.queues@[k]@));
            }
        }
    }

    /// A side on which nothing rests.
    pub fn new(side: Side) -> (ladder: Ladder)
        ensures
            ladder.inv(),
            ladder.on() == side,
            ladder@ == Seq::<Order>::empty(),
    {
        let ladder = Ladder { side, queues: BTreeMap::new() };
        proof {
            lemma_span_empty(ladder.queues@, 0, ranks());
        }
        ladder
    }

    /// The rank of the best level.
    fn best(&self) -> (best: Option<u64>)
        ensures
            match best {
                Some(k) => {
                    &&& self.queues@.contains_key(k)
                    &&& forall|j: u64| #[trigger] self.queues@.contains_key(j) ==> k <= j
                },
                None => forall|j: u64| !#[trigger] self.queues@.contains_key(j),
            },
    {
        let entries = self.queues.iter();
        proof {
            lemma_entries(self.queues@, entries.remaining());
        }
        for entry in it: entries
            invariant
                it.index() == 0,
                lists(self.queues@, it.seq()),
        {
            proof {
                assert forall|j: u64| #[trigger] self.queues@.contains_key(j) implies *entry.0
                    <= j by {
                    let i = choose|i: int|
                        0 <= i < it.seq().len() && *(#[trigger] it.seq()[i]).0 == j;
                }
            }
            return Some(*entry.0);
        }
        None
    }

    /// The price that has rank `k`.
    fn price_of(&self, k: u64) -> (price: u64)
        ensures
            rank(self.on(), price) == k,
    {
        match self.side {
            Side::Buy => u64::MAX - k,
            Side::Sell => k,
        }
    }

    /// Trades `taker` against this side, best price first and first come first
    /// served within a price. Gives the fills, an update for each price that
    /// traded, and the quantity that found no match.
    pub fn sweep(&mut self, taker: &Order) -> (swept: (Vec<Fill>, Vec<LevelUpdate>, u64))
        requires
            old(self).inv(),
            old(self).on() == opposite(taker.side),
        ensures
            final(self).inv(),
            final(self).on() == old(self).on(),
            final(self)@ == after(old(self)@, *taker),
            swept.0@ == fills(old(self)@, *taker),
            swept.1@ == traded_updates(old(self).on(), swept.0@, final(self)@),
            swept.2 == unfilled(old(self)@, *taker),
    {
        let ghost makers = self@;
        let ghost left = after(makers, *taker);
        let ghost side = self.side;
        let mut traded: Vec<Fill> = Vec::new();
        let mut updates: Vec<LevelUpdate> = Vec::new();
        let mut rest: u64 = taker.qty;
        proof {
            assert(traded@ + fills(makers, *taker) =~= fills(makers, *taker));
            assert(updates@ =~= traded_updates(side, traded@, left));
        }
        while rest > 0
            invariant
                self.inv(),
                self.side == side,
                side == opposite(taker.side),
                left == after(makers, *taker),
                traded@ + fills(self@, (Order { qty: rest, ..*taker })) == fills(makers, *taker),
                after(self@, (Order { qty: rest, ..*taker })) == left,
                unfilled(self@, (Order { qty: rest, ..*taker })) == unfilled(makers, *taker),
                updates@ == traded_updates(side, traded@, left),
                rest > 0 ==> forall|i: int, j: int|
                    0 <= i < traded@.len() && 0 <= j < self@.len() ==> rank(
                        side,
                        (#[trigger] traded@[i]).price,
                    ) < rank(side, (#[trigger] self@[j]).price),
            ensures
                !trades(self@, (Order { qty: rest, ..*taker })),
            decreases self@.len() + rest,
        {
            let k = match self.best() {
                Some(k) => k,
                None => {
                    proof {
                        lemma_span_empty(self.queues@, 0, ranks());
                    }
                    break;
                },
            };
            let price = self.price_of(k);
            let within = match taker.side {
                Side::Buy => price <= taker.price,
                Side::Sell => price >= taker.price,
            };
            let ghost was = self.queues@;
            proof {
                lemma_span_around(was, k);
                lemma_span_empty(was, 0, k as int);
                assert(queue_ok(side, k, was[k]@));
                assert(self@ =~= was[k]@ + span(was, k + 1, ranks()));
                assert(self@[0] == was[k]@[0]);
            }
            if !within {
                break;
            }
            let mut queue = match self.queues.remove(&k) {
                Some(queue) => queue,
                None => {
                    break;
                },
            };
            let ghost front = queue@;
            let ghost back = self@;
            let ghost traded_was = traded@;
            let ghost taker_was = Order { qty: rest, ..*taker };
            proof {
                lemma_span_around(self.queues@, k);
                lemma_span_replace(self.queues@, was, k);
                assert(back =~= span(was, k + 1, ranks()));
                lemma_span_ok(side, was, k + 1, ranks());
                assert(was[k]@ + span(was, k + 1, ranks()) == front + back);
                if traded_was.len() > 0 {
                    assert(rank(side, traded_was.last().price) < rank(side, front[0].price));
                }
                lemma_level(side, front, back, taker_was, price, traded_was);
                lemma_after_suffix(front, taker_was);
                lemma_after_depth(front, taker_was, price);
            }
            rest = fill_queue(&mut queue, taker, rest, &mut traded);
            let level_qty: u64 = queue_total(&queue);
            let ghost new_queue = queue@;
            if queue.len() > 0 {
                self.queues.insert(k, queue);
            }
            updates.push(LevelUpdate { side: self.side, price, qty: level_qty });
            proof {
                lemma_span_around(self.queues@, k);
                lemma_span_replace(self.queues@, was, k);
                assert(self@ =~= new_queue + back);
                assert(traded_was + fills(front + back, taker_was) =~= traded@ + fills(
                    self@,
                    (Order { qty: rest, ..*taker }),
                ));
                lemma_fills_single_price(front, taker_was, price);
                if rest > 0 {
                    assert(self@ =~= back);
                    assert forall|i: int, j: int|
                        0 <= i < traded@.len() && 0 <= j < self@.len() implies rank(
                        side,
                        (#[trigger] traded@[i]).price,
                    ) < rank(side, (#[trigger] self@[j]).price) by {
                        let first = front[0];
                        assert(first == (front + back)[0]);
                        if i < traded_was.len() {
                            assert(traded@[i] == traded_was[i]);
                        } else {
                            assert(traded@[i] == fills(front, taker_was)[i - traded_was.len()]);
                        }
                    }
                }
            }
        }
        (traded, updates, rest)
    }

    /// Lets `order` rest behind all orders at its price. Gives the quantity
    /// that then rests there.
    pub fn rest(&mut self, order: Order) -> (level_qty: u64)
        requires
            old(self).inv(),
            old(self).on() == order.side,
            order.qty > 0,
            depth_at(old(self)@, order.price) + order.qty <= u64::MAX,
        ensures
            final(self).inv(),
            final(self).on() == old(self).on(),
            final(self)@ == enqueue(old(self)@, order),
            level_qty == depth_at(final(self)@, order.price),
    {
        let k: u64 = match self.side {
            Side::Buy => u64::MAX - order.price,
            Side::Sell => order.price,
        };
        let ghost was = self.queues@;
        let mut queue = match self.queues.remove(&k) {
            Some(queue) => queue,
            None => VecDeque::new(),
        };
        proof {
            assert(queue@ =~= queue_at(was, k as int));
            lemma_span_depth(self.side, was, order.price);
            lemma_total_concat(queue@, seq![order]);
            lemma_depth_one(order, order.price);
            assert(queue@.push(order) =~= queue@ + seq![order]);
        }
        queue.push_back(order);
        let level_qty: u64 = queue_total(&queue);
        self.queues.insert(k, queue);
        proof {
            assert(self.queues@ =~= was.insert(k, self.queues@[k]));
            lemma_join(self.side, was, self.queues@, k, order);
            lemma_span_depth(self.side, self.queues@, order.price);
        }
        level_qty
    }

    /// The best `depth` levels, best first.
    pub fn top(&self, depth: usize) -> (best: Vec<Level>)
        requires
            self.inv(),
        ensures
            best@ == top(levels(self@), depth as int),
    {
        let mut best: Vec<Level> = Vec::new();
        let entries = self.queues.iter();
        proof {
            lemma_entries(self.queues@, entries.remaining());
            lemma_levels(self.side, self.queues@, entries.remaining());
        }
        for entry in it: entries
            invariant
                self.inv(),
                lists(self.queues@, it.seq()),
                levels(self@).len() == it.seq().len(),
                forall|i: int|
                    0 <= i < it.seq().len() ==> #[trigger] levels(self@)[i] == entry_level(
                        self.side,
                        it.seq()[i],
                    ),
                best@.len() == it.index(),
                best@.len() <= depth,
                forall|i: int| 0 <= i < best@.len() ==> #[trigger] best@[i] == levels(self@)[i],
        {
            if best.len() >= depth {
                assert(best@ =~= top(levels(self@), depth as int));
                return best;
            }
            assert(queue_ok(self.side, *entry.0, entry.1@));
            best.push(Level { price: self.price_of(*entry.0), qty: queue_total(entry.1) });
        }
        assert(best@ =~= top(levels(self@), depth as int));
        best
    }

    /// The quantity of `taker` that would find no match on this side.
    pub fn unmatched(&self, taker: &Order) -> (left: u64)
        requires
            self.inv(),
            self.on() == opposite(taker.side),
        ensures
            left == unfilled(self@, *taker),
    {
        let mut left: u64 = taker.qty;
        let mut upto: Ghost<int> = Ghost(0);
        let entries = self.queues.iter();
        proof {
            lemma_entries(self.queues@, entries.remaining());
            lemma_gap(self.queues@, entries.remaining(), 0);
            lemma_rest_empty(self.queues@, 0);
            lemma_span_empty(self.queues@, 0, 0);
        }
        for entry in it: entries
            invariant
                self.inv(),
                self.side == opposite(taker.side),
                lists(self.queues@, it.seq()),
                0 <= upto@ <= ranks(),
                upto@ == if it.index() == 0 {
                    0
                } else {
                    *it.seq()[it.index() - 1].0 + 1
                },
                forall|i: int|
                    0 <= i < span(self.queues@, 0, upto@).len() ==> crosses(
                        *taker,
                        (#[trigger] span(self.queues@, 0, upto@)[i]).price,
                    ),
                left == unfilled(span(self.queues@, 0, upto@), *taker),
                it.index() == it.seq().len() ==> span(self.queues@, 0, upto@) == self@,
        {
            let ghost k = *entry.0;
            let ghost front = span(self.queues@, 0, upto@);
            let ghost back = span(self.queues@, k as int, ranks());
            let ghost taker_now = Order { qty: left, ..*taker };
            proof {
                lemma_gap(self.queues@, it.seq(), it.index());
                lemma_span_empty(self.queues@, upto@, k as int);
                lemma_span_split(self.queues@, 0, upto@, ranks());
                lemma_span_split(self.queues@, upto@, k as int, ranks());
                assert(self@ =~= front + back);
                lemma_concat(front, back, *taker);
                assert(queue_ok(self.side, k, entry.1@));
                assert(back[0] == entry.1@[0]);
            }
            let price = self.price_of(*entry.0);
            let within = match taker.side {
                Side::Buy => price <= taker.price,
                Side::Sell => price >= taker.price,
            };
            if left == 0 || !within {
                assert(!trades(back, taker_now));
                return left;
            }
            let level_qty: u64 = queue_total(entry.1);
            proof {
                let queue = entry.1@;
                let behind = span(self.queues@, k + 1, ranks());
                assert(back =~= queue + behind);
                lemma_unfilled_all_cross(queue, taker_now);
                lemma_concat(queue, behind, taker_now);
                lemma_concat(front, queue, *taker);
                lemma_span_split(self.queues@, 0, upto@, k + 1);
                lemma_span_split(self.queues@, upto@, k as int, k + 1);
                assert(span(self.queues@, k as int, k + 1) =~= queue + span(
                    self.queues@,
                    k + 1,
                    k + 1,
                ));
                assert(span(self.queues@, 0, k + 1) =~= front + queue);
            }
            left = if level_qty >= left {
                0
            } else {
                left - level_qty
            };
            proof {
                upto@ = k + 1;
                lemma_gap(self.queues@, it.seq(), it.index() + 1);
                lemma_rest_empty(self.queues@, upto@);
            }
        }
        left
    }

    /// The quantity that rests at `price`.
    pub fn depth(&self, price: u64) -> (qty: u64)
        requires
            self.inv(),
        ensures
            qty == depth_at(self@, price),
    {
        let k: u64 = match self.side {
            Side::Buy => u64::MAX - price,
            Side::Sell => price,
        };
        proof {
            lemma_span_depth(self.side, self.queues@, price);
        }
        match self.queues.get(&k) {
            Some(queue) => {
                assert(queue_ok(self.side, k, queue@));
                queue_total(queue)
            },
            None => 0,
        }
    }
}

} // verus!
