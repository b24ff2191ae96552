//! How a replica of the order book keeps in step with the book.
use crate::laws::{lemma_after_untouched, lemma_priority, lemma_runs_contain};
use crate::lemmas::{
    lemma_after_depth, lemma_after_suffix, lemma_after_wf, lemma_depth_absent, lemma_depth_present,
    lemma_enqueue_depth, lemma_enqueue_wf,
};
use crate::local_book::{
    first_worse, position, side_of, updated, LocalBook, ReplicaView, REPLICA_DEPTH,
};
use crate::model::{
    after, at_least_as_good, depth_at, enqueue, fill_prices, fills, level_at, levels, opposite,
    order_prices, reduce, runs, side_wf, top, trade_qty, traded_updates, trades, unfilled,
    update_at, BookView,
};
use crate::types::{Fill, Level, LevelUpdate, Order, OrderbookSnapshot, Side};
use vstd::prelude::*;

verus! {

/// Whether the prices of `levels` get strictly worse.
pub open spec fn strict(side: Side, levels: Seq<Level>) -> bool {
    forall|i: int, j: int|
        0 <= i < j < levels.len() ==> {
            &&& at_least_as_good(side, (#[trigger] levels[i]).price, (#[trigger] levels[j]).price)
            &&& levels[i].price != levels[j].price
        }
}

/// Whether `levels` are those of a side on which `depth(p)` rests at each price
/// `p`.
spec fn is_levels(levels: Seq<Level>, side: Side, depth: spec_fn(u64) -> nat) -> bool {
    &&& strict(side, levels)
    &&& forall|i: int|
        0 <= i < levels.len() ==> (#[trigger] levels[i]).qty > 0 && levels[i].qty == depth(
            levels[i].price,
        )
    &&& forall|p: u64| #[trigger]
        depth(p) > 0 ==> exists|i: int| 0 <= i < levels.len() && (#[trigger] levels[i]).price == p
}

/// A side has one sequence of levels.
proof fn lemma_levels_unique(a: Seq<Level>, b: Seq<Level>, side: Side, depth: spec_fn(u64) -> nat)
    requires
        is_levels(a, side, depth),
        is_levels(b, side, depth),
    ensures
        a == b,
    decreases a.len(),
{
    if a.len() == 0 {
        if b.len() > 0 {
            assert(depth(b[0].price) > 0);
        }
        assert(a =~= b);
    } else {
        assert(depth(a[0].price) > 0);
        let j = choose|j: int| 0 <= j < b.len() && (#[trigger] b[j]).price == a[0].price;
        assert(depth(b[0].price) > 0);
        let i = choose|i: int| 0 <= i < a.len() && (#[trigger] a[i]).price == b[0].price;
        assert(a[0] == b[0]);
        let first = a[0].price;
        let fewer = |p: u64|
            if p == first {
                0
            } else {
                depth(p)
            };
        assert forall|s: Seq<Level>|
            is_levels(s, side, depth) && s.len() > 0 && s[0].price == first implies is_levels(
            #[trigger] s.drop_first(),
            side,
            fewer,
        ) by {
            let t = s.drop_first();
            assert forall|p: u64| #[trigger] fewer(p) > 0 implies exists|i: int|
                0 <= i < t.len() && (#[trigger] t[i]).price == p by {
                assert(depth(p) > 0);
                let i = choose|i: int| 0 <= i < s.len() && (#[trigger] s[i]).price == p;
                assert(t[i - 1].price == p);
            }
        }
        assert(is_levels(a.drop_first(), side, fewer));
        assert(is_levels(b.drop_first(), side, fewer));
        lemma_levels_unique(a.drop_first(), b.drop_first(), side, fewer);
        assert(a =~= seq![a[0]] + a.drop_first());
        assert(b =~= seq![b[0]] + b.drop_first());
    }
}

/// The runs of prices that do not get better get strictly worse.
pub proof fn lemma_runs_strict(side: Side, prices: Seq<u64>)
    requires
        forall|i: int, j: int|
            0 <= i < j < prices.len() ==> at_least_as_good(
                side,
                #[trigger] prices[i],
                #[trigger] prices[j],
            ),
    ensures
        runs(prices).len() <= prices.len(),
        prices.len() > 0 ==> runs(prices).len() > 0 && runs(prices).last() == prices.last(),
        forall|i: int, j: int|
            0 <= i < j < runs(prices).len() ==> at_least_as_good(
                side,
                #[trigger] runs(prices)[i],
                #[trigger] runs(prices)[j],
            ) && runs(prices)[i] != runs(prices)[j],
    decreases prices.len(),
{
    if prices.len() > 0 {
        let fewer = prices.drop_last();
        lemma_runs_strict(side, fewer);
        if prices.len() > 1 && prices[prices.len() - 2] == prices.last() {
        } else if fewer.len() > 0 {
            let n = runs(fewer).len() as int;
            assert(at_least_as_good(side, prices[prices.len() - 2], prices[prices.len() - 1]));
            assert forall|i: int, j: int| 0 <= i < j < runs(prices).len() implies at_least_as_good(
                side,
                #[trigger] runs(prices)[i],
                #[trigger] runs(prices)[j],
            ) && runs(prices)[i] != runs(prices)[j] by {
                if j == n {
                    assert(runs(fewer).last() == fewer.last());
                    assert(runs(prices)[i] == runs(fewer)[i]);
                    if i < n - 1 {
                        assert(at_least_as_good(side, runs(fewer)[i], runs(fewer)[n - 1]));
                    }
                }
            }
        }
    }
}

/// The runs of the beginning are the beginning of the runs.
proof fn lemma_runs_prefix(prices: Seq<u64>, n: int)
    requires
        0 <= n <= prices.len(),
    ensures
        runs(prices.take(n)).len() <= runs(prices).len(),
        runs(prices.take(n)) == runs(prices).take(runs(prices.take(n)).len() as int),
    decreases prices.len() - n,
{
    if n == prices.len() {
        assert(prices.take(n) =~= prices);
        assert(runs(prices).take(runs(prices).len() as int) =~= runs(prices));
    } else {
        lemma_runs_prefix(prices, n + 1);
        let more = prices.take(n + 1);
        assert(more.drop_last() =~= prices.take(n));
        assert(runs(prices.take(n)) =~= runs(prices).take(runs(prices.take(n)).len() as int));
    }
}

/// The levels of a well-formed side are its levels in the sense above.
proof fn lemma_levels_of_side(side: Side, orders: Seq<Order>)
    requires
        side_wf(side, orders),
    ensures
        is_levels(levels(orders), side, |p: u64| depth_at(orders, p)),
{
    let prices = order_prices(orders);
    let all = levels(orders);
    assert forall|i: int, j: int| 0 <= i < j < prices.len() implies at_least_as_good(
        side,
        #[trigger] prices[i],
        #[trigger] prices[j],
    ) by {
        assert(at_least_as_good(side, orders[i].price, orders[j].price));
    }
    lemma_runs_strict(side, prices);
    assert forall|i: int, j: int| 0 <= i < j < all.len() implies {
        &&& at_least_as_good(side, (#[trigger] all[i]).price, (#[trigger] all[j]).price)
        &&& all[i].price != all[j].price
    } by {
        assert(all[i].price == runs(prices)[i]);
        assert(all[j].price == runs(prices)[j]);
    }
    assert forall|i: int| 0 <= i < all.len() implies (#[trigger] all[i]).qty > 0 && all[i].qty
        == depth_at(orders, all[i].price) by {
        let p = all[i].price;
        assert(runs(prices)[i] == p);
        lemma_runs_contain(prices, p);
        let k = choose|k: int| 0 <= k < prices.len() && prices[k] == p;
        lemma_depth_present(orders, k);
        assert(orders[k].qty > 0);
        assert(depth_at(orders, p) <= u64::MAX);
    }
    assert forall|p: u64| #[trigger] depth_at(orders, p) > 0 implies exists|i: int|
        0 <= i < all.len() && (#[trigger] all[i]).price == p by {
        if !prices.contains(p) {
            assert forall|i: int| 0 <= i < orders.len() implies (#[trigger] orders[i]).price
                != p by {
                assert(prices[i] == orders[i].price);
            }
            lemma_depth_absent(orders, p);
        }
        lemma_runs_contain(prices, p);
        let k = choose|k: int| 0 <= k < runs(prices).len() && runs(prices)[k] == p;
        assert(all[k].price == p);
    }
    let depth = |p: u64| depth_at(orders, p);
    assert forall|p: u64| #[trigger] depth(p) > 0 implies exists|i: int|
        0 <= i < all.len() && (#[trigger] all[i]).price == p by {
        assert(depth_at(orders, p) > 0);
    }
}

/// What a taker does to the levels of the side that it meets: of the `k` best,
/// at which it trades, the first `r` go, and the last one stays smaller where
/// `r` is not all of them. The levels behind stay as they are.
spec fn levels_cut(
    side: Side,
    before: Seq<Level>,
    updates: Seq<LevelUpdate>,
    left: Seq<Level>,
    r: int,
) -> bool {
    let k = updates.len() as int;
    &&& 0 <= r <= k <= before.len()
    &&& r >= k - 1
    &&& forall|i: int|
        0 <= i < k ==> (#[trigger] updates[i]).price == before[i].price && updates[i].side == side
    &&& forall|i: int| 0 <= i < r ==> (#[trigger] updates[i]).qty == 0
    &&& r < k ==> updates[r].qty > 0
    &&& left == if r < k {
        before.skip(r).update(0, Level { price: before[r].price, qty: updates[r].qty })
    } else {
        before.skip(r)
    }
}

proof fn lemma_makers_levels(side: Side, makers: Seq<Order>, taker: Order) -> (r: int)
    requires
        side_wf(side, makers),
        side == opposite(taker.side),
    ensures
        levels_cut(
            side,
            levels(makers),
            traded_updates(side, fills(makers, taker), after(makers, taker)),
            levels(after(makers, taker)),
            r,
        ),
{
    let before = levels(makers);
    let left = after(makers, taker);
    let all = fills(makers, taker);
    let prices = order_prices(makers);
    let touched = runs(fill_prices(all));
    let k = touched.len() as int;
    let updates = traded_updates(side, all, left);
    lemma_after_wf(side, makers, taker);
    lemma_levels_of_side(side, makers);
    lemma_levels_of_side(side, left);
    // The trades are with the first makers, so they touch the first levels.
    lemma_priority(makers, taker);
    assert(fill_prices(all) =~= prices.take(all.len() as int));
    lemma_runs_prefix(prices, all.len() as int);
    assert forall|i: int| 0 <= i < k implies (#[trigger] updates[i]).price == before[i].price by {
        assert(touched[i] == runs(prices)[i]);
    }
    // Every level but the last of those is gone.
    assert forall|i: int| 0 <= i < k - 1 implies depth_at(left, #[trigger] touched[i]) == 0 by {
        assert forall|i: int, j: int| 0 <= i < j < prices.len() implies at_least_as_good(
            side,
            #[trigger] prices[i],
            #[trigger] prices[j],
        ) by {
            assert(at_least_as_good(side, makers[i].price, makers[j].price));
        }
        lemma_runs_strict(side, fill_prices(all));
        lemma_after_suffix(makers, taker);
        lemma_gone(makers, taker);
        let gone = makers.len() - left.len();
        let last = all.len() - 1;
        assert(touched[k - 1] == prices[last]);
        assert(at_least_as_good(side, touched[i], touched[k - 1]) && touched[i] != touched[k - 1]);
        assert forall|j: int| 0 <= j < left.len() implies (#[trigger] left[j]).price
            != touched[i] by {
            assert(left[j].price == makers[j + gone].price);
            assert(j + gone >= last);
            assert(j + gone == last || at_least_as_good(side, prices[last], prices[j + gone]));
        }
        lemma_depth_absent(left, touched[i]);
    }
    let r = if k > 0 && depth_at(left, touched[k - 1]) > 0 {
        k - 1
    } else {
        k
    };
    if k > 0 {
        assert(depth_at(left, touched[k - 1]) <= u64::MAX);
    }
    assert forall|i: int| 0 <= i < r implies (#[trigger] updates[i]).qty == 0 by {
        assert(depth_at(left, touched[i]) == 0);
    }
    let cut = if r < k {
        before.skip(r).update(0, Level { price: before[r].price, qty: updates[r].qty })
    } else {
        before.skip(r)
    };
    let depth = |p: u64| depth_at(left, p);
    assert forall|i: int| 0 <= i < cut.len() implies (#[trigger] cut[i]).price == before[i
        + r].price by {}
    assert forall|i: int, j: int| 0 <= i < j < cut.len() implies {
        &&& at_least_as_good(side, (#[trigger] cut[i]).price, (#[trigger] cut[j]).price)
        &&& cut[i].price != cut[j].price
    } by {
        assert(before[i + r].price != before[j + r].price);
    }
    assert forall|i: int| 0 <= i < cut.len() implies (#[trigger] cut[i]).qty > 0 && cut[i].qty
        == depth(cut[i].price) by {
        let p = cut[i].price;
        if i > 0 || r == k {
            assert(before[i + r].price == p);
            assert(!touched.contains(p)) by {
                if touched.contains(p) {
                    let j = choose|j: int| 0 <= j < touched.len() && touched[j] == p;
                    assert(updates[j].price == before[j].price);
                    assert(before[j].price != before[i + r].price);
                }
            }
            lemma_runs_contain(fill_prices(all), p);
            assert forall|j: int| 0 <= j < all.len() implies (#[trigger] all[j]).price != p by {
                assert(fill_prices(all)[j] == all[j].price);
            }
            lemma_after_untouched(makers, taker, p);
        } else {
            assert(updates[r].price == p);
        }
    }
    assert forall|p: u64| #[trigger] depth(p) > 0 implies exists|i: int|
        0 <= i < cut.len() && (#[trigger] cut[i]).price == p by {
        lemma_after_depth(makers, taker, p);
        let was = |p: u64| depth_at(makers, p);
        assert(was(p) > 0);
        let j = choose|j: int| 0 <= j < before.len() && (#[trigger] before[j]).price == p;
        if j < r {
            assert(updates[j].price == before[j].price);
            assert(depth_at(left, touched[j]) == 0);
        }
        assert(cut[j - r].price == p);
    }
    lemma_levels_unique(cut, levels(left), side, depth);
    r
}

/// At most the last order that trades stays.
proof fn lemma_gone(makers: Seq<Order>, taker: Order)
    ensures
        makers.len() - after(makers, taker).len() >= fills(makers, taker).len() - 1,
    decreases makers.len(),
{
    if trades(makers, taker) {
        let qty = trade_qty(makers[0], taker);
        let next = reduce(taker, qty as int);
        lemma_gone(makers.drop_first(), next);
        if makers[0].qty > taker.qty {
            assert(fills(makers.drop_first(), next) =~= Seq::<Fill>::empty());
        }
    }
}

/// `levels` of `side` once `changes` have been applied one after the other.
spec fn fold(levels: Seq<Level>, side: Side, changes: Seq<LevelUpdate>) -> Seq<Level>
    decreases changes.len(),
{
    if changes.len() == 0 {
        levels
    } else {
        updated(fold(levels, side, changes.drop_last()), side, changes.last())
    }
}

/// Updates of one side leave the other alone.
proof fn lemma_fold(replica: ReplicaView, side: Side, changes: Seq<LevelUpdate>)
    requires
        forall|i: int| 0 <= i < changes.len() ==> (#[trigger] changes[i]).side == side,
    ensures
        replica.updates(changes).side(side) == fold(replica.side(side), side, changes),
        replica.updates(changes).side(opposite(side)) == replica.side(opposite(side)),
        replica.updates(changes).seq == replica.seq,
    decreases changes.len(),
{
    if changes.len() > 0 {
        lemma_fold(replica, side, changes.drop_last());
    }
}

/// The number of levels of `before` that a replica holds.
spec fn held(before: Seq<Level>) -> int {
    if before.len() <= REPLICA_DEPTH {
        before.len() as int
    } else {
        REPLICA_DEPTH as int
    }
}

/// While levels go from the top, a replica loses them one by one.
proof fn lemma_fold_gone(
    side: Side,
    before: Seq<Level>,
    updates: Seq<LevelUpdate>,
    left: Seq<Level>,
    r: int,
    j: int,
)
    requires
        levels_cut(side, before, updates, left, r),
        0 <= j <= r,
    ensures
        fold(top(before, REPLICA_DEPTH as int), side, updates.take(j)) == if j < held(before) {
            before.subrange(j, held(before))
        } else {
            Seq::empty()
        },
    decreases j,
{
    let start = top(before, REPLICA_DEPTH as int);
    if j == 0 {
        assert(updates.take(0) =~= Seq::<LevelUpdate>::empty());
        assert(start =~= before.subrange(0, held(before)));
        if held(before) == 0 {
            assert(start =~= Seq::<Level>::empty());
        }
    } else {
        lemma_fold_gone(side, before, updates, left, r, j - 1);
        assert(updates.take(j).drop_last() =~= updates.take(j - 1));
        let was = fold(start, side, updates.take(j - 1));
        if j - 1 < held(before) {
            assert(was[0].price == updates[j - 1].price);
            assert(was.remove(0) =~= before.subrange(j, held(before)));
            if j == held(before) {
                assert(was.remove(0) =~= Seq::<Level>::empty());
            }
        }
    }
}

/// A replica of the side that a taker meets keeps in step unless it is cut
/// off, loses levels and does not lose all that it does not see.
proof fn lemma_makers_follow(
    side: Side,
    before: Seq<Level>,
    updates: Seq<LevelUpdate>,
    left: Seq<Level>,
    r: int,
)
    requires
        levels_cut(side, before, updates, left, r),
    ensures
        fold(top(before, REPLICA_DEPTH as int), side, updates) == top(left, REPLICA_DEPTH as int)
            <==> (before.len() <= REPLICA_DEPTH || updates.len() == before.len() || r == 0),
{
    let k = updates.len() as int;
    let m = held(before);
    let start = top(before, REPLICA_DEPTH as int);
    let end = fold(start, side, updates);
    let truth = top(left, REPLICA_DEPTH as int);
    lemma_fold_gone(side, before, updates, left, r, r);
    if r == k {
        assert(updates.take(r) =~= updates);
    } else {
        let level = Level { price: before[r].price, qty: updates[r].qty };
        let was = fold(start, side, updates.take(r));
        assert(updates.drop_last() =~= updates.take(r));
        if r < m {
            assert(was[0].price == updates[r].price);
            assert(end =~= was.update(0, level));
        } else {
            assert(position(was, updates[r].price) == 0);
            assert(first_worse(was, side, updates[r].price) == 0);
            assert(end =~= seq![level]);
        }
    }
    if before.len() <= REPLICA_DEPTH || k == before.len() || r == 0 {
        assert(end =~= truth);
    } else {
        assert(end.len() != truth.len());
    }
}

pub proof fn lemma_position(levels: Seq<Level>, price: u64)
    ensures
        position(levels, price) <= levels.len(),
        position(levels, price) < levels.len() ==> levels[position(levels, price) as int].price
            == price,
        forall|i: int|
            0 <= i < position(levels, price) ==> (#[trigger] levels[i]).price != price,
    decreases levels.len(),
{
    if levels.len() > 0 && levels[0].price != price {
        let rest = levels.drop_first();
        lemma_position(rest, price);
        assert forall|i: int| 0 <= i < position(levels, price) implies (#[trigger] levels[i]).price
            != price by {
            if i > 0 {
                assert(levels[i] == rest[i - 1]);
            }
        }
    }
}

pub proof fn lemma_first_worse(levels: Seq<Level>, side: Side, price: u64)
    ensures
        first_worse(levels, side, price) <= levels.len(),
        first_worse(levels, side, price) < levels.len() ==> !at_least_as_good(
            side,
            levels[first_worse(levels, side, price) as int].price,
            price,
        ),
        forall|i: int|
            0 <= i < first_worse(levels, side, price) ==> at_least_as_good(
                side,
                (#[trigger] levels[i]).price,
                price,
            ),
    decreases levels.len(),
{
    if levels.len() > 0 && at_least_as_good(side, levels[0].price, price) {
        let rest = levels.drop_first();
        lemma_first_worse(rest, side, price);
        assert forall|i: int| 0 <= i < first_worse(levels, side, price) implies at_least_as_good(
            side,
            (#[trigger] levels[i]).price,
            price,
        ) by {
            if i > 0 {
                assert(levels[i] == rest[i - 1]);
            }
        }
    }
}

/// The first `n` levels know of the places within them.
proof fn lemma_take_places(levels: Seq<Level>, n: int, side: Side, price: u64)
    requires
        0 <= n <= levels.len(),
    ensures
        position(levels.take(n), price) == if position(levels, price) < n {
            position(levels, price) as int
        } else {
            n
        },
        first_worse(levels.take(n), side, price) == if first_worse(levels, side, price) < n {
            first_worse(levels, side, price) as int
        } else {
            n
        },
    decreases n,
{
    if n > 0 {
        assert(levels.take(n).drop_first() =~= levels.drop_first().take(n - 1));
        lemma_take_places(levels.drop_first(), n - 1, side, price);
    }
}

/// `before`, of `side`, with `level` in its place.
spec fn with_level(before: Seq<Level>, side: Side, level: Level) -> Seq<Level> {
    let at = position(before, level.price) as int;
    if at < before.len() {
        before.update(at, level)
    } else {
        before.insert(first_worse(before, side, level.price) as int, level)
    }
}

/// Putting a level in its place keeps the prices strictly ordered.
proof fn lemma_with_level_strict(before: Seq<Level>, side: Side, level: Level)
    requires
        strict(side, before),
    ensures
        strict(side, with_level(before, side, level)),
{
    let at = position(before, level.price) as int;
    let worse = first_worse(before, side, level.price) as int;
    let grown = with_level(before, side, level);
    lemma_position(before, level.price);
    lemma_first_worse(before, side, level.price);
    if at >= before.len() {
        assert forall|i: int, j: int| 0 <= i < j < grown.len() implies {
            &&& at_least_as_good(side, (#[trigger] grown[i]).price, (#[trigger] grown[j]).price)
            &&& grown[i].price != grown[j].price
        } by {
            if j == worse {
                assert(at_least_as_good(side, before[i].price, level.price));
            } else if i == worse {
                assert(j - 1 == worse || at_least_as_good(
                    side,
                    before[worse].price,
                    before[j - 1].price,
                ));
            }
        }
    }
}

/// The levels of a side that an order joins.
proof fn lemma_joined_levels(orders: Seq<Order>, order: Order)
    requires
        side_wf(order.side, orders),
        order.qty > 0,
        depth_at(orders, order.price) + order.qty <= u64::MAX,
    ensures
        levels(enqueue(orders, order)) == with_level(
            levels(orders),
            order.side,
            level_at(enqueue(orders, order), order.price),
        ),
        level_at(enqueue(orders, order), order.price).qty > 0,
{
    let side = order.side;
    let joined = enqueue(orders, order);
    let before = levels(orders);
    let level = level_at(joined, order.price);
    let at = position(before, order.price) as int;
    let worse = first_worse(before, side, order.price) as int;
    let was = |p: u64| depth_at(orders, p);
    let depth = |p: u64| depth_at(joined, p);
    let grown = with_level(before, side, level);
    lemma_enqueue_wf(orders, order);
    lemma_levels_of_side(side, orders);
    lemma_levels_of_side(side, joined);
    lemma_position(before, order.price);
    lemma_first_worse(before, side, order.price);
    lemma_with_level_strict(before, side, level);
    lemma_enqueue_depth(orders, order, order.price);
    assert forall|i: int| 0 <= i < grown.len() implies (#[trigger] grown[i]).qty > 0
        && grown[i].qty == depth(grown[i].price) by {
        let p = grown[i].price;
        lemma_enqueue_depth(orders, order, p);
        if at < before.len() && i != at {
            assert(before[i].price != before[at].price);
        }
        if p != order.price {
            assert(grown[i].qty == was(p));
        }
    }
    assert forall|p: u64| #[trigger] depth(p) > 0 implies exists|i: int|
        0 <= i < grown.len() && (#[trigger] grown[i]).price == p by {
        lemma_enqueue_depth(orders, order, p);
        if p == order.price {
            if at < before.len() {
                assert(grown[at].price == p);
            } else {
                assert(grown[worse].price == p);
            }
        } else {
            assert(was(p) > 0);
            let j = choose|j: int| 0 <= j < before.len() && (#[trigger] before[j]).price == p;
            if at < before.len() || j < worse {
                assert(grown[j].price == p);
            } else {
                assert(grown[j + 1].price == p);
            }
        }
    }
    lemma_levels_unique(grown, levels(joined), side, depth);
}

/// A replica that puts a level in its place holds the best levels again.
proof fn lemma_with_level_top(before: Seq<Level>, side: Side, update: LevelUpdate)
    requires
        strict(side, before),
        update.qty > 0,
    ensures
        updated(top(before, REPLICA_DEPTH as int), side, update) == top(
            with_level(before, side, Level { price: update.price, qty: update.qty }),
            REPLICA_DEPTH as int,
        ),
{
    let level = Level { price: update.price, qty: update.qty };
    let at = position(before, update.price) as int;
    let worse = first_worse(before, side, update.price) as int;
    let n = held(before);
    let start = top(before, REPLICA_DEPTH as int);
    let end = updated(start, side, update);
    let truth = top(with_level(before, side, level), REPLICA_DEPTH as int);
    lemma_position(before, update.price);
    lemma_first_worse(before, side, update.price);
    lemma_take_places(before, n, side, update.price);
    assert(start =~= before.take(n));
    if at < n {
        assert(end =~= truth);
    } else if at < before.len() {
        // The level is one that the replica does not hold: all that it holds
        // are better.
        assert(worse >= n) by {
            if worse < n {
                assert(at_least_as_good(side, before[worse].price, before[at].price));
            }
        }
        assert(end =~= start);
        assert(end =~= truth);
    } else {
        assert(end =~= truth);
    }
}

/// A replica of the side that an order joins keeps in step.
proof fn lemma_own_follows(orders: Seq<Order>, order: Order)
    requires
        side_wf(order.side, orders),
        order.qty > 0,
        depth_at(orders, order.price) + order.qty <= u64::MAX,
    ensures
        updated(
            top(levels(orders), REPLICA_DEPTH as int),
            order.side,
            update_at(order.side, enqueue(orders, order), order.price),
        ) == top(levels(enqueue(orders, order)), REPLICA_DEPTH as int),
{
    lemma_levels_of_side(order.side, orders);
    lemma_joined_levels(orders, order);
    lemma_with_level_top(
        levels(orders),
        order.side,
        update_at(order.side, enqueue(orders, order), order.price),
    );
}

/// Whether `replica` holds the best levels of `book`, as of the same event.
pub open spec fn in_step(replica: ReplicaView, book: BookView) -> bool {
    &&& replica.seq == book.seq
    &&& replica.bids == top(levels(book.bids), REPLICA_DEPTH as int)
    &&& replica.asks == top(levels(book.asks), REPLICA_DEPTH as int)
}

/// The book that `taker` is processed on: the one before, under the sequence
/// number of the event.
pub open spec fn numbered(book: BookView) -> BookView {
    BookView { seq: (book.seq + 1) as u64, ..book }
}

/// Whether a replica of `book` sees all that it needs to follow `taker`: it
/// holds every level of the side that `taker` meets, or no level of that side
/// goes, or `taker` trades at every level of it.
pub open spec fn visible(book: BookView, taker: Order) -> bool {
    let makers = book.side(opposite(taker.side));
    ||| levels(makers).len() <= REPLICA_DEPTH
    ||| forall|i: int|
        0 <= i < book.changes(taker).len() ==> (#[trigger] book.changes(taker)[i]).qty > 0
    ||| runs(fill_prices(book.fills(taker))).len() == levels(makers).len()
}

/// A replica in step with the book accepts the next delta, and it is in step
/// afterwards exactly when it saw all that it needed to.
pub proof fn replica_follows(replica: ReplicaView, book: BookView, taker: Order)
    requires
        book.wf(),
        book.has_room(taker),
        book.seq < u64::MAX,
        in_step(replica, book),
    ensures
        ({
            let next = numbered(book);
            let followed = replica.delta(next.seq, next.changes(taker));
            &&& followed.seq == replica.seq + 1
            &&& in_step(followed, next.process(taker)) <==> visible(book, taker)
        }),
{
    let next = numbered(book);
    let makers_side = opposite(taker.side);
    let makers = book.side(makers_side);
    let own = book.side(taker.side);
    let left = book.makers_after(taker);
    let traded = traded_updates(makers_side, book.fills(taker), left);
    let changes = book.changes(taker);
    let rest = Order { qty: book.unfilled(taker), ..taker };
    assert(next.changes(taker) == changes);
    lemma_fold(replica, makers_side, traded);
    let r = lemma_makers_levels(makers_side, makers, taker);
    lemma_makers_follow(makers_side, levels(makers), traded, levels(left), r);
    if rest.qty > 0 {
        assert(changes.drop_last() =~= traded);
        lemma_own_follows(own, rest);
        lemma_enqueue_depth(own, rest, taker.price);
        assert(changes.last().qty > 0);
    }
    assert(r == 0 <==> forall|i: int|
        0 <= i < changes.len() ==> (#[trigger] changes[i]).qty > 0) by {
        if r > 0 {
            assert(traded[0].qty == 0);
            assert(changes[0] == traded[0]);
        } else {
            assert forall|i: int| 0 <= i < changes.len() implies (#[trigger] changes[i]).qty
                > 0 by {
                if i < traded.len() {
                    assert(changes[i] == traded[i]);
                }
            }
        }
    }
}

/// A replica that has just taken in a snapshot of the book is in step with it.
pub proof fn snapshot_starts_in_step(book: BookView, snap: OrderbookSnapshot)
    requires
        snap.seq == book.seq,
        snap.bids@ == top(levels(book.bids), REPLICA_DEPTH as int),
        snap.asks@ == top(levels(book.asks), REPLICA_DEPTH as int),
    ensures
        in_step(ReplicaView { seq: snap.seq, bids: snap.bids@, asks: snap.asks@ }, book),
{
}

/// A snapshot shows the best of a side: each level with all that rests at its
/// price, the prices strictly worse from level to level, and what it does not
/// show is worse than all that it does.
pub proof fn snapshot_shows_the_best(side: Side, orders: Seq<Order>, depth: int)
    requires
        side_wf(side, orders),
        depth >= 0,
    ensures
        ({
            let shown = top(levels(orders), depth);
            &&& shown.len() <= depth
            &&& strict(side, shown)
            &&& forall|i: int|
                0 <= i < shown.len() ==> 0 < (#[trigger] shown[i]).qty && shown[i].qty == depth_at(
                    orders,
                    shown[i].price,
                )
            &&& forall|k: int|
                0 <= k < orders.len() ==> {
                    ||| exists|i: int|
                        0 <= i < shown.len() && shown[i].price == (#[trigger] orders[k]).price
                    ||| shown.len() == depth && forall|i: int|
                        0 <= i < shown.len() ==> !at_least_as_good(
                            side,
                            orders[k].price,
                            (#[trigger] shown[i]).price,
                        )
                }
        }),
{
    let all = levels(orders);
    let shown = top(all, depth);
    lemma_levels_of_side(side, orders);
    assert forall|k: int| 0 <= k < orders.len() implies {
        ||| exists|i: int|
            0 <= i < shown.len() && shown[i].price == (#[trigger] orders[k]).price
        ||| shown.len() == depth && forall|i: int|
            0 <= i < shown.len() ==> !at_least_as_good(
                side,
                orders[k].price,
                (#[trigger] shown[i]).price,
            )
    } by {
        let p = orders[k].price;
        let rests = |q: u64| depth_at(orders, q);
        lemma_depth_present(orders, k);
        assert(orders[k].qty > 0);
        assert(rests(p) > 0);
        let at = choose|at: int| 0 <= at < all.len() && (#[trigger] all[at]).price == p;
        if at < shown.len() {
            assert(shown[at].price == p);
        } else {
            assert forall|i: int| 0 <= i < shown.len() implies !at_least_as_good(
                side,
                p,
                (#[trigger] shown[i]).price,
            ) by {
                assert(shown[i] == all[i]);
                assert(all[i].price != all[at].price);
            }
        }
    }
}

/// Whether `replica` is in order: the prices of each side get strictly worse,
/// and no side has more levels than a replica keeps.
pub open spec fn ordered(replica: ReplicaView) -> bool {
    &&& strict(Side::Buy, replica.bids)
    &&& strict(Side::Sell, replica.asks)
    &&& replica.bids.len() <= REPLICA_DEPTH
    &&& replica.asks.len() <= REPLICA_DEPTH
}

/// Whatever delta comes in, a replica stays in order: bids from the highest
/// price down and asks from the lowest price up, no price twice.
pub proof fn replica_stays_ordered(replica: ReplicaView, seq: u64, changes: Seq<LevelUpdate>)
    requires
        ordered(replica),
    ensures
        ordered(replica.delta(seq, changes)),
{
    lemma_updates_ordered(replica, changes);
}

proof fn lemma_updates_ordered(replica: ReplicaView, changes: Seq<LevelUpdate>)
    requires
        ordered(replica),
    ensures
        ordered(replica.updates(changes)),
    decreases changes.len(),
{
    if changes.len() > 0 {
        let before = replica.updates(changes.drop_last());
        let update = changes.last();
        lemma_updates_ordered(replica, changes.drop_last());
        lemma_updated_strict(before.side(update.side), update.side, update);
    }
}

/// An update keeps the prices of a side strictly ordered.
proof fn lemma_updated_strict(before: Seq<Level>, side: Side, update: LevelUpdate)
    requires
        strict(side, before),
        before.len() <= REPLICA_DEPTH,
    ensures
        strict(side, updated(before, side, update)),
        updated(before, side, update).len() <= REPLICA_DEPTH,
{
    let level = Level { price: update.price, qty: update.qty };
    lemma_position(before, update.price);
    lemma_first_worse(before, side, update.price);
    lemma_with_level_strict(before, side, level);
}

/// The view of a replica is what a reader finds in its fields.
pub proof fn replica_shows_its_fields(book: LocalBook)
    ensures
        book@.seq == book.seq,
        book@.bids == book.bids@,
        book@.asks == book.asks@,
        book@.side(Side::Buy) == book.bids@,
        book@.side(Side::Sell) == book.asks@,
{
}

/// A delta that is not next in sequence leaves a replica exactly as it was.
pub proof fn gap_changes_nothing(replica: ReplicaView, seq: u64, changes: Seq<LevelUpdate>)
    requires
        seq != replica.seq + 1,
    ensures
        replica.delta(seq, changes).seq == replica.seq,
        replica.delta(seq, changes).bids == replica.bids,
        replica.delta(seq, changes).asks == replica.asks,
{
}

/// A delta that is next in sequence moves a replica on by one and applies its
/// updates one after the other, none of them left out: all but the last as a
/// shorter delta would, and then the last to its own side alone.
pub proof fn delta_applies_every_update(replica: ReplicaView, seq: u64, changes: Seq<LevelUpdate>)
    requires
        seq == replica.seq + 1,
    ensures
        replica.delta(seq, changes).seq == seq,
        changes.len() == 0 ==> {
            &&& replica.delta(seq, changes).bids == replica.bids
            &&& replica.delta(seq, changes).asks == replica.asks
        },
        changes.len() > 0 ==> {
            let before = replica.delta(seq, changes.take(changes.len() - 1));
            let now = replica.delta(seq, changes);
            let last = changes[changes.len() - 1];
            &&& last.side == Side::Buy ==> {
                &&& now.bids == updated(before.bids, Side::Buy, last)
                &&& now.asks == before.asks
            }
            &&& last.side == Side::Sell ==> {
                &&& now.asks == updated(before.asks, Side::Sell, last)
                &&& now.bids == before.bids
            }
        },
{
    if changes.len() > 0 {
        assert(changes.take(changes.len() - 1) =~= changes.drop_last());
    }
}

/// An update of a price that a replica holds sets the quantity there, or takes
/// the level out where none is left. An update of another price puts the level
/// in before the first worse one, and what then stands beyond the twentieth
/// place is cut off. All other levels stay as they are and where they are.
/// Gives the place of the level.
pub proof fn update_sets_one_level(levels: Seq<Level>, bids: bool, update: LevelUpdate) -> (at: int)
    ensures
        0 <= at <= levels.len(),
        (exists|i: int| 0 <= i < levels.len() && (#[trigger] levels[i]).price == update.price) ==> {
            &&& at < levels.len()
            &&& levels[at].price == update.price
            &&& forall|i: int| 0 <= i < at ==> (#[trigger] levels[i]).price != update.price
            &&& update.qty == 0 ==> updated(levels, side_of(bids), update) == levels.remove(at)
            &&& update.qty > 0 ==> updated(levels, side_of(bids), update) == levels.update(
                at,
                Level { price: update.price, qty: update.qty },
            )
        },
        (forall|i: int| 0 <= i < levels.len() ==> (#[trigger] levels[i]).price != update.price)
            && update.qty == 0 ==> updated(levels, side_of(bids), update) == levels,
        (forall|i: int| 0 <= i < levels.len() ==> (#[trigger] levels[i]).price != update.price)
            && update.qty > 0 ==> {
            let grown = levels.insert(at, Level { price: update.price, qty: update.qty });
            let kept = updated(levels, side_of(bids), update);
            &&& kept.len() == if grown.len() < 20 {
                grown.len()
            } else {
                20
            }
            &&& forall|i: int| 0 <= i < kept.len() ==> #[trigger] kept[i] == grown[i]
            &&& forall|i: int|
                0 <= i < at ==> {
                    &&& bids ==> (#[trigger] levels[i]).price >= update.price
                    &&& !bids ==> levels[i].price <= update.price
                }
            &&& at < levels.len() ==> {
                &&& bids ==> levels[at].price < update.price
                &&& !bids ==> levels[at].price > update.price
            }
        },
        bids <==> side_of(bids) == Side::Buy,
{
    let known = position(levels, update.price) as int;
    let worse = first_worse(levels, side_of(bids), update.price) as int;
    lemma_position(levels, update.price);
    lemma_first_worse(levels, side_of(bids), update.price);
    if known < levels.len() {
        known
    } else {
        worse
    }
}

} // verus!
