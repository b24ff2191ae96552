use maple::orderbook::OrderBook;
use maple::types::{
    BookDelta, EngineEvent, Fill, Level, LevelUpdate, Order, OrderbookSnapshot, Side,
};

fn buy(id: u64, price: u64, qty: u64) -> Order {
    Order { id, side: Side::Buy, price, qty }
}

fn sell(id: u64, price: u64, qty: u64) -> Order {
    Order { id, side: Side::Sell, price, qty }
}

fn level(price: u64, qty: u64) -> Level {
    Level { price, qty }
}

fn bid(price: u64, qty: u64) -> LevelUpdate {
    LevelUpdate { side: Side::Buy, price, qty }
}

fn ask(price: u64, qty: u64) -> LevelUpdate {
    LevelUpdate { side: Side::Sell, price, qty }
}

fn fill(maker: u64, taker: u64, price: u64, qty: u64) -> Fill {
    Fill { maker_order_id: maker, taker_order_id: taker, price, qty }
}

fn resting(order_id: u64, seq: u64, changes: Vec<LevelUpdate>) -> EngineEvent {
    EngineEvent::Resting { order_id, delta: BookDelta { seq, changes } }
}

fn filled(taker_id: u64, seq: u64, fills: Vec<Fill>, changes: Vec<LevelUpdate>) -> EngineEvent {
    EngineEvent::Filled { taker_id, fills, delta: BookDelta { seq, changes } }
}

fn snapshot(seq: u64, bids: Vec<Level>, asks: Vec<Level>) -> OrderbookSnapshot {
    OrderbookSnapshot { seq, bids, asks }
}

fn total(levels: &Vec<Level>) -> u64 {
    levels.iter().map(|l| l.qty).sum()
}

#[test]
fn side_defaults_to_buy() {
    assert_eq!(Side::default(), Side::Buy);
    assert_eq!(Order::default(), Order { id: 0, side: Side::Buy, price: 0, qty: 0 });
}

#[test]
fn new_book_is_empty() {
    let book = OrderBook::new();
    assert_eq!(book.snapshot(20), snapshot(0, vec![], vec![]));
    assert_eq!(OrderBook::default().snapshot(20), snapshot(0, vec![], vec![]));
}

#[test]
fn order_without_match_rests() {
    let mut book = OrderBook::new();
    book.set_seq(1);
    assert_eq!(book.process(buy(7, 100, 5)), resting(7, 1, vec![bid(100, 5)]));
    assert_eq!(book.snapshot(20), snapshot(1, vec![level(100, 5)], vec![]));
}

#[test]
fn sell_without_match_rests() {
    let mut book = OrderBook::new();
    book.set_seq(1);
    assert_eq!(book.process(sell(7, 100, 5)), resting(7, 1, vec![ask(100, 5)]));
    assert_eq!(book.snapshot(20), snapshot(1, vec![], vec![level(100, 5)]));
}

#[test]
fn exact_match_clears_both_sides() {
    let mut book = OrderBook::new();
    book.process(buy(1, 100, 5));
    book.set_seq(2);
    assert_eq!(
        book.process(sell(2, 100, 5)),
        filled(2, 2, vec![fill(1, 2, 100, 5)], vec![bid(100, 0)])
    );
    assert_eq!(book.snapshot(20), snapshot(2, vec![], vec![]));
}

#[test]
fn maker_is_left_with_what_does_not_trade() {
    let mut book = OrderBook::new();
    book.process(sell(1, 100, 10));
    assert_eq!(
        book.process(buy(2, 100, 4)),
        filled(2, 0, vec![fill(1, 2, 100, 4)], vec![ask(100, 6)])
    );
    assert_eq!(book.snapshot(20), snapshot(0, vec![], vec![level(100, 6)]));
}

#[test]
fn rest_of_taker_rests_at_its_limit() {
    let mut book = OrderBook::new();
    book.process(sell(1, 100, 4));
    assert_eq!(
        book.process(buy(2, 105, 10)),
        filled(2, 0, vec![fill(1, 2, 100, 4)], vec![ask(100, 0), bid(105, 6)])
    );
    assert_eq!(book.snapshot(20), snapshot(0, vec![level(105, 6)], vec![]));
}

#[test]
fn trades_at_the_price_of_the_maker() {
    let mut book = OrderBook::new();
    book.process(buy(1, 110, 3));
    assert_eq!(
        book.process(sell(2, 90, 3)),
        filled(2, 0, vec![fill(1, 2, 110, 3)], vec![bid(110, 0)])
    );
}

#[test]
fn earlier_order_at_a_price_trades_first() {
    let mut book = OrderBook::new();
    book.process(sell(1, 100, 2));
    book.process(sell(2, 100, 2));
    assert_eq!(
        book.process(buy(3, 100, 3)),
        filled(3, 0, vec![fill(1, 3, 100, 2), fill(2, 3, 100, 1)], vec![ask(100, 1)])
    );
    // What is left of the second order keeps its place before a third.
    book.process(sell(4, 100, 5));
    assert_eq!(
        book.process(buy(5, 100, 2)),
        filled(5, 0, vec![fill(2, 5, 100, 1), fill(4, 5, 100, 1)], vec![ask(100, 4)])
    );
}

#[test]
fn best_price_trades_first() {
    let mut book = OrderBook::new();
    book.process(sell(1, 102, 1));
    book.process(sell(2, 100, 1));
    book.process(sell(3, 101, 1));
    assert_eq!(
        book.process(buy(4, 102, 3)),
        filled(
            4,
            0,
            vec![fill(2, 4, 100, 1), fill(3, 4, 101, 1), fill(1, 4, 102, 1)],
            vec![ask(100, 0), ask(101, 0), ask(102, 0)]
        )
    );
}

#[test]
fn highest_bid_trades_first() {
    let mut book = OrderBook::new();
    book.process(buy(1, 98, 1));
    book.process(buy(2, 100, 1));
    book.process(buy(3, 99, 1));
    assert_eq!(
        book.process(sell(4, 99, 3)),
        filled(
            4,
            0,
            vec![fill(2, 4, 100, 1), fill(3, 4, 99, 1)],
            vec![bid(100, 0), bid(99, 0), ask(99, 1)]
        )
    );
    assert_eq!(book.snapshot(20), snapshot(0, vec![level(98, 1)], vec![level(99, 1)]));
}

#[test]
fn limit_is_respected() {
    let mut book = OrderBook::new();
    book.process(sell(1, 101, 5));
    assert_eq!(book.process(buy(2, 100, 5)), resting(2, 0, vec![bid(100, 5)]));
    assert_eq!(book.snapshot(20), snapshot(0, vec![level(100, 5)], vec![level(101, 5)]));
}

#[test]
fn one_update_for_each_price_that_trades() {
    let mut book = OrderBook::new();
    book.process(sell(1, 100, 1));
    book.process(sell(2, 100, 1));
    book.process(sell(3, 101, 4));
    assert_eq!(
        book.process(buy(4, 101, 3)),
        filled(
            4,
            0,
            vec![fill(1, 4, 100, 1), fill(2, 4, 100, 1), fill(3, 4, 101, 1)],
            vec![ask(100, 0), ask(101, 3)]
        )
    );
}

#[test]
fn resting_orders_at_one_price_add_up() {
    let mut book = OrderBook::new();
    book.process(buy(1, 100, 5));
    assert_eq!(book.process(buy(2, 100, 7)), resting(2, 0, vec![bid(100, 12)]));
    assert_eq!(book.snapshot(20), snapshot(0, vec![level(100, 12)], vec![]));
}

#[test]
fn empty_order_changes_nothing() {
    let mut book = OrderBook::new();
    book.process(sell(1, 100, 5));
    book.set_seq(2);
    assert_eq!(book.process(buy(2, 100, 0)), resting(2, 2, vec![]));
    assert_eq!(book.snapshot(20), snapshot(2, vec![], vec![level(100, 5)]));
}

#[test]
fn extreme_prices_trade() {
    let mut book = OrderBook::new();
    book.process(buy(1, u64::MAX, 1));
    book.process(buy(2, 0, 1));
    assert_eq!(
        book.snapshot(20),
        snapshot(0, vec![level(u64::MAX, 1), level(0, 1)], vec![])
    );
    assert_eq!(
        book.process(sell(3, 0, 2)),
        filled(
            3,
            0,
            vec![fill(1, 3, u64::MAX, 1), fill(2, 3, 0, 1)],
            vec![bid(u64::MAX, 0), bid(0, 0)]
        )
    );
    book.process(sell(4, u64::MAX, 1));
    book.process(sell(5, 0, 1));
    assert_eq!(
        book.snapshot(20),
        snapshot(0, vec![], vec![level(0, 1), level(u64::MAX, 1)])
    );
}

#[test]
fn snapshot_shows_the_best_levels_first() {
    let mut book = OrderBook::new();
    for price in 1..=25 {
        book.process(buy(price, price, price));
        book.process(sell(100 + price, 100 + price, price));
    }
    let all = book.snapshot(30);
    assert_eq!(all.bids.len(), 25);
    assert_eq!(all.bids[0], level(25, 25));
    assert_eq!(all.bids[24], level(1, 1));
    assert_eq!(all.asks[0], level(101, 1));
    assert_eq!(all.asks[24], level(125, 25));
    let best = book.snapshot(3);
    assert_eq!(best.bids, vec![level(25, 25), level(24, 24), level(23, 23)]);
    assert_eq!(best.asks, vec![level(101, 1), level(102, 2), level(103, 3)]);
    let none = book.snapshot(0);
    assert!(none.bids.is_empty() && none.asks.is_empty());
}

#[test]
fn quantity_is_conserved() {
    let mut book = OrderBook::new();
    book.process(sell(1, 100, 3));
    book.process(sell(2, 101, 4));
    book.process(sell(3, 103, 5));
    book.process(buy(4, 99, 6));
    let before = book.snapshot(20);
    let traded: u64 = match book.process(buy(5, 102, 10)) {
        EngineEvent::Filled { fills, .. } => fills.iter().map(|f| f.qty).sum(),
        EngineEvent::Resting { .. } => 0,
    };
    let after = book.snapshot(20);
    assert_eq!(traded, 7);
    assert_eq!(total(&before.asks) - total(&after.asks), traded);
    assert_eq!(total(&after.bids) - total(&before.bids), 10 - traded);
}

#[test]
fn orders_keep_their_ids_while_they_rest() {
    let mut book = OrderBook::new();
    book.process(sell(71, 100, 5));
    book.process(buy(72, 100, 2));
    book.process(buy(73, 100, 1));
    book.process(sell(74, 101, 1));
    assert_eq!(
        book.process(buy(75, 101, 4)),
        filled(
            75,
            0,
            vec![fill(71, 75, 100, 2), fill(74, 75, 101, 1)],
            vec![ask(100, 0), ask(101, 0), bid(101, 1)]
        )
    );
    assert_eq!(
        book.process(sell(76, 101, 1)),
        filled(76, 0, vec![fill(75, 76, 101, 1)], vec![bid(101, 0)])
    );
}

#[test]
fn book_is_never_crossed() {
    let mut book = OrderBook::new();
    let mut x: u64 = 12345;
    for id in 1..=500 {
        x = x.wrapping_mul(6364136223846793005).wrapping_add(1442695040888963407);
        let side = if (x >> 33) % 2 == 0 { Side::Buy } else { Side::Sell };
        let price = 90 + (x >> 40) % 21;
        let qty = 1 + (x >> 50) % 9;
        book.process(Order { id, side, price, qty });
        let top = book.snapshot(1);
        if !top.bids.is_empty() && !top.asks.is_empty() {
            assert!(top.bids[0].price < top.asks[0].price);
        }
    }
}

#[test]
fn delta_is_enough_for_every_level() {
    let mut book = OrderBook::new();
    let mut x: u64 = 99;
    for id in 1..=300 {
        x = x.wrapping_mul(6364136223846793005).wrapping_add(1442695040888963407);
        let side = if (x >> 33) % 2 == 0 { Side::Buy } else { Side::Sell };
        let price = 95 + (x >> 40) % 11;
        let qty = 1 + (x >> 50) % 9;
        let before = book.snapshot(100);
        let delta = match book.process(Order { id, side, price, qty }) {
            EngineEvent::Filled { delta, .. } => delta,
            EngineEvent::Resting { delta, .. } => delta,
        };
        let after = book.snapshot(100);
        for p in 90..=110 {
            for s in [Side::Buy, Side::Sell] {
                let of = |snap: &OrderbookSnapshot| {
                    let levels = if s == Side::Buy { &snap.bids } else { &snap.asks };
                    levels.iter().find(|l| l.price == p).map(|l| l.qty).unwrap_or(0)
                };
                let told = delta
                    .changes
                    .iter()
                    .rev()
                    .find(|u| u.side == s && u.price == p)
                    .map(|u| u.qty)
                    .unwrap_or(of(&before));
                assert_eq!(told, of(&after));
            }
        }
    }
}

#[test]
fn level_that_cannot_be_counted_is_not_accepted() {
    let mut book = OrderBook::new();
    book.process(buy(1, 100, u64::MAX));
    assert!(!book.accepts(&buy(2, 100, 1)));
    assert!(book.accepts(&buy(2, 101, 1)));
    assert!(book.accepts(&buy(2, 100, 0)));
    assert!(book.accepts(&sell(3, 100, 5)));
    book.process(sell(3, 100, 5));
    assert!(book.accepts(&buy(4, 100, 5)));
    assert!(!book.accepts(&buy(4, 100, 6)));
}

#[test]
fn only_what_is_left_of_an_order_needs_room() {
    let mut book = OrderBook::new();
    book.process(sell(1, 200, u64::MAX));
    book.process(buy(2, 199, u64::MAX));
    assert!(book.accepts(&sell(3, 199, u64::MAX)));
    assert!(book.accepts(&buy(3, 200, u64::MAX)));
    assert!(!book.accepts(&sell(3, 200, 1)));
    book.process(sell(4, 199, 1));
    assert!(book.accepts(&buy(5, 199, 1)));
    assert!(!book.accepts(&buy(5, 199, 2)));
}
