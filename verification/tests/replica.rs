use maple::local_book::{apply_level_update, LocalBook, REPLICA_DEPTH};
use maple::orderbook::OrderBook;
use maple::types::{BookDelta, EngineEvent, Level, LevelUpdate, Order, OrderbookSnapshot, Side};

fn level(price: u64, qty: u64) -> Level {
    Level { price, qty }
}

fn bid(price: u64, qty: u64) -> LevelUpdate {
    LevelUpdate { side: Side::Buy, price, qty }
}

fn ask(price: u64, qty: u64) -> LevelUpdate {
    LevelUpdate { side: Side::Sell, price, qty }
}

fn delta_of(event: EngineEvent) -> BookDelta {
    match event {
        EngineEvent::Filled { delta, .. } => delta,
        EngineEvent::Resting { delta, .. } => delta,
    }
}

/// Processes an order under the next number and hands the delta to the replica.
fn follow(book: &mut OrderBook, replica: &mut LocalBook, order: Order) -> bool {
    book.set_seq(replica.seq + 1);
    let delta = delta_of(book.process(order));
    replica.apply_delta(&delta)
}

fn in_step(book: &OrderBook, replica: &LocalBook) -> bool {
    let snap = book.snapshot(REPLICA_DEPTH);
    snap.seq == replica.seq && snap.bids == replica.bids && snap.asks == replica.asks
}

#[test]
fn replica_starts_empty() {
    let replica = LocalBook::default();
    assert_eq!(replica.seq, 0);
    assert!(replica.bids.is_empty());
    assert!(replica.asks.is_empty());
    assert_eq!(REPLICA_DEPTH, 20);
}

#[test]
fn snapshot_replaces_the_replica() {
    let mut replica = LocalBook { seq: 3, bids: vec![level(1, 1)], asks: vec![] };
    let snap = OrderbookSnapshot {
        seq: 9,
        bids: vec![level(100, 5), level(99, 4)],
        asks: vec![level(101, 3)],
    };
    replica.apply_snapshot(&snap);
    assert_eq!(replica.seq, 9);
    assert_eq!(replica.bids, vec![level(100, 5), level(99, 4)]);
    assert_eq!(replica.asks, vec![level(101, 3)]);
}

#[test]
fn next_delta_is_applied() {
    let mut replica = LocalBook { seq: 4, bids: vec![level(100, 5)], asks: vec![level(101, 3)] };
    let delta = BookDelta { seq: 5, changes: vec![ask(101, 0), bid(101, 2), bid(100, 6)] };
    assert!(replica.apply_delta(&delta));
    assert_eq!(replica.seq, 5);
    assert_eq!(replica.bids, vec![level(101, 2), level(100, 6)]);
    assert!(replica.asks.is_empty());
}

#[test]
fn gap_leaves_the_replica_alone() {
    for seq in [0, 3, 4, 6, u64::MAX] {
        let mut replica = LocalBook { seq: 4, bids: vec![level(100, 5)], asks: vec![] };
        assert!(!replica.apply_delta(&BookDelta { seq, changes: vec![bid(100, 9)] }));
        assert_eq!(replica.seq, 4);
        assert_eq!(replica.bids, vec![level(100, 5)]);
    }
}

#[test]
fn update_of_a_known_level() {
    let mut bids = vec![level(100, 5), level(99, 4)];
    apply_level_update(&mut bids, &bid(99, 7), true);
    assert_eq!(bids, vec![level(100, 5), level(99, 7)]);
    apply_level_update(&mut bids, &bid(100, 0), true);
    assert_eq!(bids, vec![level(99, 7)]);
    apply_level_update(&mut bids, &bid(50, 0), true);
    assert_eq!(bids, vec![level(99, 7)]);
}

#[test]
fn new_bids_stand_from_the_highest_down() {
    let mut bids = vec![level(100, 5), level(98, 4)];
    apply_level_update(&mut bids, &bid(99, 1), true);
    apply_level_update(&mut bids, &bid(101, 2), true);
    apply_level_update(&mut bids, &bid(97, 3), true);
    assert_eq!(
        bids,
        vec![level(101, 2), level(100, 5), level(99, 1), level(98, 4), level(97, 3)]
    );
}

#[test]
fn new_asks_stand_from_the_lowest_up() {
    let mut asks = vec![level(100, 5), level(102, 4)];
    apply_level_update(&mut asks, &ask(101, 1), false);
    apply_level_update(&mut asks, &ask(99, 2), false);
    apply_level_update(&mut asks, &ask(103, 3), false);
    assert_eq!(
        asks,
        vec![level(99, 2), level(100, 5), level(101, 1), level(102, 4), level(103, 3)]
    );
}

#[test]
fn only_the_best_levels_are_kept() {
    let mut asks: Vec<Level> = (1..=20).map(|p| level(p * 10, 1)).collect();
    apply_level_update(&mut asks, &ask(5, 9), false);
    assert_eq!(asks.len(), 20);
    assert_eq!(asks[0], level(5, 9));
    assert_eq!(asks[19], level(190, 1));
    apply_level_update(&mut asks, &ask(500, 9), false);
    assert_eq!(asks.len(), 20);
    assert_eq!(asks[19], level(190, 1));
}

#[test]
fn longer_lists_are_cut_only_when_a_level_comes_in() {
    let mut bids: Vec<Level> = (0..25).map(|i| level(100 - i, 1)).collect();
    apply_level_update(&mut bids, &bid(90, 7), true);
    assert_eq!(bids.len(), 25);
    assert_eq!(bids[10], level(90, 7));
    apply_level_update(&mut bids, &bid(90, 0), true);
    assert_eq!(bids.len(), 24);
    apply_level_update(&mut bids, &bid(90, 3), true);
    assert_eq!(bids.len(), 20);
}

#[test]
fn replica_follows_the_book() {
    let mut book = OrderBook::new();
    let mut replica = LocalBook::default();
    replica.apply_snapshot(&book.snapshot(REPLICA_DEPTH));
    assert!(in_step(&book, &replica));
    let mut x: u64 = 7;
    for id in 1..=500 {
        x = x.wrapping_mul(6364136223846793005).wrapping_add(1442695040888963407);
        let side = if (x >> 33) % 2 == 0 { Side::Buy } else { Side::Sell };
        let price = 90 + (x >> 40) % 18;
        let qty = 1 + (x >> 50) % 9;
        assert!(follow(&mut book, &mut replica, Order { id, side, price, qty }));
        assert!(in_step(&book, &replica));
    }
    assert_eq!(replica.seq, 500);
}

#[test]
fn replica_that_is_cut_off_falls_out_of_step() {
    let mut book = OrderBook::new();
    let mut replica = LocalBook::default();
    for i in 0..21 {
        follow(&mut book, &mut replica, Order { id: i, side: Side::Sell, price: 100 + i, qty: 1 });
        assert!(in_step(&book, &replica));
    }
    // A trade that takes no level away does no harm.
    follow(&mut book, &mut replica, Order { id: 50, side: Side::Sell, price: 100, qty: 5 });
    follow(&mut book, &mut replica, Order { id: 51, side: Side::Buy, price: 100, qty: 2 });
    assert!(in_step(&book, &replica));
    // The best level goes, and the replica has not seen the one that moves up.
    assert!(follow(&mut book, &mut replica, Order { id: 52, side: Side::Buy, price: 100, qty: 4 }));
    assert!(!in_step(&book, &replica));
    assert_eq!(replica.asks.len(), 19);
    assert_eq!(book.snapshot(REPLICA_DEPTH).asks.len(), 20);
    // A snapshot brings it back in step.
    replica.apply_snapshot(&book.snapshot(REPLICA_DEPTH));
    assert!(in_step(&book, &replica));
}

#[test]
fn replica_that_loses_a_whole_side_stays_in_step() {
    let mut book = OrderBook::new();
    let mut replica = LocalBook::default();
    for i in 0..25 {
        follow(&mut book, &mut replica, Order { id: i, side: Side::Buy, price: 100 + i, qty: 1 });
    }
    follow(&mut book, &mut replica, Order { id: 60, side: Side::Sell, price: 1, qty: 30 });
    assert!(in_step(&book, &replica));
    assert!(replica.bids.is_empty());
    assert_eq!(replica.asks, vec![level(1, 5)]);
}

#[test]
fn replica_stays_ordered_whatever_comes() {
    let mut replica = LocalBook::default();
    let mut x: u64 = 3;
    for seq in 1..=200 {
        let mut changes = Vec::new();
        for _ in 0..3 {
            x = x.wrapping_mul(6364136223846793005).wrapping_add(1442695040888963407);
            let side = if (x >> 33) % 2 == 0 { Side::Buy } else { Side::Sell };
            changes.push(LevelUpdate { side, price: (x >> 40) % 60, qty: (x >> 50) % 3 });
        }
        assert!(replica.apply_delta(&BookDelta { seq, changes }));
        assert!(replica.bids.len() <= 20 && replica.asks.len() <= 20);
        assert!(replica.bids.windows(2).all(|w| w[0].price > w[1].price));
        assert!(replica.asks.windows(2).all(|w| w[0].price < w[1].price));
    }
}
