use maple::journal::{Journal, JournalEntry};
use maple::local_book::LocalBook;
use maple::orderbook::OrderBook;
use maple::pipeline::{
    event_of, journal_stage, matching_stage, publish_stage, Delivery, Event, EventKind, OutMsg,
};
use maple::proto::{CoreMsg, GatewayMsg};
use maple::reader::{core_reader_step, subscribe, ReaderStep};
use maple::submit::SubmitRequest;
use maple::types::{
    BookDelta, EngineEvent, Fill, Level, LevelUpdate, Order, OrderbookSnapshot, Side,
};

/// A core with its stages one behind the other.
struct Core {
    journal: Journal,
    last_seq: u64,
    book: OrderBook,
}

impl Core {
    fn start() -> Core {
        Core {
            journal: Journal::open("orders.journal".to_string()).unwrap(),
            last_seq: 0,
            book: OrderBook::new(),
        }
    }

    fn handle(&mut self, msg: GatewayMsg) -> Delivery {
        let mut event = event_of(msg);
        journal_stage(&mut self.journal, &mut self.last_seq, &mut event).unwrap();
        matching_stage(&mut self.book, &mut event);
        publish_stage(&mut event)
    }
}

/// A gateway with its replica and the fills that its clients see.
struct Gateway {
    id: u16,
    book: LocalBook,
    seen: Vec<Fill>,
    gaps: usize,
}

impl Gateway {
    fn connect(id: u16, core: &mut Core) -> Gateway {
        let mut book = LocalBook::default();
        match core.handle(subscribe(id)) {
            Delivery::Reply { conn_id, msg: CoreMsg::SnapshotReply { snap } } => {
                assert_eq!(conn_id, id as u64);
                book.apply_snapshot(&snap);
            }
            _ => panic!("no snapshot"),
        }
        Gateway { id, book, seen: Vec::new(), gaps: 0 }
    }

    fn hear(&mut self, delivery: &Delivery) {
        match delivery {
            Delivery::Broadcast(msg) => {
                match core_reader_step(&mut self.book, Ok(Some(msg.clone()))) {
                    ReaderStep::Continue { fills, gap } => {
                        self.seen.extend(fills);
                        self.gaps += gap as usize;
                    }
                    ReaderStep::Stop => panic!("stopped"),
                }
            }
            Delivery::Reply { conn_id, msg: CoreMsg::SnapshotReply { snap } } => {
                if *conn_id == self.id as u64 {
                    self.book.apply_snapshot(snap);
                }
            }
            _ => panic!("nothing to hear"),
        }
    }
}

fn order(id: u64, side: Side, price: u64, qty: u64) -> GatewayMsg {
    let req = SubmitRequest { side, price, qty };
    GatewayMsg::SubmitOrder { order: req.order(id).unwrap() }
}

fn level(price: u64, qty: u64) -> Level {
    Level { price, qty }
}

#[test]
fn slot_starts_empty() {
    let event = Event::default();
    assert_eq!(event.kind, EventKind::Empty);
    assert_eq!(event.kind, EventKind::default());
    assert_eq!(event.conn_id, 0);
    assert_eq!(event.seq, 0);
    assert_eq!(event.order, Order::default());
    assert!(event.result.is_none());
}

#[test]
fn messages_become_slots() {
    let event = event_of(order(4, Side::Sell, 100, 5));
    assert_eq!(event.kind, EventKind::Order);
    assert_eq!(event.order, Order { id: 4, side: Side::Sell, price: 100, qty: 5 });
    assert!(event.result.is_none());
    let event = event_of(GatewayMsg::Subscribe { connection_id: 3 });
    assert_eq!(event.kind, EventKind::SnapshotRequest);
    assert_eq!(event.conn_id, 3);
    assert_eq!(event.order, Order::default());
}

#[test]
fn empty_slot_passes_through() {
    let mut core = Core::start();
    let mut event = Event::default();
    journal_stage(&mut core.journal, &mut core.last_seq, &mut event).unwrap();
    matching_stage(&mut core.book, &mut event);
    assert!(event.result.is_none());
    assert_eq!(publish_stage(&mut event), Delivery::Nothing);
    assert_eq!(core.last_seq, 0);
}

#[test]
fn slot_without_result_is_not_published() {
    let mut event = event_of(order(4, Side::Sell, 100, 5));
    assert_eq!(publish_stage(&mut event), Delivery::Nothing);
    let out = OutMsg::Event(EngineEvent::Resting {
        order_id: 1,
        delta: BookDelta { seq: 1, changes: vec![] },
    });
    let mut event = Event { result: Some(Box::new(out)), ..Event::default() };
    assert_eq!(publish_stage(&mut event), Delivery::Nothing);
    assert!(event.result.is_some());
}

#[test]
fn orders_are_numbered_from_one() {
    let mut core = Core::start();
    let mut event = event_of(order(1, Side::Buy, 100, 5));
    journal_stage(&mut core.journal, &mut core.last_seq, &mut event).unwrap();
    assert_eq!(event.seq, 1);
    let mut event = event_of(subscribe(1));
    journal_stage(&mut core.journal, &mut core.last_seq, &mut event).unwrap();
    assert_eq!(event.seq, 0);
    assert_eq!(core.last_seq, 1);
    let mut event = event_of(order(2, Side::Buy, 100, 5));
    journal_stage(&mut core.journal, &mut core.last_seq, &mut event).unwrap();
    assert_eq!(event.seq, 2);
}

#[test]
fn result_leaves_the_slot() {
    let mut core = Core::start();
    let mut event = event_of(order(1, Side::Buy, 100, 5));
    journal_stage(&mut core.journal, &mut core.last_seq, &mut event).unwrap();
    matching_stage(&mut core.book, &mut event);
    let report = EngineEvent::Resting {
        order_id: 1,
        delta: BookDelta {
            seq: 1,
            changes: vec![LevelUpdate { side: Side::Buy, price: 100, qty: 5 }],
        },
    };
    assert_eq!(*event.result.clone().unwrap(), OutMsg::Event(report.clone()));
    assert_eq!(
        publish_stage(&mut event),
        Delivery::Broadcast(CoreMsg::Event { event: report })
    );
    assert!(event.result.is_none());
    assert_eq!(event.order.id, 1);
}

#[test]
fn journal_takes_every_order() {
    let mut journal = Journal::open("orders.journal".to_string()).unwrap();
    let order = Order { id: 1, side: Side::Buy, price: 100, qty: 5 };
    assert!(journal.append(1, &order).is_ok());
    assert!(journal.append(2, &order).is_ok());
    let entry = JournalEntry { seq: 1, order };
    assert_eq!(entry.order, order);
}

#[test]
fn snapshot_goes_to_the_gateway_that_asked() {
    let mut core = Core::start();
    core.handle(order(1, Side::Buy, 100, 5));
    core.handle(order(2, Side::Sell, 110, 2));
    assert_eq!(
        core.handle(subscribe(9)),
        Delivery::Reply {
            conn_id: 9,
            msg: CoreMsg::SnapshotReply {
                snap: OrderbookSnapshot {
                    seq: 2,
                    bids: vec![level(100, 5)],
                    asks: vec![level(110, 2)],
                },
            },
        }
    );
}

#[test]
fn snapshot_holds_the_best_twenty_levels() {
    let mut core = Core::start();
    for i in 0..25 {
        core.handle(order(i, Side::Sell, 100 + i, 1));
    }
    match core.handle(subscribe(1)) {
        Delivery::Reply { msg: CoreMsg::SnapshotReply { snap }, .. } => {
            assert_eq!(snap.seq, 25);
            assert_eq!(snap.asks.len(), 20);
            assert_eq!(snap.asks[0], level(100, 1));
            assert_eq!(snap.asks[19], level(119, 1));
        }
        _ => panic!("no snapshot"),
    }
}

#[test]
fn correctness() {
    let mut core = Core::start();
    let mut gw = Gateway::connect(1, &mut core);
    gw.hear(&core.handle(order(1, Side::Buy, 100, 5)));
    assert_eq!(gw.book.bids, vec![level(100, 5)]);
    assert!(gw.book.asks.is_empty());
    gw.hear(&core.handle(order(2, Side::Sell, 100, 5)));
    assert_eq!(
        gw.seen,
        vec![Fill { maker_order_id: 1, taker_order_id: 2, price: 100, qty: 5 }]
    );
    assert!(gw.book.bids.is_empty());
    assert!(gw.book.asks.is_empty());
}

#[test]
fn third_order_leaves_a_bid() {
    let mut core = Core::start();
    let mut gw = Gateway::connect(1, &mut core);
    gw.hear(&core.handle(order(1, Side::Sell, 90, 5)));
    gw.hear(&core.handle(order(2, Side::Buy, 90, 5)));
    gw.hear(&core.handle(order(3, Side::Buy, 100, 5)));
    assert_eq!(gw.book.seq, 3);
    assert_eq!(gw.book.bids, vec![level(100, 5)]);
    assert!(gw.book.asks.is_empty());
}

#[test]
fn multi_gateway() {
    let mut core = Core::start();
    let mut gw1 = Gateway::connect(1, &mut core);
    let mut gw2 = Gateway::connect(2, &mut core);
    for msg in [order(1 << 48, Side::Buy, 300, 3), order(2 << 48, Side::Sell, 300, 3)] {
        let delivery = core.handle(msg);
        gw1.hear(&delivery);
        gw2.hear(&delivery);
    }
    let fill =
        Fill { maker_order_id: 1 << 48, taker_order_id: 2 << 48, price: 300, qty: 3 };
    assert_eq!(gw1.seen, vec![fill]);
    assert_eq!(gw2.seen, vec![fill]);
}

#[test]
fn snapshot_consistency() {
    let mut core = Core::start();
    let mut gw1 = Gateway::connect(1, &mut core);
    for msg in [
        order(1, Side::Buy, 400, 10),
        order(2, Side::Buy, 401, 5),
        order(3, Side::Sell, 500, 7),
    ] {
        gw1.hear(&core.handle(msg));
    }
    let gw2 = Gateway::connect(2, &mut core);
    assert_eq!(gw2.book.bids, vec![level(401, 5), level(400, 10)]);
    assert_eq!(gw2.book.asks, vec![level(500, 7)]);
    assert_eq!(gw2.book.bids, gw1.book.bids);
    assert_eq!(gw2.book.asks, gw1.book.asks);
    assert_eq!(gw2.book.seq, gw1.book.seq);
}

#[test]
fn no_gaps_whatever_is_asked_in_between() {
    let mut core = Core::start();
    let mut gateways = vec![Gateway::connect(1, &mut core)];
    let mut x: u64 = 5;
    for id in 1..=200 {
        x = x.wrapping_mul(6364136223846793005).wrapping_add(1442695040888963407);
        let side = if (x >> 33) % 2 == 0 { Side::Buy } else { Side::Sell };
        if id % 50 == 0 {
            let gateway = Gateway::connect(1 + (id / 50) as u16, &mut core);
            gateways.push(gateway);
        }
        let delivery = core.handle(order(id, side, 90 + (x >> 40) % 15, 1 + (x >> 50) % 5));
        for gateway in &mut gateways {
            gateway.hear(&delivery);
        }
    }
    let snap = core.book.snapshot(20);
    for gateway in &gateways {
        assert_eq!(gateway.gaps, 0);
        assert_eq!(gateway.book.seq, 200);
        assert_eq!(gateway.book.bids, snap.bids);
        assert_eq!(gateway.book.asks, snap.asks);
    }
}

#[test]
fn replay_leads_to_the_same_book() {
    let mut core = Core::start();
    let mut journaled: Vec<JournalEntry> = Vec::new();
    let mut x: u64 = 11;
    for id in 1..=100 {
        x = x.wrapping_mul(6364136223846793005).wrapping_add(1442695040888963407);
        let side = if (x >> 33) % 2 == 0 { Side::Buy } else { Side::Sell };
        let mut event = event_of(order(id, side, 90 + (x >> 40) % 15, 1 + (x >> 50) % 5));
        journal_stage(&mut core.journal, &mut core.last_seq, &mut event).unwrap();
        journaled.push(JournalEntry { seq: event.seq, order: event.order });
        matching_stage(&mut core.book, &mut event);
    }
    let mut replayed = OrderBook::new();
    for entry in &journaled {
        replayed.set_seq(entry.seq);
        replayed.process(entry.order);
    }
    assert_eq!(replayed.snapshot(100), core.book.snapshot(100));
    assert_eq!(journaled[99].seq, 100);
}
