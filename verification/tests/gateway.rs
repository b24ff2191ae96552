use maple::config::{load_config, parse_gateway_id, ConfigError};
use maple::feed::{feed_step, FeedAction, FeedEvent};
use maple::local_book::LocalBook;
use maple::order_id::{compose_order_id, next_order_id};
use maple::proto::{CoreMsg, GatewayMsg};
use maple::reader::{bootstrap_step, core_reader_step, subscribe, BootstrapStep, ReaderStep};
use maple::submit::{accept_order, Handover, SubmitReply, SubmitRequest};
use maple::transport::TransportError;
use maple::types::{
    BookDelta, EngineEvent, Fill, Level, LevelUpdate, Order, OrderbookSnapshot, Side,
};
use std::collections::HashSet;
use std::sync::atomic::{AtomicU64, Ordering};

fn set(text: &str) -> Option<String> {
    Some(text.to_string())
}

fn io_error() -> TransportError {
    TransportError::Io(std::io::Error::new(std::io::ErrorKind::BrokenPipe, "gone"))
}

fn serde_error() -> TransportError {
    TransportError::Serde(serde_json::from_str::<u64>("?").unwrap_err())
}

fn snap() -> OrderbookSnapshot {
    OrderbookSnapshot { seq: 6, bids: vec![Level { price: 100, qty: 5 }], asks: vec![] }
}

fn fill() -> Fill {
    Fill { maker_order_id: 1, taker_order_id: 2, price: 100, qty: 5 }
}

fn delta(seq: u64) -> BookDelta {
    BookDelta { seq, changes: vec![LevelUpdate { side: Side::Buy, price: 100, qty: 0 }] }
}

fn event(event: EngineEvent) -> Result<Option<CoreMsg>, TransportError> {
    Ok(Some(CoreMsg::Event { event }))
}

#[test]
fn config_has_defaults() {
    let cfg = load_config(set("1"), None, None).ok().unwrap();
    assert_eq!(cfg.gateway_id, 1);
    assert_eq!(cfg.core_addr, "127.0.0.1:7000");
    assert_eq!(cfg.http_addr, "0.0.0.0:8080");
}

#[test]
fn config_takes_what_is_set() {
    let cfg = load_config(set("2"), set("10.0.0.1:9"), set("0.0.0.0:8081")).ok().unwrap();
    assert_eq!(cfg.gateway_id, 2);
    assert_eq!(cfg.core_addr, "10.0.0.1:9");
    assert_eq!(cfg.http_addr, "0.0.0.0:8081");
}

#[test]
fn config_needs_a_gateway_id() {
    let error = load_config(None, set("a"), set("b")).err().unwrap();
    assert_eq!(error, ConfigError::MissingGatewayId);
    assert_eq!(error.message(), "GATEWAY_ID env var is required (u16)");
    let error = load_config(set("gateway"), None, None).err().unwrap();
    assert_eq!(error, ConfigError::InvalidGatewayId);
    assert_eq!(error.message(), "GATEWAY_ID must be a valid u16");
}

#[test]
fn gateway_id_is_read_like_any_u16() {
    for text in [
        "0", "1", "65535", "65536", "+5", "+", "", "-1", "-0", " 1", "1 ", "007", "00000065535",
        "00000065536", "99999999999999999999", "1_000", "0x10", "1.0", "++1", "1+", "\u{0661}",
        "\u{ff11}", "4294967296", "4294967297", "+65535", "+65536", "é", "12a", "a12",
    ] {
        assert_eq!(parse_gateway_id(text), text.parse::<u16>().ok(), "{text:?}");
    }
    for id in 0..=u16::MAX {
        assert_eq!(parse_gateway_id(&id.to_string()), Some(id));
    }
}

#[test]
fn order_id_holds_gateway_and_count() {
    assert_eq!(compose_order_id(1, 1), 281474976710657);
    assert_eq!(compose_order_id(0, 0), 0);
    assert_eq!(compose_order_id(2, 5), 2 * (1 << 48) + 5);
    assert_eq!(compose_order_id(u16::MAX, u64::MAX), u64::MAX);
    assert_eq!(compose_order_id(3, 1 << 48), 3 << 48);
}

#[test]
fn order_ids_count_up() {
    let counter = AtomicU64::new(1);
    assert_eq!(next_order_id(1, &counter), 281474976710657);
    assert_eq!(next_order_id(1, &counter), 281474976710658);
    assert_eq!(counter.load(Ordering::Relaxed), 3);
}

#[test]
fn ids_of_two_gateways_differ() {
    let mut ids = HashSet::new();
    for gateway in [0, 1, 2, u16::MAX] {
        for local in [0, 1, 2, (1 << 48) - 1] {
            assert!(ids.insert(compose_order_id(gateway, local)));
            assert_eq!(compose_order_id(gateway, local) >> 48, gateway as u64);
        }
    }
    assert!(!ids.insert(compose_order_id(1, 1 << 48)));
}

#[test]
fn valid_order_gets_an_id() {
    let counter = AtomicU64::new(1);
    let req = SubmitRequest { side: Side::Sell, price: 100, qty: 5 };
    assert_eq!(
        accept_order(&req, 1, &counter),
        Ok(Order { id: 281474976710657, side: Side::Sell, price: 100, qty: 5 })
    );
}

#[test]
fn order_without_price_or_quantity_is_refused() {
    let counter = AtomicU64::new(1);
    for (price, qty) in [(0, 5), (5, 0), (0, 0)] {
        let req = SubmitRequest { side: Side::Buy, price, qty };
        assert_eq!(accept_order(&req, 1, &counter), Err(SubmitReply::Invalid));
        assert_eq!(req.order(9), Err(SubmitReply::Invalid));
    }
    // No id is used up.
    assert_eq!(counter.load(Ordering::Relaxed), 1);
}

#[test]
fn request_becomes_the_order_under_an_id() {
    let req = SubmitRequest { side: Side::Buy, price: 7, qty: 8 };
    assert_eq!(req.order(9), Ok(Order { id: 9, side: Side::Buy, price: 7, qty: 8 }));
}

#[test]
fn replies_to_a_client() {
    let accepted = SubmitReply::after(9, Handover::Sent);
    assert_eq!(accepted, SubmitReply::Accepted { id: 9 });
    assert_eq!(accepted.status(), 200);
    assert_eq!(accepted.error(), None);
    let internal = SubmitReply::after(9, Handover::NotEncoded);
    assert_eq!(internal, SubmitReply::Internal);
    assert_eq!(internal.status(), 500);
    assert_eq!(internal.error(), None);
    let unavailable = SubmitReply::after(9, Handover::NotSent);
    assert_eq!(unavailable, SubmitReply::Unavailable);
    assert_eq!(unavailable.status(), 503);
    assert_eq!(unavailable.error().unwrap(), "core unavailable");
    assert_eq!(SubmitReply::Invalid.status(), 400);
    assert_eq!(SubmitReply::Invalid.error().unwrap(), "price and qty must be non-zero");
}

#[test]
fn gateway_subscribes_under_its_id() {
    assert_eq!(subscribe(7), GatewayMsg::Subscribe { connection_id: 7 });
    assert_eq!(subscribe(u16::MAX), GatewayMsg::Subscribe { connection_id: 65535 });
}

#[test]
fn bootstrap_waits_for_the_snapshot() {
    let early = event(EngineEvent::Resting { order_id: 1, delta: delta(1) });
    assert!(matches!(bootstrap_step(early), BootstrapStep::Wait));
    match bootstrap_step(Ok(Some(CoreMsg::SnapshotReply { snap: snap() }))) {
        BootstrapStep::Ready(got) => assert_eq!(got, snap()),
        _ => panic!("no snapshot"),
    }
}

#[test]
fn bootstrap_fails_without_a_core() {
    assert!(matches!(bootstrap_step(Ok(None)), BootstrapStep::Disconnected));
    assert!(matches!(
        bootstrap_step(Err(io_error())),
        BootstrapStep::Failed(TransportError::Io(_))
    ));
    assert!(matches!(
        bootstrap_step(Err(serde_error())),
        BootstrapStep::Failed(TransportError::Serde(_))
    ));
}

#[test]
fn reader_applies_the_delta_and_passes_fills_on() {
    let mut book = LocalBook::default();
    book.apply_snapshot(&snap());
    let msg = event(EngineEvent::Filled { taker_id: 2, fills: vec![fill()], delta: delta(7) });
    match core_reader_step(&mut book, msg) {
        ReaderStep::Continue { fills, gap } => {
            assert_eq!(fills, vec![fill()]);
            assert!(!gap);
        }
        ReaderStep::Stop => panic!("stopped"),
    }
    assert_eq!(book.seq, 7);
    assert!(book.bids.is_empty());
}

#[test]
fn reader_applies_the_delta_of_a_resting_order() {
    let mut book = LocalBook::default();
    book.apply_snapshot(&snap());
    let msg = event(EngineEvent::Resting { order_id: 2, delta: delta(7) });
    match core_reader_step(&mut book, msg) {
        ReaderStep::Continue { fills, gap } => assert!(fills.is_empty() && !gap),
        ReaderStep::Stop => panic!("stopped"),
    }
    assert_eq!(book.seq, 7);
    assert!(book.bids.is_empty());
}

#[test]
fn reader_passes_fills_on_despite_a_gap() {
    let mut book = LocalBook::default();
    book.apply_snapshot(&snap());
    let msg = event(EngineEvent::Filled { taker_id: 2, fills: vec![fill()], delta: delta(9) });
    match core_reader_step(&mut book, msg) {
        ReaderStep::Continue { fills, gap } => {
            assert_eq!(fills, vec![fill()]);
            assert!(gap);
        }
        ReaderStep::Stop => panic!("stopped"),
    }
    assert_eq!(book.seq, 6);
    assert_eq!(book.bids, snap().bids);
}

#[test]
fn reader_takes_a_late_snapshot() {
    let mut book = LocalBook { seq: u64::MAX, bids: vec![], asks: vec![] };
    match core_reader_step(&mut book, Ok(Some(CoreMsg::SnapshotReply { snap: snap() }))) {
        ReaderStep::Continue { fills, gap } => assert!(fills.is_empty() && !gap),
        ReaderStep::Stop => panic!("stopped"),
    }
    assert_eq!(book.seq, 6);
    assert_eq!(book.bids, snap().bids);
}

#[test]
fn reader_passes_over_what_is_no_message() {
    let mut book = LocalBook::default();
    book.apply_snapshot(&snap());
    match core_reader_step(&mut book, Err(serde_error())) {
        ReaderStep::Continue { fills, gap } => assert!(fills.is_empty() && !gap),
        ReaderStep::Stop => panic!("stopped"),
    }
    assert_eq!(book.seq, 6);
}

#[test]
fn reader_stops_at_the_end_of_the_connection() {
    let mut book = LocalBook::default();
    book.apply_snapshot(&snap());
    assert!(matches!(core_reader_step(&mut book, Err(io_error())), ReaderStep::Stop));
    assert!(matches!(core_reader_step(&mut book, Ok(None)), ReaderStep::Stop));
    assert_eq!(book.seq, 6);
    assert_eq!(book.bids, snap().bids);
}

#[test]
fn feed_sends_fills() {
    let action = feed_step(FeedEvent::Fill(fill()));
    assert_eq!(action, FeedAction::SendFill(fill()));
    assert!(action.goes_on(true));
    assert!(!action.goes_on(false));
}

#[test]
fn feed_disconnects_a_client_that_lags() {
    let action = feed_step(FeedEvent::Lagged(3));
    assert_eq!(action, FeedAction::SendClose);
    assert!(!action.goes_on(true));
}

#[test]
fn feed_ends_with_the_client_or_the_core() {
    for event in [FeedEvent::FeedClosed, FeedEvent::ClientClosed] {
        let action = feed_step(event);
        assert_eq!(action, FeedAction::Stop);
        assert!(!action.goes_on(true));
    }
}

#[test]
fn feed_answers_pings_and_nothing_else() {
    let action = feed_step(FeedEvent::ClientPing(vec![1, 2]));
    assert_eq!(action, FeedAction::SendPong(vec![1, 2]));
    assert!(action.goes_on(true));
    assert!(!action.goes_on(false));
    let action = feed_step(FeedEvent::ClientOther);
    assert_eq!(action, FeedAction::Wait);
    assert!(action.goes_on(false));
}
