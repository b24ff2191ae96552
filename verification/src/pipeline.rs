//! The stages of the matching core. Every event passes the journal, the
//! matching engine and the publisher, in this order, one event at a time.
use crate::journal::{Journal, JournalEntry};
use crate::local_book::{ReplicaView, REPLICA_DEPTH};
use crate::model::{levels, top, BookView};
use crate::orderbook::{lemma_process_wf, OrderBook};
use crate::proto::{CoreMsg, GatewayMsg};
use crate::sync::{in_step, numbered, replica_follows, visible};
use crate::types::{EngineEvent, Order, OrderbookSnapshot, Side};
use vstd::prelude::*;

verus! {

/// What a slot of the pipeline asks for.
#[derive(Debug, Clone, Copy, PartialEq, Eq, Structural)]
pub enum EventKind {
    Empty,
    Order,
    SnapshotRequest,
}

impl Default for EventKind {
    fn default() -> (kind: Self)
        ensures
            kind == EventKind::Empty,
    {
        EventKind::Empty
    }
}

/// What the matching engine hands to the publisher.
#[derive(Debug, Clone, PartialEq, Eq)]
pub enum OutMsg {
    Event(EngineEvent),
    Snapshot(OrderbookSnapshot),
}

/// A slot of the pipeline. The result travels in a box, so that a slot has the
/// same size whatever it carries.
#[derive(Debug)]
pub struct Event {
    pub kind: EventKind,
    pub conn_id: u64,
    pub seq: u64,
    pub order: Order,
    pub result: Option<Box<OutMsg>>,
}

/// A slot that asks for nothing.
pub open spec fn empty_event() -> Event {
    Event {
        kind: EventKind::Empty,
        conn_id: 0,
        seq: 0,
        order: Order { id: 0, side: Side::Buy, price: 0, qty: 0 },
        result: None,
    }
}

impl Default for Event {
    fn default() -> (event: Self)
        ensures
            event == empty_event(),
    {
        Event {
            kind: EventKind::Empty,
            conn_id: 0,
            seq: 0,
            order: Order { id: 0, side: Side::Buy, price: 0, qty: 0 },
            result: None,
        }
    }
}

/// Whether `event` is the slot that `msg` makes.
pub open spec fn slot_of(msg: GatewayMsg, event: Event) -> bool {
    event == match msg {
        GatewayMsg::SubmitOrder { order } => Event {
            kind: EventKind::Order,
            order,
            ..empty_event()
        },
        GatewayMsg::Subscribe { connection_id } => Event {
            kind: EventKind::SnapshotRequest,
            conn_id: connection_id,
            ..empty_event()
        },
    }
}

/// The slot that the message of a gateway makes: an order to process, or a
/// request for a snapshot that goes back to the connection.
pub fn event_of(msg: GatewayMsg) -> (event: Event)
    ensures
        event == match msg {
            GatewayMsg::SubmitOrder { order } => Event {
                kind: EventKind::Order,
                order,
                ..empty_event()
            },
            GatewayMsg::Subscribe { connection_id } => Event {
                kind: EventKind::SnapshotRequest,
                conn_id: connection_id,
                ..empty_event()
            },
        },
        slot_of(msg, event),
{
    let mut event = Event::default();
    match msg {
        GatewayMsg::SubmitOrder { order } => {
            event.kind = EventKind::Order;
            event.order = order;
        },
        GatewayMsg::Subscribe { connection_id } => {
            event.kind = EventKind::SnapshotRequest;
            event.conn_id = connection_id;
        },
    }
    event
}

/// Whether the first stage takes the journal with `entries`, the last sequence
/// number `last` and the slot `event` to the ones behind them.
pub open spec fn journals(
    entries: Seq<JournalEntry>,
    last: u64,
    event: Event,
    entries_now: Seq<JournalEntry>,
    last_now: u64,
    event_now: Event,
) -> bool {
    if event.kind == EventKind::Order {
        &&& last_now == last + 1
        &&& event_now == (Event { seq: last_now, ..event })
        &&& entries_now == entries.push(JournalEntry { seq: last_now, order: event.order })
    } else {
        &&& last_now == last
        &&& event_now == event
        &&& entries_now == entries
    }
}

/// The first stage: gives an order the next sequence number and appends it to
/// the journal. Only orders are numbered, so that the deltas that the gateways
/// see are without gaps.
pub fn journal_stage(journal: &mut Journal, last_seq: &mut u64, event: &mut Event) -> (journaled:
    Result<(), std::io::Error>)
    requires
        old(event).kind == EventKind::Order ==> *old(last_seq) < u64::MAX,
    ensures
        journaled is Ok,
        final(journal).path() == old(journal).path(),
        if old(event).kind == EventKind::Order {
            &&& *final(last_seq) == *old(last_seq) + 1
            &&& *final(event) == (Event { seq: *final(last_seq), ..*old(event) })
            &&& final(journal).entries() == old(journal).entries().push(
                JournalEntry { seq: *final(last_seq), order: old(event).order },
            )
        } else {
            &&& *final(last_seq) == *old(last_seq)
            &&& *final(event) == *old(event)
            &&& final(journal).entries() == old(journal).entries()
        },
        journals(
            old(journal).entries(),
            *old(last_seq),
            *old(event),
            final(journal).entries(),
            *final(last_seq),
            *final(event),
        ),
{
    match event.kind {
        EventKind::Order => {
            *last_seq = *last_seq + 1;
            event.seq = *last_seq;
            journal.append(event.seq, &event.order)
        },
        EventKind::SnapshotRequest => Ok(()),
        EventKind::Empty => Ok(()),
    }
}

/// The book on which the matching engine works on `event`.
pub open spec fn stamped(book: BookView, event: Event) -> BookView {
    BookView { seq: event.seq, ..book }
}

/// Whether the second stage takes the book and the slot to `book_now` and
/// `event_now`.
pub open spec fn matches_slot(
    book: BookView,
    event: Event,
    book_now: BookView,
    event_now: Event,
) -> bool {
    match event.kind {
        EventKind::Order => {
            let on = stamped(book, event);
            &&& book_now == on.process(event.order)
            &&& event_now == (Event { result: event_now.result, ..event })
            &&& event_now.result matches Some(out)
            &&& *out matches OutMsg::Event(report)
            &&& on.reports(event.order, report)
        },
        EventKind::SnapshotRequest => {
            &&& book_now == book
            &&& event_now == (Event { result: event_now.result, ..event })
            &&& event_now.result matches Some(out)
            &&& *out matches OutMsg::Snapshot(snap)
            &&& snap.seq == book.seq
            &&& snap.bids@ == top(levels(book.bids), REPLICA_DEPTH as int)
            &&& snap.asks@ == top(levels(book.asks), REPLICA_DEPTH as int)
        },
        EventKind::Empty => {
            &&& book_now == book
            &&& event_now == event
        },
    }
}

/// The second stage: processes an order under its sequence number, or takes a
/// snapshot. A snapshot neither changes the book nor is it numbered.
pub fn matching_stage(book: &mut OrderBook, event: &mut Event)
    requires
        old(book).wf(),
        old(event).kind == EventKind::Order ==> old(book)@.has_room(old(event).order),
    ensures
        final(book).wf(),
        match old(event).kind {
            EventKind::Order => {
                let on = stamped(old(book)@, *old(event));
                &&& final(book)@ == on.process(old(event).order)
                &&& *final(event) == (Event { result: final(event).result, ..*old(event) })
                &&& final(event).result matches Some(out)
                &&& *out matches OutMsg::Event(report)
                &&& on.reports(old(event).order, report)
            },
            EventKind::SnapshotRequest => {
                &&& final(book)@ == old(book)@
                &&& *final(event) == (Event { result: final(event).result, ..*old(event) })
                &&& final(event).result matches Some(out)
                &&& *out matches OutMsg::Snapshot(snap)
                &&& snap.seq == old(book)@.seq
                &&& snap.bids@ == top(levels(old(book)@.bids), REPLICA_DEPTH as int)
                &&& snap.asks@ == top(levels(old(book)@.asks), REPLICA_DEPTH as int)
            },
            EventKind::Empty => {
                &&& final(book)@ == old(book)@
                &&& *final(event) == *old(event)
            },
        },
        matches_slot(old(book)@, *old(event), final(book)@, *final(event)),
{
    match event.kind {
        EventKind::Order => {
            book.set_seq(event.seq);
            let report = book.process(event.order);
            event.result = Some(Box::new(OutMsg::Event(report)));
        },
        EventKind::SnapshotRequest => {
            let snap = book.snapshot(REPLICA_DEPTH);
            event.result = Some(Box::new(OutMsg::Snapshot(snap)));
        },
        EventKind::Empty => {},
    }
}

/// Where the publisher sends what the matching engine gave it.
#[derive(Debug, Clone, PartialEq, Eq)]
pub enum Delivery {
    /// Nowhere: there is nothing to send.
    Nothing,
    /// To every gateway.
    Broadcast(CoreMsg),
    /// To the gateway on this connection alone.
    Reply { conn_id: u64, msg: CoreMsg },
}

/// Whether `delivery` is what the publisher makes of the slot `event`.
pub open spec fn publishes(event: Event, delivery: Delivery) -> bool {
    if event.kind == EventKind::Empty {
        delivery == Delivery::Nothing
    } else {
        match event.result {
            None => delivery == Delivery::Nothing,
            Some(out) => match *out {
                OutMsg::Event(report) => delivery == Delivery::Broadcast(
                    CoreMsg::Event { event: report },
                ),
                OutMsg::Snapshot(snap) => delivery == (Delivery::Reply {
                    conn_id: event.conn_id,
                    msg: CoreMsg::SnapshotReply { snap },
                }),
            },
        }
    }
}

/// Whether the publisher leaves the slot `event` as `event_now`.
pub open spec fn empties(event: Event, event_now: Event) -> bool {
    if event.kind == EventKind::Empty {
        event_now == event
    } else {
        event_now == (Event { result: None, ..event })
    }
}

/// The last stage: takes the result out of the slot. An engine event goes to
/// every gateway, a snapshot to the one that asked for it.
pub fn publish_stage(event: &mut Event) -> (delivery: Delivery)
    ensures
        old(event).kind == EventKind::Empty ==> *final(event) == *old(event),
        old(event).kind != EventKind::Empty ==> *final(event) == (Event {
            result: None,
            ..*old(event)
        }),
        delivery == if old(event).kind == EventKind::Empty {
            Delivery::Nothing
        } else {
            match old(event).result {
                None => Delivery::Nothing,
                Some(out) => match *out {
                    OutMsg::Event(event) => Delivery::Broadcast(CoreMsg::Event { event }),
                    OutMsg::Snapshot(snap) => Delivery::Reply {
                        conn_id: old(event).conn_id,
                        msg: CoreMsg::SnapshotReply { snap },
                    },
                },
            }
        },
        publishes(*old(event), delivery),
        empties(*old(event), *final(event)),
{
    match event.kind {
        EventKind::Empty => {
            return Delivery::Nothing;
        },
        _ => {},
    }
    match event.result.take() {
        None => Delivery::Nothing,
        Some(out) => match *out {
            OutMsg::Event(report) => Delivery::Broadcast(CoreMsg::Event { event: report }),
            OutMsg::Snapshot(snap) => Delivery::Reply {
                conn_id: event.conn_id,
                msg: CoreMsg::SnapshotReply { snap },
            },
        },
    }
}

/// The book that the orders of a journal make, one after the other.
pub open spec fn replayed(entries: Seq<JournalEntry>) -> BookView
    decreases entries.len(),
{
    if entries.len() == 0 {
        BookView { seq: 0, bids: Seq::empty(), asks: Seq::empty() }
    } else {
        let before = replayed(entries.drop_last());
        let entry = entries.last();
        BookView { seq: entry.seq, ..before }.process(entry.order)
    }
}

/// Whether `entries` are numbered from one on without a gap.
pub open spec fn without_gap(entries: Seq<JournalEntry>) -> bool {
    forall|i: int| 0 <= i < entries.len() ==> (#[trigger] entries[i]).seq == i + 1
}

/// The journal always knows the book: an order that is numbered next, appended
/// and then processed leaves a book that the journal, order by order, leads to
/// again, and a journal without a gap.
pub proof fn journal_knows_the_book(entries: Seq<JournalEntry>, book: BookView, order: Order)
    requires
        book == replayed(entries),
        without_gap(entries),
        book.seq == entries.len(),
        entries.len() < u64::MAX,
    ensures
        ({
            let seq = (entries.len() + 1) as u64;
            let appended = entries.push(JournalEntry { seq, order });
            let next = BookView { seq, ..book }.process(order);
            &&& next == replayed(appended)
            &&& without_gap(appended)
            &&& next.seq == appended.len()
        }),
{
    let seq = (entries.len() + 1) as u64;
    let appended = entries.push(JournalEntry { seq, order });
    assert(appended.drop_last() =~= entries);
}

/// The book once `msgs` have gone through the pipeline, one after the other.
pub open spec fn book_after(book: BookView, msgs: Seq<GatewayMsg>) -> BookView
    decreases msgs.len(),
{
    if msgs.len() == 0 {
        book
    } else {
        let before = book_after(book, msgs.drop_last());
        match msgs.last() {
            GatewayMsg::SubmitOrder { order } => numbered(before).process(order),
            GatewayMsg::Subscribe { .. } => before,
        }
    }
}

/// The replica of a gateway that takes in every delta that the core sends out
/// while `msgs` go through the pipeline.
pub open spec fn replica_after(
    replica: ReplicaView,
    book: BookView,
    msgs: Seq<GatewayMsg>,
) -> ReplicaView
    decreases msgs.len(),
{
    if msgs.len() == 0 {
        replica
    } else {
        let before = replica_after(replica, book, msgs.drop_last());
        match msgs.last() {
            GatewayMsg::SubmitOrder { order } => {
                let on = numbered(book_after(book, msgs.drop_last()));
                before.delta(on.seq, on.changes(order))
            },
            GatewayMsg::Subscribe { .. } => before,
        }
    }
}

/// The number of orders among `msgs`.
pub open spec fn order_count(msgs: Seq<GatewayMsg>) -> nat
    decreases msgs.len(),
{
    if msgs.len() == 0 {
        0
    } else {
        order_count(msgs.drop_last()) + if msgs.last() is SubmitOrder {
            1nat
        } else {
            0
        }
    }
}

/// Whether the book has room for every order among `msgs` when its turn comes.
pub open spec fn room_for_all(book: BookView, msgs: Seq<GatewayMsg>) -> bool
    decreases msgs.len(),
{
    msgs.len() == 0 || {
        &&& room_for_all(book, msgs.drop_last())
        &&& msgs.last() matches GatewayMsg::SubmitOrder { order } ==> book_after(
            book,
            msgs.drop_last(),
        ).has_room(order)
    }
}

/// Whether a replica sees all that it needs of every order among `msgs`.
pub open spec fn all_visible(book: BookView, msgs: Seq<GatewayMsg>) -> bool
    decreases msgs.len(),
{
    msgs.len() == 0 || {
        &&& all_visible(book, msgs.drop_last())
        &&& msgs.last() matches GatewayMsg::SubmitOrder { order } ==> visible(
            book_after(book, msgs.drop_last()),
            order,
        )
    }
}

/// The journal and the book count alike: where the book is as of the last order
/// that was numbered, the next one is matched on it under the next number.
pub proof fn journal_numbers_the_book(book: BookView, last_seq: u64, event: Event)
    requires
        event.kind == EventKind::Order,
        book.seq == last_seq,
        last_seq < u64::MAX,
    ensures
        ({
            let next = Event { seq: (last_seq + 1) as u64, ..event };
            &&& stamped(book, next) == numbered(book)
            &&& stamped(book, next).process(event.order).seq == next.seq
        }),
{
}

/// No gaps: a gateway whose replica is as of the same event as the book finds
/// every later delta next in sequence, whatever is asked of the core in
/// between, and so its replica stays as of the same event as the book.
pub proof fn no_delta_is_missed(replica: ReplicaView, book: BookView, msgs: Seq<GatewayMsg>)
    requires
        replica.seq == book.seq,
        book.seq + order_count(msgs) <= u64::MAX,
    ensures
        book_after(book, msgs).seq == book.seq + order_count(msgs),
        replica_after(replica, book, msgs).seq == book_after(book, msgs).seq,
    decreases msgs.len(),
{
    if msgs.len() > 0 {
        no_delta_is_missed(replica, book, msgs.drop_last());
    }
}

/// A gateway that starts in step with the book and takes in every delta stays
/// in step with it, order after order, as long as its replica sees all that it
/// needs to; and the book is never crossed.
pub proof fn replica_keeps_up(replica: ReplicaView, book: BookView, msgs: Seq<GatewayMsg>)
    requires
        book.wf(),
        in_step(replica, book),
        book.seq + order_count(msgs) <= u64::MAX,
        room_for_all(book, msgs),
        all_visible(book, msgs),
    ensures
        book_after(book, msgs).wf(),
        in_step(replica_after(replica, book, msgs), book_after(book, msgs)),
    decreases msgs.len(),
{
    if msgs.len() > 0 {
        let earlier = msgs.drop_last();
        let before = book_after(book, earlier);
        replica_keeps_up(replica, book, earlier);
        no_delta_is_missed(replica, book, earlier);
        match msgs.last() {
            GatewayMsg::SubmitOrder { order } => {
                replica_follows(replica_after(replica, book, earlier), before, order);
                lemma_process_wf(numbered(before), order);
            },
            GatewayMsg::Subscribe { .. } => {},
        }
    }
}

/// An order that a gateway sends is journaled and matched under the next number,
/// as it was sent, on the book as it stands, and every gateway is told the one
/// event that came of it.
pub proof fn order_goes_through_the_core(
    order: Order,
    entries: Seq<JournalEntry>,
    last: u64,
    book: BookView,
    slot: Event,
    entries_now: Seq<JournalEntry>,
    last_now: u64,
    journaled: Event,
    book_now: BookView,
    matched: Event,
    delivery: Delivery,
)
    requires
        slot_of((GatewayMsg::SubmitOrder { order }), slot),
        journals(entries, last, slot, entries_now, last_now, journaled),
        matches_slot(book, journaled, book_now, matched),
        publishes(matched, delivery),
    ensures
        last_now == last + 1,
        entries_now.len() == entries.len() + 1,
        forall|i: int| 0 <= i < entries.len() ==> #[trigger] entries_now[i] == entries[i],
        entries_now[entries.len() as int].seq == last_now,
        entries_now[entries.len() as int].order == order,
        delivery is Broadcast,
        delivery->Broadcast_0 is Event,
        (BookView { seq: last_now, bids: book.bids, asks: book.asks }).reports(
            order,
            delivery->Broadcast_0->event,
        ),
        book_now == (BookView { seq: last_now, bids: book.bids, asks: book.asks }).process(order),
{
}

/// A subscription changes neither the journal nor the book nor the numbers, and
/// the gateway that subscribed, no other, is sent the book as it stands: its
/// number and the best twenty levels of each side.
pub proof fn subscription_goes_through_the_core(
    connection_id: u64,
    entries: Seq<JournalEntry>,
    last: u64,
    book: BookView,
    slot: Event,
    entries_now: Seq<JournalEntry>,
    last_now: u64,
    journaled: Event,
    book_now: BookView,
    matched: Event,
    delivery: Delivery,
)
    requires
        slot_of((GatewayMsg::Subscribe { connection_id }), slot),
        journals(entries, last, slot, entries_now, last_now, journaled),
        matches_slot(book, journaled, book_now, matched),
        publishes(matched, delivery),
    ensures
        last_now == last,
        entries_now == entries,
        book_now == book,
        delivery is Reply,
        delivery->conn_id == connection_id,
        delivery->msg is SnapshotReply,
        delivery->msg->snap.seq == book.seq,
        delivery->msg->snap.bids@ == top(levels(book.bids), 20),
        delivery->msg->snap.asks@ == top(levels(book.asks), 20),
{
}

/// An empty slot passes through the core and leaves everything alone.
pub proof fn empty_slot_goes_through_the_core(
    slot: Event,
    entries: Seq<JournalEntry>,
    last: u64,
    book: BookView,
    entries_now: Seq<JournalEntry>,
    last_now: u64,
    journaled: Event,
    book_now: BookView,
    matched: Event,
    delivery: Delivery,
)
    requires
        slot.kind == EventKind::Empty,
        journals(entries, last, slot, entries_now, last_now, journaled),
        matches_slot(book, journaled, book_now, matched),
        publishes(matched, delivery),
    ensures
        last_now == last,
        entries_now == entries,
        book_now == book,
        matched == slot,
        delivery == Delivery::Nothing,
{
}

/// Nothing is sent out twice: once the publisher has had a slot, publishing it
/// again sends nothing, and the slot still tells what it was for.
pub proof fn nothing_is_published_twice(
    event: Event,
    delivery: Delivery,
    event_now: Event,
    again: Delivery,
)
    requires
        publishes(event, delivery),
        empties(event, event_now),
        publishes(event_now, again),
    ensures
        again == Delivery::Nothing,
        event_now.kind == event.kind,
        event_now.conn_id == event.conn_id,
        event_now.seq == event.seq,
        event_now.order == event.order,
        event.kind != EventKind::Empty ==> event_now.result is None,
        event.kind != EventKind::Empty && event.result is Some <==> delivery != Delivery::Nothing,
{
}

} // verus!
