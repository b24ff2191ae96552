//! What a gateway does with the messages of the core.
use crate::local_book::{LocalBook, ReplicaView};
use crate::proto::{CoreMsg, GatewayMsg};
use crate::transport::TransportError;
use crate::types::{BookDelta, EngineEvent, Fill, OrderbookSnapshot};
use vstd::prelude::*;

verus! {

/// Whether `msg` is the message by which gateway `gateway_id` subscribes.
pub open spec fn subscribes(gateway_id: u16, msg: GatewayMsg) -> bool {
    msg matches GatewayMsg::Subscribe { connection_id } && connection_id == gateway_id
}

/// The message by which gateway `gateway_id` asks for a snapshot and for all
/// events behind it.
pub fn subscribe(gateway_id: u16) -> (msg: GatewayMsg)
    ensures
        msg == (GatewayMsg::Subscribe { connection_id: gateway_id as u64 }),
        subscribes(gateway_id, msg),
{
    GatewayMsg::Subscribe { connection_id: gateway_id as u64 }
}

/// How a gateway that waits for its first snapshot goes on.
#[derive(Debug)]
pub enum BootstrapStep {
    /// The snapshot is there.
    Ready(OrderbookSnapshot),
    /// Wait for the next message.
    Wait,
    /// The connection failed, or sent what is no message.
    Failed(TransportError),
    /// The core has gone before it sent a snapshot.
    Disconnected,
}

/// Whether a gateway that waits for its first snapshot goes on by `step` once
/// `received` has come in.
pub open spec fn bootstraps(
    received: Result<Option<CoreMsg>, TransportError>,
    step: BootstrapStep,
) -> bool {
    step == match received {
        Ok(Some(CoreMsg::SnapshotReply { snap })) => BootstrapStep::Ready(snap),
        Ok(Some(CoreMsg::Event { .. })) => BootstrapStep::Wait,
        Ok(None) => BootstrapStep::Disconnected,
        Err(error) => BootstrapStep::Failed(error),
    }
}

/// How a gateway that waits for its first snapshot goes on once `received` has
/// come in. Events from before the snapshot are part of it already.
pub fn bootstrap_step(received: Result<Option<CoreMsg>, TransportError>) -> (step: BootstrapStep)
    ensures
        step == match received {
            Ok(Some(CoreMsg::SnapshotReply { snap })) => BootstrapStep::Ready(snap),
            Ok(Some(CoreMsg::Event { .. })) => BootstrapStep::Wait,
            Ok(None) => BootstrapStep::Disconnected,
            Err(error) => BootstrapStep::Failed(error),
        },
        bootstraps(received, step),
{
    match received {
        Ok(Some(CoreMsg::SnapshotReply { snap })) => BootstrapStep::Ready(snap),
        Ok(Some(CoreMsg::Event { .. })) => BootstrapStep::Wait,
        Ok(None) => BootstrapStep::Disconnected,
        Err(error) => BootstrapStep::Failed(error),
    }
}

/// How the reader of the core's messages goes on.
#[derive(Debug)]
pub enum ReaderStep {
    /// Pass `fills` on to the clients and read the next message. `gap` tells
    /// that a delta did not fit the replica and was left out.
    Continue { fills: Vec<Fill>, gap: bool },
    /// Stop reading.
    Stop,
}

/// Whether `step` goes on with `fills` to pass on, after a gap or not.
pub open spec fn goes_on(step: ReaderStep, fills: Seq<Fill>, gap: bool) -> bool {
    step matches ReaderStep::Continue { fills: passed, gap: missed } && passed@ == fills && missed
        == gap
}

/// The delta that `event` carries.
pub open spec fn delta_of(event: EngineEvent) -> BookDelta {
    match event {
        EngineEvent::Filled { delta, .. } => delta,
        EngineEvent::Resting { delta, .. } => delta,
    }
}

/// The fills that `event` carries.
pub open spec fn fills_of(event: EngineEvent) -> Seq<Fill> {
    match event {
        EngineEvent::Filled { fills, .. } => fills@,
        EngineEvent::Resting { .. } => Seq::empty(),
    }
}

/// Whether a reader whose replica is `before` takes in `received` by going on
/// by `step` with the replica `after`.
pub open spec fn reads(
    before: ReplicaView,
    received: Result<Option<CoreMsg>, TransportError>,
    after: ReplicaView,
    step: ReaderStep,
) -> bool {
    match received {
        Ok(Some(CoreMsg::Event { event })) => {
            let delta = delta_of(event);
            &&& after == before.delta(delta.seq, delta.changes@)
            &&& goes_on(step, fills_of(event), delta.seq != before.seq + 1)
        },
        Ok(Some(CoreMsg::SnapshotReply { snap })) => {
            &&& after == (ReplicaView { seq: snap.seq, bids: snap.bids@, asks: snap.asks@ })
            &&& goes_on(step, Seq::empty(), false)
        },
        Err(TransportError::Serde(_)) => {
            &&& after == before
            &&& goes_on(step, Seq::empty(), false)
        },
        Err(TransportError::Io(_)) | Ok(None) => {
            &&& after == before
            &&& step is Stop
        },
    }
}

/// Takes in the next message of the core. The delta of an event goes to the
/// replica and its fills to the clients; a snapshot replaces the replica; what
/// is no message is passed over; and at the end of the connection the reader
/// stops.
pub fn core_reader_step(
    book: &mut LocalBook,
    received: Result<Option<CoreMsg>, TransportError>,
) -> (step: ReaderStep)
    requires
        received matches Ok(Some(CoreMsg::Event { event })) ==> old(book).seq < u64::MAX,
    ensures
        match received {
            Ok(Some(CoreMsg::Event { event })) => {
                let delta = delta_of(event);
                &&& final(book)@ == old(book)@.delta(delta.seq, delta.changes@)
                &&& goes_on(step, fills_of(event), delta.seq != old(book).seq + 1)
            },
            Ok(Some(CoreMsg::SnapshotReply { snap })) => {
                &&& final(book)@ == (ReplicaView {
                    seq: snap.seq,
                    bids: snap.bids@,
                    asks: snap.asks@,
                })
                &&& goes_on(step, Seq::empty(), false)
            },
            Err(TransportError::Serde(_)) => {
                &&& final(book)@ == old(book)@
                &&& goes_on(step, Seq::empty(), false)
            },
            Err(TransportError::Io(_)) | Ok(None) => {
                &&& final(book)@ == old(book)@
                &&& step is Stop
            },
        },
        reads(old(book)@, received, final(book)@, step),
        received matches Ok(Some(CoreMsg::Event { event: EngineEvent::Filled { fills, .. } }))
            ==> step matches ReaderStep::Continue { fills: passed, .. } && passed@ == fills@,
        received matches Ok(Some(CoreMsg::Event { event: EngineEvent::Resting { .. } })) ==> step
            matches ReaderStep::Continue { fills: passed, .. } && passed@.len() == 0,
{
    match received {
        Ok(Some(CoreMsg::Event { event })) => match event {
            EngineEvent::Filled { taker_id: _, fills, delta } => {
                let applied = book.apply_delta(&delta);
                ReaderStep::Continue { fills, gap: !applied }
            },
            EngineEvent::Resting { order_id: _, delta } => {
                let applied = book.apply_delta(&delta);
                ReaderStep::Continue { fills: Vec::new(), gap: !applied }
            },
        },
        Ok(Some(CoreMsg::SnapshotReply { snap })) => {
            book.apply_snapshot(&snap);
            ReaderStep::Continue { fills: Vec::new(), gap: false }
        },
        Err(TransportError::Serde(_)) => ReaderStep::Continue { fills: Vec::new(), gap: false },
        Err(TransportError::Io(_)) => ReaderStep::Stop,
        Ok(None) => ReaderStep::Stop,
    }
}

/// Every fill is passed on: when trades come in, the clients get one message for
/// each fill of the event, the same fills in the same order, and none besides,
/// whether or not the replica can follow.
pub proof fn every_fill_is_passed_on(
    before: ReplicaView,
    taker_id: u64,
    fills: Vec<Fill>,
    delta: BookDelta,
    after: ReplicaView,
    step: ReaderStep,
)
    requires
        reads(
            before,
            Ok(Some(CoreMsg::Event { event: EngineEvent::Filled { taker_id, fills, delta } })),
            after,
            step,
        ),
    ensures
        step matches ReaderStep::Continue { fills: passed, gap } && {
            &&& passed@.len() == fills@.len()
            &&& forall|i: int| 0 <= i < fills@.len() ==> #[trigger] passed@[i] == fills@[i]
            &&& gap <==> delta.seq != before.seq + 1
        },
{
}

/// A resting order gives the clients nothing to hear.
pub proof fn resting_order_is_not_passed_on(
    before: ReplicaView,
    order_id: u64,
    delta: BookDelta,
    after: ReplicaView,
    step: ReaderStep,
)
    requires
        reads(
            before,
            Ok(Some(CoreMsg::Event { event: EngineEvent::Resting { order_id, delta } })),
            after,
            step,
        ),
    ensures
        step matches ReaderStep::Continue { fills: passed, gap } && {
            &&& passed@.len() == 0
            &&& gap <==> delta.seq != before.seq + 1
        },
{
}

/// Whatever event comes in, its own delta is what moves the replica: where it is
/// next in sequence the replica takes its number, and otherwise all of the
/// replica stays as it was.
pub proof fn event_moves_the_replica_by_its_delta(
    before: ReplicaView,
    event: EngineEvent,
    delta: BookDelta,
    after: ReplicaView,
    step: ReaderStep,
)
    requires
        event matches EngineEvent::Filled { delta: carried, .. } ==> delta == carried,
        event matches EngineEvent::Resting { delta: carried, .. } ==> delta == carried,
        reads(before, Ok(Some(CoreMsg::Event { event })), after, step),
    ensures
        delta.seq == before.seq + 1 ==> {
            &&& after.seq == delta.seq
            &&& after.bids == before.updates(delta.changes@).bids
            &&& after.asks == before.updates(delta.changes@).asks
        },
        delta.seq != before.seq + 1 ==> {
            &&& after.seq == before.seq
            &&& after.bids == before.bids
            &&& after.asks == before.asks
        },
{
}

/// A snapshot replaces the whole replica and gives the clients nothing to hear.
pub proof fn snapshot_is_taken_over(
    before: ReplicaView,
    snap: OrderbookSnapshot,
    after: ReplicaView,
    step: ReaderStep,
)
    requires
        reads(before, Ok(Some(CoreMsg::SnapshotReply { snap })), after, step),
    ensures
        after.seq == snap.seq,
        after.bids == snap.bids@,
        after.asks == snap.asks@,
        step matches ReaderStep::Continue { fills: passed, gap } && passed@.len() == 0 && !gap,
{
}

/// The reader stops exactly at the end of the connection, and whatever is no
/// message of the core leaves the replica alone and gives the clients nothing.
pub proof fn reader_stops_with_the_connection(
    before: ReplicaView,
    received: Result<Option<CoreMsg>, TransportError>,
    after: ReplicaView,
    step: ReaderStep,
)
    requires
        reads(before, received, after, step),
    ensures
        step is Stop <==> (received matches Err(TransportError::Io(_))) || (received matches Ok(
            None,
        )),
        !(received matches Ok(Some(_))) ==> {
            &&& after.seq == before.seq
            &&& after.bids == before.bids
            &&& after.asks == before.asks
            &&& step matches ReaderStep::Continue { fills: passed, gap } ==> passed@.len() == 0
                && !gap
        },
{
}

/// A gateway starts with the very snapshot that the core sent, waits through
/// events and nothing else, and gives up where no message can come.
pub proof fn bootstrap_ends_with_the_snapshot(
    received: Result<Option<CoreMsg>, TransportError>,
    step: BootstrapStep,
)
    requires
        bootstraps(received, step),
    ensures
        step matches BootstrapStep::Ready(snap) ==> received == Ok::<
            Option<CoreMsg>,
            TransportError,
        >(Some(CoreMsg::SnapshotReply { snap })),
        received matches Ok(Some(CoreMsg::SnapshotReply { .. })) ==> step is Ready,
        step is Wait <==> (received matches Ok(Some(CoreMsg::Event { .. }))),
        step is Disconnected <==> (received matches Ok(None)),
        step matches BootstrapStep::Failed(error) ==> received == Err::<
            Option<CoreMsg>,
            TransportError,
        >(error),
        received is Err ==> step is Failed,
{
}

/// No two gateways subscribe by the same message, and the message names the
/// gateway.
pub proof fn subscription_names_the_gateway(a: u16, msg_a: GatewayMsg, b: u16, msg_b: GatewayMsg)
    requires
        subscribes(a, msg_a),
        subscribes(b, msg_b),
    ensures
        msg_a == msg_b <==> a == b,
        msg_a == (GatewayMsg::Subscribe { connection_id: a as u64 }),
{
}

} // verus!
