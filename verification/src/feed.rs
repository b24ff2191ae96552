//! How a gateway serves a client that listens to fills.
use crate::types::Fill;
use vstd::prelude::*;

verus! {

/// What happens on the connection of a listening client.
#[derive(Debug, Clone, PartialEq, Eq)]
pub enum FeedEvent {
    /// The core reports a fill.
    Fill(Fill),
    /// The client has fallen so far behind that this many fills are lost to it.
    Lagged(u64),
    /// There will be no more fills.
    FeedClosed,
    /// The client has closed the connection, or is gone.
    ClientClosed,
    /// The client asks whether the connection is alive.
    ClientPing(Vec<u8>),
    /// The client sends anything else.
    ClientOther,
}

/// What the gateway does about it.
#[derive(Debug, Clone, PartialEq, Eq)]
pub enum FeedAction {
    /// Send the fill to the client.
    SendFill(Fill),
    /// Tell the client that the connection ends.
    SendClose,
    /// Answer the client with the bytes that it sent.
    SendPong(Vec<u8>),
    /// Do nothing.
    Wait,
    /// End the connection.
    Stop,
}

/// Whether `action` is what the gateway does about `event`.
pub open spec fn serves(event: FeedEvent, action: FeedAction) -> bool {
    match event {
        FeedEvent::Fill(fill) => action == FeedAction::SendFill(fill),
        FeedEvent::Lagged(_) => action == FeedAction::SendClose,
        FeedEvent::FeedClosed => action == FeedAction::Stop,
        FeedEvent::ClientClosed => action == FeedAction::Stop,
        FeedEvent::ClientPing(bytes) => action == FeedAction::SendPong(bytes),
        FeedEvent::ClientOther => action == FeedAction::Wait,
    }
}

/// Whether the connection goes on after `action`; `delivered` tells whether
/// what was to be sent went out.
pub open spec fn stays(action: FeedAction, delivered: bool) -> bool {
    match action {
        FeedAction::SendFill(_) => delivered,
        FeedAction::SendPong(_) => delivered,
        FeedAction::Wait => true,
        FeedAction::SendClose => false,
        FeedAction::Stop => false,
    }
}

/// What the gateway does about `event`. A client that lags is disconnected: it
/// connects anew rather than holding up the engine.
pub fn feed_step(event: FeedEvent) -> (action: FeedAction)
    ensures
        action == match event {
            FeedEvent::Fill(fill) => FeedAction::SendFill(fill),
            FeedEvent::Lagged(_) => FeedAction::SendClose,
            FeedEvent::FeedClosed => FeedAction::Stop,
            FeedEvent::ClientClosed => FeedAction::Stop,
            FeedEvent::ClientPing(bytes) => FeedAction::SendPong(bytes),
            FeedEvent::ClientOther => FeedAction::Wait,
        },
        serves(event, action),
{
    match event {
        FeedEvent::Fill(fill) => FeedAction::SendFill(fill),
        FeedEvent::Lagged(_) => FeedAction::SendClose,
        FeedEvent::FeedClosed => FeedAction::Stop,
        FeedEvent::ClientClosed => FeedAction::Stop,
        FeedEvent::ClientPing(bytes) => FeedAction::SendPong(bytes),
        FeedEvent::ClientOther => FeedAction::Wait,
    }
}

impl FeedAction {
    /// Whether the connection goes on after this; `delivered` tells whether
    /// what was to be sent went out.
    pub fn goes_on(&self, delivered: bool) -> (on: bool)
        ensures
            on == match self {
                FeedAction::SendFill(_) | FeedAction::SendPong(_) => delivered,
                FeedAction::Wait => true,
                FeedAction::SendClose | FeedAction::Stop => false,
            },
            on == stays(*self, delivered),
    {
        match self {
            FeedAction::SendFill(_) => delivered,
            FeedAction::SendPong(_) => delivered,
            FeedAction::Wait => true,
            FeedAction::SendClose => false,
            FeedAction::Stop => false,
        }
    }
}

/// A client is sent exactly the fills of the core and gets back exactly the
/// bytes of its own pings, each as it came in.
pub proof fn client_gets_what_came_in(event: FeedEvent, action: FeedAction)
    requires
        serves(event, action),
    ensures
        forall|fill: Fill| event == FeedEvent::Fill(fill) <==> action == FeedAction::SendFill(fill),
        forall|bytes: Vec<u8>|
            event == FeedEvent::ClientPing(bytes) <==> action == FeedAction::SendPong(bytes),
        event is Lagged <==> action is SendClose,
        event is ClientOther <==> action is Wait,
{
}

/// A connection whose sends go out ends exactly when the client lags or either
/// end closes; one whose send fails ends as well.
pub proof fn connection_lasts(event: FeedEvent, action: FeedAction, delivered: bool)
    requires
        serves(event, action),
    ensures
        stays(action, true) <==> !(event is Lagged || event is FeedClosed || event is ClientClosed),
        event is Fill || event is ClientPing ==> (stays(action, delivered) <==> delivered),
        !(event is Fill || event is ClientPing) ==> stays(action, false) == stays(action, true),
{
}

} // verus!
