//! What comes of reading and writing messages.
pub use crate::proto::MAX_FRAME_LEN;
use vstd::prelude::*;
use vstd::std_specs::convert::FromSpecImpl;

verus! {

/// Why a message could not be sent or received.
#[derive(Debug)]
pub enum TransportError {
    /// The connection failed.
    Io(std::io::Error),
    /// The message could not be written as JSON or read from it.
    Serde(serde_json::Error),
}

impl From<std::io::Error> for TransportError {
    fn from(error: std::io::Error) -> (converted: Self) {
        TransportError::Io(error)
    }
}

impl FromSpecImpl<std::io::Error> for TransportError {
    open spec fn obeys_from_spec() -> bool {
        true
    }

    open spec fn from_spec(error: std::io::Error) -> Self {
        TransportError::Io(error)
    }
}

impl From<serde_json::Error> for TransportError {
    fn from(error: serde_json::Error) -> (converted: Self) {
        TransportError::Serde(error)
    }
}

impl FromSpecImpl<serde_json::Error> for TransportError {
    open spec fn obeys_from_spec() -> bool {
        true
    }

    open spec fn from_spec(error: serde_json::Error) -> Self {
        TransportError::Serde(error)
    }
}

/// Whether `received` is what has come in where `next` is the next frame of the
/// connection, read as JSON.
pub open spec fn receives<T>(
    next: Option<Result<Result<T, serde_json::Error>, std::io::Error>>,
    received: Result<Option<T>, TransportError>,
) -> bool {
    match next {
        Some(Ok(Ok(message))) => received == Ok::<Option<T>, TransportError>(Some(message)),
        Some(Ok(Err(error))) => received == Err::<Option<T>, TransportError>(
            TransportError::Serde(error),
        ),
        Some(Err(error)) => received == Err::<Option<T>, TransportError>(TransportError::Io(error)),
        None => received == Ok::<Option<T>, TransportError>(None),
    }
}

/// The message that has come in. `next` is the next frame of the connection,
/// read as JSON: `None` where the connection is closed, an error of the
/// connection, or what reading the frame gave.
pub fn recv<T>(next: Option<Result<Result<T, serde_json::Error>, std::io::Error>>) -> (received:
    Result<Option<T>, TransportError>)
    ensures
        received == match next {
            Some(Ok(Ok(message))) => Ok::<Option<T>, TransportError>(Some(message)),
            Some(Ok(Err(error))) => Err(TransportError::Serde(error)),
            Some(Err(error)) => Err(TransportError::Io(error)),
            None => Ok(None),
        },
        receives(next, received),
{
    match next {
        Some(Ok(Ok(message))) => Ok(Some(message)),
        Some(Ok(Err(error))) => Err(TransportError::from(error)),
        Some(Err(error)) => Err(TransportError::from(error)),
        None => Ok(None),
    }
}

/// What comes in comes out: the very message that a frame holds, the very error
/// of the connection or of reading the frame, and nothing exactly where the
/// connection is closed.
pub proof fn received_is_what_came_in<T>(
    next: Option<Result<Result<T, serde_json::Error>, std::io::Error>>,
    received: Result<Option<T>, TransportError>,
)
    requires
        receives(next, received),
    ensures
        forall|message: T|
            next == Some(Ok::<Result<T, serde_json::Error>, std::io::Error>(Ok(message)))
                <==> received == Ok::<Option<T>, TransportError>(Some(message)),
        forall|error: serde_json::Error|
            next == Some(Ok::<Result<T, serde_json::Error>, std::io::Error>(Err(error)))
                <==> received == Err::<Option<T>, TransportError>(TransportError::Serde(error)),
        forall|error: std::io::Error|
            next == Some(Err::<Result<T, serde_json::Error>, std::io::Error>(error))
                <==> received == Err::<Option<T>, TransportError>(TransportError::Io(error)),
        next is None <==> received == Ok::<Option<T>, TransportError>(None),
{
}

} // verus!
