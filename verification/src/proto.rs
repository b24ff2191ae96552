//! The messages between the core and the gateways, and how they are framed.
use crate::types::{EngineEvent, Order, OrderbookSnapshot};
use vstd::prelude::*;
use vstd::std_specs::convert::FromSpecImpl;

verus! {

/// The longest payload that a frame may carry.
pub const MAX_FRAME_LEN: usize = 16 * 1024 * 1024;

/// What a gateway sends to the core.
#[derive(Debug, Clone, PartialEq, Eq)]
pub enum GatewayMsg {
    SubmitOrder { order: Order },
    Subscribe { connection_id: u64 },
}

/// What the core sends to a gateway.
#[derive(Debug, Clone, PartialEq, Eq)]
pub enum CoreMsg {
    Event { event: EngineEvent },
    SnapshotReply { snap: OrderbookSnapshot },
}

/// Why a message could not be framed.
#[derive(Debug)]
pub enum ProtoError {
    /// The message could not be written as JSON.
    Serde(serde_json::Error),
}

impl From<serde_json::Error> for ProtoError {
    fn from(error: serde_json::Error) -> (converted: Self) {
        ProtoError::Serde(error)
    }
}

impl FromSpecImpl<serde_json::Error> for ProtoError {
    open spec fn obeys_from_spec() -> bool {
        true
    }

    open spec fn from_spec(error: serde_json::Error) -> Self {
        ProtoError::Serde(error)
    }
}

/// `n` as four bytes, the highest first.
pub open spec fn be_bytes(n: u32) -> Seq<u8> {
    seq![
        (n / 0x100_0000) as u8,
        (n / 0x1_0000 % 0x100) as u8,
        (n / 0x100 % 0x100) as u8,
        (n % 0x100) as u8,
    ]
}

/// The number that the first four of `bytes` write, the highest first.
pub open spec fn be_value(bytes: Seq<u8>) -> int {
    bytes[0] * 0x100_0000 + bytes[1] * 0x1_0000 + bytes[2] * 0x100 + bytes[3]
}

/// The frame of `payload`: its length in four bytes, then itself. The length
/// is counted modulo what four bytes can write.
pub open spec fn framed(payload: Seq<u8>) -> Seq<u8> {
    be_bytes((payload.len() % 0x1_0000_0000) as u32) + payload
}

/// The payload of the frame that `stream` starts with and what comes behind
/// it, once the frame is there in full.
pub open spec fn unframed(stream: Seq<u8>) -> Option<(Seq<u8>, Seq<u8>)> {
    if stream.len() < 4 || stream.len() < 4 + be_value(stream) {
        None
    } else {
        let end = 4 + be_value(stream);
        Some((stream.subrange(4, end), stream.skip(end)))
    }
}

/// Frames a message; `payload` is what writing it as JSON gave.
pub fn encode_to_vec(payload: Result<Vec<u8>, serde_json::Error>) -> (frame: Result<
    Vec<u8>,
    ProtoError,
>)
    ensures
        match payload {
            Ok(payload) => frame matches Ok(bytes) && bytes@ == framed(payload@),
            Err(error) => frame == Err::<Vec<u8>, ProtoError>(ProtoError::Serde(error)),
        },
        payload matches Ok(sent) ==> frame is Ok && frame->Ok_0@.len() == 4 + sent@.len()
            && frame->Ok_0@.skip(4) == sent@,
{
    let mut payload = match payload {
        Ok(payload) => payload,
        Err(error) => {
            return Err(ProtoError::from(error));
        },
    };
    let ghost sent = payload@;
    let len: u32 = (payload.len() as u64 % 0x1_0000_0000) as u32;
    let mut out: Vec<u8> = Vec::new();
    out.push((len / 0x100_0000) as u8);
    out.push((len / 0x1_0000 % 0x100) as u8);
    out.push((len / 0x100 % 0x100) as u8);
    out.push((len % 0x100) as u8);
    out.append(&mut payload);
    assert(out@ =~= framed(sent));
    assert(out@.skip(4) =~= sent);
    Ok(out)
}

/// A stream of frames falls apart into the payloads that went into it: the
/// first frame ends where it was put together, whatever comes behind it.
pub proof fn frame_round_trip(payload: Seq<u8>, behind: Seq<u8>)
    requires
        payload.len() <= u32::MAX,
    ensures
        unframed(framed(payload) + behind) == Some((payload, behind)),
{
    let stream = framed(payload) + behind;
    let n = (payload.len() % 0x1_0000_0000) as u32;
    assert(n == payload.len());
    assert(stream[0] == be_bytes(n)[0]);
    assert(stream[1] == be_bytes(n)[1]);
    assert(stream[2] == be_bytes(n)[2]);
    assert(stream[3] == be_bytes(n)[3]);
    assert(be_value(stream) == n);
    assert(stream.subrange(4, 4 + n) =~= payload);
    assert(stream.skip(4 + n) =~= behind);
}

/// A frame is four bytes and then the payload, all of it and as it was. The four
/// bytes write the length of the payload, the highest byte first, as far as
/// four bytes go.
pub proof fn frame_is_length_and_payload(payload: Seq<u8>)
    ensures
        framed(payload).len() == payload.len() + 4,
        forall|i: int| 0 <= i < payload.len() ==> #[trigger] framed(payload)[i + 4] == payload[i],
        framed(payload)[0] * 0x100_0000 + framed(payload)[1] * 0x1_0000 + framed(payload)[2] * 0x100
            + framed(payload)[3] == payload.len() % 0x1_0000_0000,
{
    let n = (payload.len() % 0x1_0000_0000) as u32;
    assert(framed(payload)[0] == be_bytes(n)[0]);
    assert(framed(payload)[1] == be_bytes(n)[1]);
    assert(framed(payload)[2] == be_bytes(n)[2]);
    assert(framed(payload)[3] == be_bytes(n)[3]);
}

} // verus!
