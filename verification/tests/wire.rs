use maple::proto::{encode_to_vec, ProtoError, MAX_FRAME_LEN};
use maple::transport::{recv, TransportError};

fn json_error() -> serde_json::Error {
    serde_json::from_str::<u64>("no number").unwrap_err()
}

#[test]
fn frames_are_limited() {
    assert_eq!(MAX_FRAME_LEN, 16 * 1024 * 1024);
    assert_eq!(maple::transport::MAX_FRAME_LEN, 16777216);
}

#[test]
fn frame_starts_with_its_length() {
    let frame = encode_to_vec(serde_json::to_vec(&vec![1, 2])).unwrap();
    assert_eq!(frame, vec![0, 0, 0, 5, b'[', b'1', b',', b'2', b']']);
}

#[test]
fn empty_payload_is_framed() {
    assert_eq!(encode_to_vec(Ok(vec![])).unwrap(), vec![0, 0, 0, 0]);
}

#[test]
fn length_is_big_endian() {
    let frame = encode_to_vec(Ok(vec![7; 0x1_02_03])).unwrap();
    assert_eq!(&frame[..4], &[0, 1, 2, 3]);
    assert_eq!(frame.len(), 4 + 0x1_02_03);
    assert!(frame[4..].iter().all(|b| *b == 7));
}

#[test]
fn frames_fall_apart_again() {
    let mut stream = encode_to_vec(Ok(vec![1, 2, 3])).unwrap();
    stream.extend(encode_to_vec(Ok(vec![9; 300])).unwrap());
    let mut rest = stream.as_slice();
    let mut payloads: Vec<Vec<u8>> = Vec::new();
    while !rest.is_empty() {
        let n = u32::from_be_bytes([rest[0], rest[1], rest[2], rest[3]]) as usize;
        payloads.push(rest[4..4 + n].to_vec());
        rest = &rest[4 + n..];
    }
    assert_eq!(payloads, vec![vec![1, 2, 3], vec![9; 300]]);
}

#[test]
fn message_that_is_no_json_is_not_framed() {
    let text = json_error().to_string();
    let ProtoError::Serde(error) = encode_to_vec(Err(json_error())).unwrap_err();
    assert_eq!(error.to_string(), text);
    let ProtoError::Serde(error) = ProtoError::from(json_error());
    assert_eq!(error.to_string(), text);
}

#[test]
fn received_message_comes_out() {
    assert!(matches!(recv(Some(Ok(Ok(5u64)))), Ok(Some(5))));
}

#[test]
fn closed_connection_gives_no_message() {
    assert!(matches!(recv::<u64>(None), Ok(None)));
}

#[test]
fn failed_connection_is_an_io_error() {
    let broken = || std::io::Error::new(std::io::ErrorKind::BrokenPipe, "gone");
    match recv::<u64>(Some(Err(broken()))) {
        Err(TransportError::Io(error)) => {
            assert_eq!(error.kind(), std::io::ErrorKind::BrokenPipe);
            assert_eq!(error.to_string(), "gone");
        }
        _ => panic!("no io error"),
    }
    assert!(matches!(TransportError::from(broken()), TransportError::Io(_)));
}

#[test]
fn frame_that_is_no_message_is_a_serde_error() {
    match recv(Some(Ok(serde_json::from_slice::<u64>(b"[1]")))) {
        Err(TransportError::Serde(error)) => assert!(error.is_data()),
        _ => panic!("no serde error"),
    }
    assert!(matches!(TransportError::from(json_error()), TransportError::Serde(_)));
}
