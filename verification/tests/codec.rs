use chatroom::codec::{decode, encode, DecodeResult, MAX_PAYLOAD};
use chatroom::datatypes::{ChatMessage, MessageType};

fn msg(time: &[u8], user: &[u8], body: &[u8], kind: MessageType) -> ChatMessage {
    ChatMessage::with_time(time.to_vec(), user.to_vec(), body.to_vec(), kind)
        .expect("fields within bounds")
}

#[test]
fn encode_produces_exact_frame() {
    let m = msg(b"T", b"alice", b"hi", MessageType::Chat);
    let frame = encode(&m);
    let payload: &[u8] = b"{\"time\":\"T\",\"user\":\"alice\",\"message\":\"hi\",\"msg_type\":\"Chat\"}";
    let mut expected = vec![0u8, 0, 0, payload.len() as u8];
    expected.extend_from_slice(payload);
    assert_eq!(frame, expected);
}

#[test]
fn round_trip_returns_the_message() {
    let m = msg(
        b"2024-05-01T10:00:00+00:00",
        b"bob",
        b"hello there",
        MessageType::Chat,
    );
    let frame = encode(&m);
    match decode(&frame) {
        DecodeResult::Complete(d, used) => {
            assert_eq!(used, frame.len());
            assert_eq!(d.time, m.time);
            assert_eq!(d.user, m.user);
            assert_eq!(d.message, m.message);
            assert!(matches!(d.msg_type, MessageType::Chat));
        }
        _ => panic!("expected a complete decode"),
    }
}

#[test]
fn round_trip_with_escaped_bytes() {
    let m = msg(b"T", b"a\"b", b"back\\slash \"quoted\"", MessageType::System);
    let frame = encode(&m);
    match decode(&frame) {
        DecodeResult::Complete(d, used) => {
            assert_eq!(used, frame.len());
            assert_eq!(d.user, b"a\"b".to_vec());
            assert_eq!(d.message, b"back\\slash \"quoted\"".to_vec());
            assert!(matches!(d.msg_type, MessageType::System));
        }
        _ => panic!("expected a complete decode"),
    }
}

#[test]
fn split_frame_is_incomplete_until_whole() {
    let m = msg(b"T", b"carol", b"split me", MessageType::Chat);
    let frame = encode(&m);
    for cut in 0..frame.len() {
        let first = frame[..cut].to_vec();
        assert!(
            matches!(decode(&first), DecodeResult::Incomplete),
            "prefix of {} bytes must be incomplete",
            cut
        );
        let mut both = first.clone();
        both.extend_from_slice(&frame[cut..]);
        match decode(&both) {
            DecodeResult::Complete(d, used) => {
                assert_eq!(used, frame.len());
                assert_eq!(d.message, m.message);
            }
            _ => panic!("expected a complete decode after both parts"),
        }
    }
}

#[test]
fn empty_and_short_buffers_are_incomplete() {
    assert!(matches!(decode(&Vec::new()), DecodeResult::Incomplete));
    assert!(matches!(decode(&vec![0u8, 0, 0]), DecodeResult::Incomplete));
    // full header declaring 10 bytes, none arrived yet
    assert!(matches!(
        decode(&vec![0u8, 0, 0, 10]),
        DecodeResult::Incomplete
    ));
}

#[test]
fn oversized_declared_length_is_malformed() {
    let n = (MAX_PAYLOAD + 1) as u32;
    let header = vec![
        (n >> 24) as u8,
        ((n >> 16) & 0xff) as u8,
        ((n >> 8) & 0xff) as u8,
        (n & 0xff) as u8,
    ];
    assert!(matches!(decode(&header), DecodeResult::Malformed));
}

#[test]
fn bad_payload_is_malformed() {
    // declared length 4, payload "xxxx": not the payload grammar
    let buf = vec![0u8, 0, 0, 4, b'x', b'x', b'x', b'x'];
    assert!(matches!(decode(&buf), DecodeResult::Malformed));
}

#[test]
fn raw_control_byte_in_field_is_malformed() {
    let good = encode(&msg(b"T", b"u", b"mm", MessageType::Chat));
    // replace the body "mm" with "m\n": a raw control byte inside a string
    let mut bad = good.clone();
    let pos = bad
        .windows(2)
        .position(|w| w == b"mm")
        .expect("body present");
    bad[pos + 1] = 0x0a;
    assert!(matches!(decode(&bad), DecodeResult::Malformed));
}

#[test]
fn unknown_kind_is_malformed() {
    let payload: &[u8] = b"{\"time\":\"T\",\"user\":\"u\",\"message\":\"m\",\"msg_type\":\"Blah\"}";
    let mut buf = vec![0u8, 0, 0, payload.len() as u8];
    buf.extend_from_slice(payload);
    assert!(matches!(decode(&buf), DecodeResult::Malformed));
}

#[test]
fn trailing_bytes_inside_payload_are_malformed() {
    let m = msg(b"T", b"u", b"m", MessageType::Chat);
    let mut frame = encode(&m);
    // declare one byte more than the payload grammar uses
    let declared = (frame.len() - 4 + 1) as u8;
    frame[3] = declared;
    frame.push(b'!');
    assert!(matches!(decode(&frame), DecodeResult::Malformed));
}

#[test]
fn two_frames_decode_one_at_a_time() {
    let m1 = msg(b"T", b"u", b"first", MessageType::Chat);
    let m2 = msg(b"T", b"u", b"second", MessageType::Chat);
    let f1 = encode(&m1);
    let f2 = encode(&m2);
    let mut buf = f1.clone();
    buf.extend_from_slice(&f2);
    match decode(&buf) {
        DecodeResult::Complete(d, used) => {
            assert_eq!(used, f1.len());
            assert_eq!(d.message, b"first".to_vec());
            let rest = buf[used..].to_vec();
            match decode(&rest) {
                DecodeResult::Complete(d2, used2) => {
                    assert_eq!(used2, f2.len());
                    assert_eq!(d2.message, b"second".to_vec());
                }
                _ => panic!("expected the second frame"),
            }
        }
        _ => panic!("expected the first frame"),
    }
}

#[test]
fn with_time_rejects_control_bytes_and_oversize() {
    assert!(ChatMessage::with_time(b"T".to_vec(), b"u\n".to_vec(), b"m".to_vec(), MessageType::Chat)
        .is_none());
    assert!(ChatMessage::with_time(b"T\x01".to_vec(), b"u".to_vec(), b"m".to_vec(), MessageType::Chat)
        .is_none());
    let huge = vec![b'a'; 65536];
    assert!(ChatMessage::with_time(b"T".to_vec(), b"u".to_vec(), huge, MessageType::Chat).is_none());
    let edge = vec![b'a'; 65535];
    assert!(ChatMessage::with_time(b"T".to_vec(), b"u".to_vec(), edge, MessageType::Chat).is_some());
}

#[test]
fn new_stamps_the_clock() {
    // exercises the chrono-backed clock wrapper end to end
    let m = ChatMessage::new(String::from("u"), String::from("m"), MessageType::Chat)
        .expect("clock text and fields fit");
    assert!(!m.time.is_empty());
    assert_eq!(m.user, b"u".to_vec());
    assert_eq!(m.message, b"m".to_vec());
    // the stamped message still frames and decodes
    let frame = encode(&m);
    assert!(matches!(decode(&frame), DecodeResult::Complete(_, _)));
}
