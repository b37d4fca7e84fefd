use chatroom::app::{App, KeyInput, KeyOutcome};
use chatroom::codec::{decode, encode, DecodeResult};
use chatroom::datatypes::{MessageType, UserAction};
use chatroom::server::{Chatroom, ConnState, Phase};

/// Server-side handling of one frame arriving from peer `id`: decode with
/// the peer's handler, then fan each message out to everyone else.
fn server_ingest(room: &mut Chatroom, conn: &mut ConnState, id: u64, bytes: &Vec<u8>) {
    let msgs = conn.on_read(bytes);
    for m in msgs {
        assert!(m.is_wf());
        let frame = encode(&m);
        room.broadcast(&frame, Some(id));
    }
}

fn drain_into(room: &mut Chatroom, id: u64, app: &mut App) {
    while let Some(frame) = room.next_frame(id) {
        app.update_message_queue(&frame);
    }
}

#[test]
fn three_clients_one_submission() {
    // broker state
    let mut room = Chatroom::new();
    let mut conn_a = ConnState::on_accept(1);
    let mut conn_b = ConnState::on_accept(2);
    let mut conn_c = ConnState::on_accept(3);
    assert!(room.register(1));
    assert!(room.register(2));
    assert!(room.register(3));

    // client state
    let mut a = App::new(String::from("A"));
    let mut b = App::new(String::from("B"));
    let mut c = App::new(String::from("C"));

    // A types "hi" and submits
    a.handle_key(KeyInput::Char('e'));
    a.handle_key(KeyInput::Char('h'));
    a.handle_key(KeyInput::Char('i'));
    assert!(matches!(a.handle_key(KeyInput::Enter), KeyOutcome::Submit));
    let frame = a.submit_message().expect("fields fit a frame");
    assert!(a.input.is_empty());
    assert_eq!(a.character_index, 0);

    // the wire carries the frame to the broker, which fans it out
    server_ingest(&mut room, &mut conn_a, 1, &frame);
    assert!(matches!(conn_a.phase, Phase::Connected));

    // B and C read their queues; A's queue stays empty (no self echo)
    drain_into(&mut room, 2, &mut b);
    drain_into(&mut room, 3, &mut c);
    assert_eq!(room.next_frame(1), None);

    for peer in [&b, &c] {
        assert_eq!(peer.messages.len(), 1, "exactly one message delivered");
        assert_eq!(peer.messages[0].user, b"A".to_vec());
        assert_eq!(peer.messages[0].message, b"hi".to_vec());
        assert!(matches!(peer.messages[0].msg_type, MessageType::Chat));
        assert!(!peer.disconnected);
    }
    // A holds exactly its own local copy
    assert_eq!(a.messages.len(), 1);
    assert_eq!(a.messages[0].message, b"hi".to_vec());

    // untouched handlers saw nothing
    assert!(matches!(conn_b.phase, Phase::Connected));
    assert!(matches!(conn_c.phase, Phase::Connected));
}

#[test]
fn disconnect_mid_session_removes_peer() {
    let mut room = Chatroom::new();
    let mut conn_a = ConnState::on_accept(1);
    let mut conn_b = ConnState::on_accept(2);
    assert!(room.register(1));
    assert!(room.register(2));

    // peer 1's socket closes abruptly: EOF on read
    conn_a.on_disconnect();
    assert!(matches!(conn_a.phase, Phase::Draining));
    room.deregister(1);
    conn_a.on_closed();
    assert!(matches!(conn_a.phase, Phase::Closed));

    // a later submission from 2 is fanned out without 1
    let mut b = App::new(String::from("B"));
    b.handle_key(KeyInput::Char('e'));
    b.handle_key(KeyInput::Char('y'));
    b.handle_key(KeyInput::Char('o'));
    let frame = b.submit_message().expect("fields fit a frame");
    server_ingest(&mut room, &mut conn_b, 2, &frame);
    assert_eq!(room.next_frame(1), None);
    // nothing was queued anywhere (sender excluded, peer 1 gone)
    assert_eq!(room.next_frame(2), None);
    // the registry no longer holds 1
    assert!(room.register(1));
}

#[test]
fn malformed_frame_drains_the_connection() {
    let mut room = Chatroom::new();
    let mut conn = ConnState::on_accept(1);
    assert!(room.register(1));
    // length 2, payload "{x": not the payload grammar
    let bad = vec![0u8, 0, 0, 2, b'{', b'x'];
    let msgs = conn.on_read(&bad);
    assert!(msgs.is_empty());
    assert!(matches!(conn.phase, Phase::Draining));
    room.deregister(1);
    conn.on_closed();
    assert!(matches!(conn.phase, Phase::Closed));
}

#[test]
fn frame_split_across_reads_arrives_once() {
    let mut sender = App::new(String::from("S"));
    sender.handle_key(KeyInput::Char('e'));
    sender.handle_key(KeyInput::Char('o'));
    sender.handle_key(KeyInput::Char('k'));
    let frame = sender.submit_message().expect("fields fit a frame");

    let mut receiver = App::new(String::from("R"));
    let cut = frame.len() / 2;
    receiver.update_message_queue(&frame[..cut].to_vec());
    assert_eq!(receiver.messages.len(), 0);
    assert!(!receiver.disconnected);
    receiver.update_message_queue(&frame[cut..].to_vec());
    assert_eq!(receiver.messages.len(), 1);
    assert_eq!(receiver.messages[0].message, b"ok".to_vec());
    assert!(!receiver.disconnected);
}

#[test]
fn malformed_bytes_mark_session_disconnected() {
    let mut receiver = App::new(String::from("R"));
    let bad = vec![0u8, 0, 0, 1, 0x07];
    receiver.update_message_queue(&bad);
    assert!(receiver.disconnected);
    assert_eq!(receiver.messages.len(), 0);
}

#[test]
fn presence_announcements_round_trip() {
    let mut app = App::new(String::from("A"));
    let join = app.send_system_message(UserAction::Join).expect("fits");
    match decode(&join) {
        DecodeResult::Complete(m, used) => {
            assert_eq!(used, join.len());
            assert_eq!(m.user, b"A".to_vec());
            assert_eq!(m.message, b"-=[A has joined!]=-".to_vec());
            assert!(matches!(m.msg_type, MessageType::System));
        }
        _ => panic!("expected a complete decode"),
    }
    let leave = app.send_system_message(UserAction::Leave).expect("fits");
    match decode(&leave) {
        DecodeResult::Complete(m, _) => {
            assert_eq!(m.message, b"-=[A has left!]=-".to_vec());
        }
        _ => panic!("expected a complete decode"),
    }
    // announcements do not enter the sender's own history
    assert_eq!(app.messages.len(), 0);
}

#[test]
fn multibyte_username_survives_the_wire() {
    // would fail if the text bridges handed back anything but UTF-8 bytes
    let mut sender = App::new(String::from("z\u{fc}rich"));
    assert_eq!(sender.username, "z\u{fc}rich".as_bytes().to_vec());
    sender.handle_key(KeyInput::Char('e'));
    sender.handle_key(KeyInput::Char('\u{e9}'));
    let frame = sender.submit_message().expect("fields fit a frame");
    let mut receiver = App::new(String::from("R"));
    receiver.update_message_queue(&frame);
    assert_eq!(receiver.messages.len(), 1);
    assert_eq!(receiver.messages[0].user, "z\u{fc}rich".as_bytes().to_vec());
    assert_eq!(receiver.messages[0].message, "\u{e9}".as_bytes().to_vec());
}
