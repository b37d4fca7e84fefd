use chatroom::server::{Chatroom, QUEUE_CAPACITY};

#[test]
fn register_rejects_duplicates() {
    let mut room = Chatroom::new();
    assert!(room.register(1));
    assert!(!room.register(1));
    assert!(room.register(2));
}

#[test]
fn deregister_is_idempotent() {
    let mut room = Chatroom::new();
    assert!(room.register(1));
    room.deregister(1);
    room.deregister(1);
    // absence shown by a fresh registration succeeding
    assert!(room.register(1));
}

#[test]
fn broadcast_delivers_to_all_but_excluded() {
    let mut room = Chatroom::new();
    assert!(room.register(1));
    assert!(room.register(2));
    assert!(room.register(3));
    let frame = vec![1u8, 2, 3];
    let dropped = room.broadcast(&frame, Some(2));
    assert!(dropped.is_empty());
    assert_eq!(room.next_frame(1), Some(frame.clone()));
    assert_eq!(room.next_frame(1), None);
    assert_eq!(room.next_frame(2), None);
    assert_eq!(room.next_frame(3), Some(frame.clone()));
}

#[test]
fn deregistered_peer_never_receives() {
    let mut room = Chatroom::new();
    assert!(room.register(1));
    assert!(room.register(2));
    room.deregister(2);
    let dropped = room.broadcast(&vec![9u8], None);
    assert!(dropped.is_empty());
    assert_eq!(room.next_frame(2), None);
    // a peer registered after the call never receives it retroactively
    assert!(room.register(3));
    assert_eq!(room.next_frame(3), None);
    assert_eq!(room.next_frame(1), Some(vec![9u8]));
}

#[test]
fn frames_leave_in_enqueue_order() {
    let mut room = Chatroom::new();
    assert!(room.register(1));
    room.broadcast(&vec![1u8], None);
    room.broadcast(&vec![2u8], None);
    room.broadcast(&vec![3u8], None);
    assert_eq!(room.next_frame(1), Some(vec![1u8]));
    assert_eq!(room.next_frame(1), Some(vec![2u8]));
    assert_eq!(room.next_frame(1), Some(vec![3u8]));
    assert_eq!(room.next_frame(1), None);
}

#[test]
fn overflow_disconnects_only_the_stalled_peer() {
    let mut room = Chatroom::new();
    assert!(room.register(1));
    assert!(room.register(2));
    // stall peer 1: fill its queue to capacity while 2 stays drained
    for i in 0..QUEUE_CAPACITY {
        let dropped = room.broadcast(&vec![i as u8], Some(2));
        assert!(dropped.is_empty());
    }
    assert_eq!(room.queue_len(1), QUEUE_CAPACITY);
    // the next fan-out force-disconnects 1 and still reaches 2
    let dropped = room.broadcast(&vec![0xffu8], None);
    assert_eq!(dropped, vec![1u64]);
    assert_eq!(room.next_frame(2), Some(vec![0xffu8]));
    assert_eq!(room.next_frame(2), None);
    assert_eq!(room.next_frame(1), None);
    // 1 is gone from the registry
    assert!(room.register(1));
}
