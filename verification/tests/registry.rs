use relay::codec::Message;
use relay::peers::{SystemMessage, SystemMessageError, read_system_message};
use relay::registry::{GlobalState, HandleMessageError, handle_message};
use relay::stream::extract_step;

/// Reassembles one logical message from the frames of one encoded message.
fn reassemble(frames: &Vec<Vec<u8>>) -> Message {
    let mut acc = Message::new(0, vec![], false);
    let mut complete = false;
    for frame in frames {
        complete = extract_step(&mut acc, frame).unwrap();
    }
    assert!(complete);
    acc
}

#[test]
fn test_register_assigns_distinct_increasing_ids() {
    let mut s = GlobalState::new();
    let mut ids = Vec::new();
    for _ in 0..5 {
        ids.push(GlobalState::add_user(&mut s));
    }
    assert_eq!(ids, vec![1, 2, 3, 4, 5]);
    for (k, id) in ids.iter().enumerate() {
        assert_ne!(*id, 0);
        for other in ids.iter().skip(k + 1) {
            assert_ne!(id, other);
        }
    }
}

#[test]
fn test_register_then_deregister_lookup_absent() {
    let mut s = GlobalState::new();
    let id = GlobalState::add_user(&mut s);
    assert!(s.get_user(id).is_some());
    GlobalState::remove_user(&mut s, id);
    assert!(s.get_user(id).is_none());
}

#[test]
fn test_deregister_absent_id_is_noop() {
    let mut s = GlobalState::new();
    let id = GlobalState::add_user(&mut s);
    GlobalState::remove_user(&mut s, 77);
    assert!(s.get_user(id).is_some());
}

#[test]
fn test_route_unknown_peer_not_found() {
    let mut s = GlobalState::new();
    let src = GlobalState::add_user(&mut s);
    let before = s.get_user(src).unwrap().len();

    let msg = Message::new(99, "hello".as_bytes().to_vec(), false);
    let err = handle_message(&mut s, src, msg).unwrap_err();
    assert_eq!(err, HandleMessageError::PeerNotFound(99));

    // The source stays registered with its queue untouched, and can still
    // route afterwards.
    assert!(s.get_user(src).is_some());
    assert_eq!(s.get_user(src).unwrap().len(), before);
    let again = Message::new(src, "x".as_bytes().to_vec(), false);
    assert!(handle_message(&mut s, src, again).is_ok());
}

#[test]
fn test_route_delivers_with_source_id() {
    let mut s = GlobalState::new();
    let a = GlobalState::add_user(&mut s);
    let b = GlobalState::add_user(&mut s);
    assert_eq!((a, b), (1, 2));

    // A sends "hi" addressed to 2.
    let msg = Message::new(2, "hi".as_bytes().to_vec(), false);
    handle_message(&mut s, a, msg).unwrap();

    // B's queue ends with the routed message; it decodes to (1, "hi").
    let queue = s.get_user(b).unwrap();
    let delivered = reassemble(queue.last().unwrap());
    assert_eq!(delivered.peer, 1);
    assert_eq!(delivered.content, "hi".as_bytes().to_vec());

    // A non-control message is not a system message: it goes to onReceive.
    assert_eq!(
        read_system_message(delivered).unwrap_err(),
        SystemMessageError::NotASysMsg
    );
}

#[test]
fn test_join_broadcasts_full_peer_list_to_everyone() {
    let mut s = GlobalState::new();
    let a = GlobalState::add_user(&mut s);
    let b = GlobalState::add_user(&mut s);
    let c = GlobalState::add_user(&mut s);
    assert_eq!((a, b, c), (1, 2, 3));

    // After the third join, every connection's latest announcement parses
    // back to exactly the set {1, 2, 3}.
    for id in [a, b, c] {
        let queue = s.get_user(id).unwrap();
        let announcement = reassemble(queue.last().unwrap());
        assert_eq!(announcement.peer, 0);
        match read_system_message(announcement).unwrap() {
            SystemMessage::Peers(mut ids) => {
                ids.sort();
                assert_eq!(ids, vec![1, 2, 3]);
            }
        }
    }
}

#[test]
fn test_leave_broadcasts_shrunk_peer_list() {
    let mut s = GlobalState::new();
    let a = GlobalState::add_user(&mut s);
    let b = GlobalState::add_user(&mut s);
    GlobalState::remove_user(&mut s, a);

    let queue = s.get_user(b).unwrap();
    let announcement = reassemble(queue.last().unwrap());
    match read_system_message(announcement).unwrap() {
        SystemMessage::Peers(ids) => assert_eq!(ids, vec![2]),
    }
}

#[test]
fn test_pop_outbound_drains_queue_in_order() {
    let mut s = GlobalState::new();
    let id = GlobalState::add_user(&mut s);

    // One announcement is queued by the registration itself.
    let first = GlobalState::pop_outbound(&mut s, id).unwrap();
    let announcement = reassemble(&first);
    assert_eq!(announcement.peer, 0);
    match read_system_message(announcement).unwrap() {
        SystemMessage::Peers(ids) => assert_eq!(ids, vec![1]),
    }

    // The queue is now empty; an unknown id holds no queue at all.
    assert!(GlobalState::pop_outbound(&mut s, id).is_none());
    assert!(GlobalState::pop_outbound(&mut s, 42).is_none());
}

#[test]
fn test_routed_chunked_message_reassembles() {
    let mut s = GlobalState::new();
    let a = GlobalState::add_user(&mut s);
    let b = GlobalState::add_user(&mut s);

    let payload = vec![b'Q'; 2500];
    let msg = Message::new(b, payload.clone(), false);
    handle_message(&mut s, a, msg).unwrap();

    let queue = s.get_user(b).unwrap();
    let frames = queue.last().unwrap();
    assert_eq!(frames.len(), 3);
    let delivered = reassemble(frames);
    assert_eq!(delivered.peer, a);
    assert_eq!(delivered.content, payload);
}

#[test]
fn test_peers_to_string_joins_with_commas() {
    assert_eq!(GlobalState::peers_to_string(vec![1, 2, 3]), "1,2,3");
    assert_eq!(GlobalState::peers_to_string(vec![]), "");
    assert_eq!(GlobalState::peers_to_string(vec![0]), "0");
    assert_eq!(GlobalState::peers_to_string(vec![12345]), "12345");
    assert_eq!(GlobalState::peers_to_string(vec![10, 200]), "10,200");
}
