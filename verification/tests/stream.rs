use relay::codec::{Message, ParseError};
use relay::handler::{InboundAction, inbound_error_action, route_error_reply};
use relay::peers::{SystemMessage, SystemMessageError, read_system_message};
use relay::registry::HandleMessageError;
use relay::stream::{ExtractError, extract_step};

/// Decodes the frames of one control reply into the message it carries.
fn decode_reply(frames: &Vec<Vec<u8>>) -> Message {
    let mut acc = Message::new(0, vec![], false);
    let mut complete = false;
    for frame in frames {
        complete = extract_step(&mut acc, frame).unwrap();
    }
    assert!(complete);
    acc
}

#[test]
fn test_extract_step_accumulates_chunks() {
    let frames = Message::encode(7, &vec![b'Z'; 1500]);
    assert_eq!(frames.len(), 2);

    let mut acc = Message::new(0, vec![], false);
    assert_eq!(extract_step(&mut acc, &frames[0]), Ok(false));
    assert_eq!(extract_step(&mut acc, &frames[1]), Ok(true));
    assert_eq!(acc.peer, 7);
    assert_eq!(acc.content, vec![b'Z'; 1500]);
}

#[test]
fn test_extract_step_single_frame_completes() {
    let frames = Message::encode(3, &"one".as_bytes().to_vec());
    let mut acc = Message::new(0, vec![], false);
    assert_eq!(extract_step(&mut acc, &frames[0]), Ok(true));
    assert_eq!(acc.peer, 3);
    assert_eq!(acc.content, "one".as_bytes().to_vec());
}

#[test]
fn test_extract_step_malformed_frame_reports_error() {
    let mut acc = Message::new(0, vec![b'a'], false);
    let bad = "00x2payload0".as_bytes().to_vec();
    assert_eq!(extract_step(&mut acc, &bad), Err(ParseError::PeerNotUsize));
    // The accumulator is untouched by a malformed frame.
    assert_eq!(acc.peer, 0);
    assert_eq!(acc.content, vec![b'a']);
}

#[test]
fn test_inbound_action_for_transport_outcomes() {
    assert!(matches!(
        inbound_error_action(&ExtractError::Closed),
        InboundAction::Stop
    ));
    assert!(matches!(
        inbound_error_action(&ExtractError::IOError),
        InboundAction::Stop
    ));
    assert!(matches!(
        inbound_error_action(&ExtractError::NotReady),
        InboundAction::Ignore
    ));
}

#[test]
fn test_inbound_action_replies_to_malformed_frame() {
    let action = inbound_error_action(&ExtractError::InvalidMessage(ParseError::NoEnding));
    match action {
        InboundAction::Reply(frames) => {
            let reply = decode_reply(&frames);
            assert_eq!(reply.peer, 0);
            assert_eq!(reply.content, "Invalid message".as_bytes().to_vec());
        }
        _ => panic!("a malformed frame must earn a control reply"),
    }
}

#[test]
fn test_route_error_replies_name_the_failure() {
    let reply = decode_reply(&route_error_reply(&HandleMessageError::PeerNotFound(5)));
    assert_eq!(reply.peer, 0);
    assert_eq!(reply.content, "Peer not found".as_bytes().to_vec());

    let reply = decode_reply(&route_error_reply(&HandleMessageError::SendChanError));
    assert_eq!(reply.peer, 0);
    assert_eq!(reply.content, "Failed to send message".as_bytes().to_vec());
}

#[test]
fn test_read_system_message_parses_peer_list() {
    let msg = Message::new(0, "PEERS:1,2,3".as_bytes().to_vec(), false);
    match read_system_message(msg).unwrap() {
        SystemMessage::Peers(ids) => assert_eq!(ids, vec![1, 2, 3]),
    }
}

#[test]
fn test_read_system_message_rejects_non_control() {
    let from_peer = Message::new(4, "PEERS:1,2".as_bytes().to_vec(), false);
    assert_eq!(
        read_system_message(from_peer).unwrap_err(),
        SystemMessageError::NotASysMsg
    );

    let other_control = Message::new(0, "Invalid message".as_bytes().to_vec(), false);
    assert_eq!(
        read_system_message(other_control).unwrap_err(),
        SystemMessageError::NotASysMsg
    );
}

#[test]
fn test_read_system_message_skips_bad_entries() {
    let msg = Message::new(0, "PEERS:1,x,3".as_bytes().to_vec(), false);
    match read_system_message(msg).unwrap() {
        SystemMessage::Peers(ids) => assert_eq!(ids, vec![1, 3]),
    }

    let empty = Message::new(0, "PEERS:".as_bytes().to_vec(), false);
    match read_system_message(empty).unwrap() {
        SystemMessage::Peers(ids) => assert_eq!(ids, Vec::<usize>::new()),
    }

    // An entry too large for the machine is passed over, not truncated.
    let huge = Message::new(0, "PEERS:99999999999999999999,7".as_bytes().to_vec(), false);
    match read_system_message(huge).unwrap() {
        SystemMessage::Peers(ids) => assert_eq!(ids, vec![7]),
    }
}

#[test]
fn test_roundtrip_empty_payload() {
    let frames = Message::encode(0, &vec![]);
    assert_eq!(frames.len(), 1);
    let mut acc = Message::new(0, vec![], false);
    assert_eq!(extract_step(&mut acc, &frames[0]), Ok(true));
    assert_eq!(acc.content, Vec::<u8>::new());
}

#[test]
fn test_encode_terminator_bytes() {
    let frames = Message::encode(9999, &vec![b'a'; 3000]);
    assert_eq!(frames.len(), 3);
    assert_eq!(*frames[0].last().unwrap(), b'1');
    assert_eq!(*frames[1].last().unwrap(), b'1');
    assert_eq!(*frames[2].last().unwrap(), b'0');
    for frame in &frames {
        assert_eq!(&frame[..4], "9999".as_bytes());
    }
}
