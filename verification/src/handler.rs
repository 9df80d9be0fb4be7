//! Connection-handler decisions: what the inbound half of a connection
//! does with each extraction outcome, and the control replies sent back to
//! a source whose message could not be routed. The loops that read and
//! write the wire live outside the library; they act on these decisions.

use vstd::prelude::*;
use crate::codec::{Message, encode_frames};
use crate::registry::{HandleMessageError, RawMessage};
use crate::stream::ExtractError;

verus! {

/// The ASCII bytes of `Invalid message`, sent back when a frame fails to
/// decode.
pub open spec fn invalid_notice() -> Seq<u8> {
    seq![
        'I' as u8,
        'n' as u8,
        'v' as u8,
        'a' as u8,
        'l' as u8,
        'i' as u8,
        'd' as u8,
        ' ' as u8,
        'm' as u8,
        'e' as u8,
        's' as u8,
        's' as u8,
        'a' as u8,
        'g' as u8,
        'e' as u8,
    ]
}

/// The ASCII bytes of `Peer not found`, sent back when a message addresses
/// an unregistered peer.
pub open spec fn peer_not_found_notice() -> Seq<u8> {
    seq![
        'P' as u8,
        'e' as u8,
        'e' as u8,
        'r' as u8,
        ' ' as u8,
        'n' as u8,
        'o' as u8,
        't' as u8,
        ' ' as u8,
        'f' as u8,
        'o' as u8,
        'u' as u8,
        'n' as u8,
        'd' as u8,
    ]
}

/// The ASCII bytes of `Failed to send message`, sent back when the
/// destination's delivery channel would not accept the message.
pub open spec fn delivery_failed_notice() -> Seq<u8> {
    seq![
        'F' as u8,
        'a' as u8,
        'i' as u8,
        'l' as u8,
        'e' as u8,
        'd' as u8,
        ' ' as u8,
        't' as u8,
        'o' as u8,
        ' ' as u8,
        's' as u8,
        'e' as u8,
        'n' as u8,
        'd' as u8,
        ' ' as u8,
        'm' as u8,
        'e' as u8,
        's' as u8,
        's' as u8,
        'a' as u8,
        'g' as u8,
        'e' as u8,
    ]
}

/// What the inbound half does next with a connection.
pub enum InboundAction {
    /// Signal the stop and leave both halves: the connection is unusable.
    Stop,
    /// Write this control message back on the connection, then keep
    /// listening.
    Reply(RawMessage),
    /// Nothing to act on yet: keep listening.
    Ignore,
}

/// The decision for each extraction outcome: a closed or failed transport
/// stops the connection's two halves; a malformed frame earns the sender
/// an `Invalid message` control reply and the connection stays open; no
/// data yet is no event at all.
pub fn inbound_error_action(err: &ExtractError) -> (r: InboundAction)
    ensures
        err is IOError || err is Closed ==> r is Stop,
        err is NotReady ==> r is Ignore,
        err is InvalidMessage ==> (r matches InboundAction::Reply(f) && f.deep_view()
            == encode_frames(0, invalid_notice())),
{
    match err {
        ExtractError::IOError => InboundAction::Stop,
        ExtractError::Closed => InboundAction::Stop,
        ExtractError::NotReady => InboundAction::Ignore,
        ExtractError::InvalidMessage(_) => {
            let notice: Vec<u8> = vec![
                'I' as u8,
                'n' as u8,
                'v' as u8,
                'a' as u8,
                'l' as u8,
                'i' as u8,
                'd' as u8,
                ' ' as u8,
                'm' as u8,
                'e' as u8,
                's' as u8,
                's' as u8,
                'a' as u8,
                'g' as u8,
                'e' as u8,
            ];
            proof {
                assert(notice@ =~= invalid_notice());
            }
            let frames = Message::encode(0, &notice);
            InboundAction::Reply(frames)
        },
    }
}

/// The control reply sent to the source when routing failed: it names, in
/// words, whether the peer was unknown or the delivery channel refused.
/// Neither failure closes the source connection.
pub fn route_error_reply(err: &HandleMessageError) -> (r: RawMessage)
    ensures
        err is PeerNotFound ==> r.deep_view() == encode_frames(0, peer_not_found_notice()),
        err is SendChanError ==> r.deep_view() == encode_frames(0, delivery_failed_notice()),
{
    let notice: Vec<u8> = match err {
        HandleMessageError::PeerNotFound(_) => {
            let text: Vec<u8> = vec![
                'P' as u8,
                'e' as u8,
                'e' as u8,
                'r' as u8,
                ' ' as u8,
                'n' as u8,
                'o' as u8,
                't' as u8,
                ' ' as u8,
                'f' as u8,
                'o' as u8,
                'u' as u8,
                'n' as u8,
                'd' as u8,
            ];
            proof {
                assert(text@ =~= peer_not_found_notice());
            }
            text
        },
        HandleMessageError::SendChanError => {
            let text: Vec<u8> = vec![
                'F' as u8,
                'a' as u8,
                'i' as u8,
                'l' as u8,
                'e' as u8,
                'd' as u8,
                ' ' as u8,
                't' as u8,
                'o' as u8,
                ' ' as u8,
                's' as u8,
                'e' as u8,
                'n' as u8,
                'd' as u8,
                ' ' as u8,
                'm' as u8,
                'e' as u8,
                's' as u8,
                's' as u8,
                'a' as u8,
                'g' as u8,
                'e' as u8,
            ];
            proof {
                assert(text@ =~= delivery_failed_notice());
            }
            text
        },
    };
    Message::encode(0, &notice)
}

} // verus!
