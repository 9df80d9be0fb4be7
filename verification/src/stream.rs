//! Stream reassembly: one logical message is rebuilt from consecutive
//! frames read off a connection, and the distinct transport-level outcomes
//! a reader reports.

use vstd::prelude::*;
use crate::codec::{Message, MessageModel, ParseError, parse_spec};

verus! {

/// Why no complete message could be extracted from a connection.
///
/// `NotReady` is a retry signal, not a failure. `Closed` covers a graceful
/// or abrupt disconnect. `IOError` is any other transport failure, fatal
/// for the connection.
#[derive(Debug)]
pub enum ExtractError {
    /// A frame failed to decode; the transmission in progress is abandoned.
    InvalidMessage(ParseError),
    /// No bytes are available yet; try again later.
    NotReady,
    /// Some other transport failure; fatal for this connection.
    IOError,
    /// The peer ended the connection.
    Closed,
}

/// Folds one raw frame into the accumulator of an in-progress logical
/// message: the frame's chunk is appended in order, and the accumulator
/// takes the frame's peer id, so a finished message carries the id of the
/// frame that terminated it. Returns `Ok(true)` when the frame completed
/// the message, `Ok(false)` when more frames must follow, and the decode
/// error, with the accumulator untouched, when the frame is malformed.
pub fn extract_step(acc: &mut Message, chunk: &Vec<u8>) -> (r: Result<bool, ParseError>)
    ensures
        r is Ok <==> parse_spec(chunk@) is Ok,
        r matches Ok(complete) ==> parse_spec(chunk@) matches Ok(m) && final(acc)@ == (
        MessageModel {
            peer: m.peer,
            content: old(acc)@.content + m.content,
            has_more: old(acc)@.has_more,
        }) && complete == !m.has_more,
        r matches Err(e) ==> parse_spec(chunk@) matches Err(ee) && e == ee && *final(acc)
            == *old(acc),
{
    match Message::parse(chunk) {
        Ok(m) => {
            acc.peer = m.peer;
            let mut more_content = m.content;
            acc.content.append(&mut more_content);
            Ok(!m.has_more)
        },
        Err(e) => Err(e),
    }
}

} // verus!
