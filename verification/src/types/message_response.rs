use vstd::prelude::*;

use crate::types::payload::Payload;

verus! {

/// What a handler asks the engine to send.  Handlers never build wire
/// envelopes themselves; the engine materializes these descriptors,
/// stamping an outbound sequence number where one is required.
#[derive(Debug, PartialEq, Eq)]
pub enum MessageResponse {
    /// An engine-constructed envelope without a sequence number.  A missing
    /// `src` defaults to the local node id.
    NoAck { src: Option<String>, dest: String, in_reply_to: Option<usize>, payload: Payload },
    /// An engine-constructed envelope that wants an acknowledgement: it is
    /// stamped from the destination peer's sequence counter and buffered
    /// until the matching acknowledgement arrives.
    Ack { src: Option<String>, dest: String, in_reply_to: Option<usize>, payload: Payload },
    /// A reply to the triggering envelope, without a sequence number.
    Response { payload: Payload },
    /// A reply to the triggering envelope that wants an acknowledgement.
    ResponseWithAck { payload: Payload },
}

} // verus!
