use vstd::prelude::*;

use crate::types::payload::Payload;

verus! {

/// One message body: an optional outbound sequence number, an optional echo
/// of the peer's sequence number, and the tagged payload.
#[derive(Debug, PartialEq, Eq)]
pub struct Message {
    pub msg_id: Option<usize>,
    pub in_reply_to: Option<usize>,
    pub payload: Payload,
}

} // verus!
