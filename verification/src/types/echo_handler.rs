use vstd::prelude::*;

use crate::types::collection::Collection;
use crate::types::message::Message;
use crate::types::message_handler::MessageHandler;
use crate::types::message_response::MessageResponse;
use crate::types::node_info::NodeInfo;
use crate::types::packet::Packet;
use crate::types::payload::Payload;

verus! {

/// Replies to `echo` envelopes with `echo_ok`, repeating the payload string
/// verbatim.
#[derive(Debug)]
pub struct EchoHandler {}

/// What the echo handler yields for one envelope: one `echo_ok` reply to the
/// sender for an `echo` payload, nothing for anything else.
pub open spec fn echo_responses(packet: Packet, r: Seq<MessageResponse>) -> bool {
    match packet.body.payload {
        Payload::Echo { echo } => {
            &&& r.len() == 1
            &&& r[0] matches MessageResponse::NoAck { .. }
            &&& r[0]->NoAck_src is None
            &&& r[0]->NoAck_dest@ == packet.src@
            &&& r[0]->NoAck_in_reply_to == packet.body.msg_id
            &&& (r[0]->NoAck_payload matches Payload::EchoOk { echo: e } && e@ == echo@)
        },
        _ => r.len() == 0,
    }
}

impl MessageHandler for EchoHandler {
    fn handle_message(&mut self, packet: &Packet, _state: &NodeInfo) -> (r: Collection<
        MessageResponse,
    >)
        ensures
            echo_responses(*packet, r@),
    {
        if let Packet { src, body: Message { msg_id, payload: Payload::Echo { echo }, .. }, .. } =
            packet {
            Collection::One(
                MessageResponse::NoAck {
                    src: Option::None,
                    dest: src.clone(),
                    in_reply_to: *msg_id,
                    payload: Payload::EchoOk { echo: echo.clone() },
                },
            )
        } else {
            Collection::Empty
        }
    }
}

} // verus!
