use vstd::prelude::*;

use crate::types::collection::Collection;
use crate::types::message::Message;
use crate::types::message_handler::MessageHandler;
use crate::types::message_response::MessageResponse;
use crate::types::node_info::NodeInfo;
use crate::types::packet::Packet;
use crate::types::payload::Payload;

verus! {

/// Acknowledges `topology` envelopes with `topology_ok`.  The dispatch
/// engine answers topology envelopes itself, so this handler only matters
/// in assemblies that route them to the handler chain instead.
#[derive(Debug)]
pub struct TopologyHandler {}

/// What the topology handler yields for one envelope: one `topology_ok`
/// reply to the sender for a `topology` payload, nothing for anything else.
pub open spec fn topology_responses(packet: Packet, r: Seq<MessageResponse>) -> bool {
    match packet.body.payload {
        Payload::Topology { .. } => {
            &&& r.len() == 1
            &&& r[0] matches MessageResponse::NoAck { .. }
            &&& r[0]->NoAck_src is None
            &&& r[0]->NoAck_dest@ == packet.src@
            &&& r[0]->NoAck_in_reply_to == packet.body.msg_id
            &&& r[0]->NoAck_payload is TopologyOk
        },
        _ => r.len() == 0,
    }
}

impl MessageHandler for TopologyHandler {
    fn handle_message(&mut self, packet: &Packet, _state: &NodeInfo) -> (r: Collection<
        MessageResponse,
    >)
        ensures
            topology_responses(*packet, r@),
    {
        if let Packet { src, body: Message { msg_id, payload: Payload::Topology { .. }, .. }, .. } =
            packet {
            Collection::One(
                MessageResponse::NoAck {
                    src: Option::None,
                    dest: src.clone(),
                    in_reply_to: *msg_id,
                    payload: Payload::TopologyOk,
                },
            )
        } else {
            Collection::Empty
        }
    }
}

} // verus!
