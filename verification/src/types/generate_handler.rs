use vstd::prelude::*;

use crate::types::collection::Collection;
use crate::types::message::Message;
use crate::types::message_handler::MessageHandler;
use crate::types::message_response::MessageResponse;
use crate::types::node_info::NodeInfo;
use crate::types::packet::Packet;
use crate::types::payload::Payload;

verus! {

/// Replies to `generate` envelopes with a cluster-wide unique id.  The id is
/// `counter * |node_ids| + node_number`: as long as every node's number is
/// unique and below the node count, no two nodes can ever produce the same
/// id, and the strictly growing counter keeps one node from repeating
/// itself.
#[derive(Debug)]
pub struct GenerateHandler {
    pub counter: usize,
}

/// True when processing `packet` cannot overflow the generated id.
pub open spec fn generate_fits(h: GenerateHandler, packet: Packet, state: NodeInfo) -> bool {
    packet.body.payload is Generate ==> h.counter < usize::MAX && (h.counter + 1)
        * state.node_ids@.len() + state.node_number <= usize::MAX
}

/// What the generate handler yields for one envelope: for a `generate`
/// payload, one `generate_ok` reply carrying the id computed from the
/// incremented counter; nothing for anything else.
pub open spec fn generate_responses(
    pre: GenerateHandler,
    packet: Packet,
    state: NodeInfo,
    post: GenerateHandler,
    r: Seq<MessageResponse>,
) -> bool {
    match packet.body.payload {
        Payload::Generate => {
            &&& post.counter == pre.counter + 1
            &&& r.len() == 1
            &&& r[0] matches MessageResponse::NoAck { .. }
            &&& r[0]->NoAck_src is None
            &&& r[0]->NoAck_dest@ == packet.src@
            &&& r[0]->NoAck_in_reply_to == packet.body.msg_id
            &&& r[0]->NoAck_payload == Payload::GenerateOk {
                id: (post.counter * state.node_ids@.len() + state.node_number) as usize,
            }
        },
        _ => post == pre && r.len() == 0,
    }
}

impl MessageHandler for GenerateHandler {
    open spec fn ready(&self, packet: &Packet, state: &NodeInfo) -> bool {
        generate_fits(*self, *packet, *state)
    }

    fn handle_message(&mut self, packet: &Packet, state: &NodeInfo) -> (r: Collection<
        MessageResponse,
    >)
        ensures
            generate_responses(*old(self), *packet, *state, *final(self), r@),
    {
        if let Packet { src, body: Message { msg_id, payload: Payload::Generate, .. }, .. } =
            packet {
            self.counter = self.counter + 1;
            Collection::One(
                MessageResponse::NoAck {
                    src: Option::None,
                    dest: src.clone(),
                    in_reply_to: *msg_id,
                    payload: Payload::GenerateOk {
                        id: self.counter * state.node_ids.len() + state.node_number,
                    },
                },
            )
        } else {
            Collection::Empty
        }
    }
}

} // verus!
