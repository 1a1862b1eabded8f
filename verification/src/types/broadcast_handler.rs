use vstd::prelude::*;

use crate::types::collection::Collection;
use crate::types::helpers::clone_usize_vec;
use crate::types::message::Message;
use crate::types::message_handler::MessageHandler;
use crate::types::message_response::MessageResponse;
use crate::types::node_info::NodeInfo;
use crate::types::packet::Packet;
use crate::types::payload::Payload;
use crate::types::topology::{topo_adj, topo_has_key, topo_lookup};

verus! {

/// Stores broadcast values and forwards them along the derived broadcast
/// topology; answers `read` with the stored values.
#[derive(Debug)]
pub struct BroadcastHandler {
    pub messages: Vec<usize>,
}

/// One forwarded copy of a broadcast: an engine-constructed envelope from
/// `src` to `dest` carrying the value, with no sequence number of its own.
pub open spec fn forward_response(r: MessageResponse, src: Seq<char>, dest: Seq<char>, message: usize) -> bool {
    &&& r matches MessageResponse::NoAck { .. }
    &&& (r->NoAck_src matches Some(s) && s@ == src)
    &&& r->NoAck_dest@ == dest
    &&& r->NoAck_in_reply_to is None
    &&& r->NoAck_payload == Payload::Broadcast { message }
}

/// What the broadcast handler yields for one envelope.
///
/// A `broadcast` value is recorded, suppressing duplicates: the stored
/// values form a set, and a value that arrives again — over a second path,
/// say — is not stored twice.  When the sender has a forwarding entry
/// it is a server peer: the value is forwarded to that entry's targets on
/// the sender's behalf, so that downstream nodes keep using the original
/// source's forwarding set.  Otherwise the sender is a client: it gets
/// `broadcast_ok`, and the value is forwarded to this node's own targets.
/// A `read` is answered with the stored values.  Anything else yields
/// nothing.
pub open spec fn broadcast_responses(
    pre: BroadcastHandler,
    packet: Packet,
    state: NodeInfo,
    post: BroadcastHandler,
    r: Seq<MessageResponse>,
) -> bool {
    let bt = state.broadcast_topology@;
    match packet.body.payload {
        Payload::Broadcast { message } => {
            &&& post.messages@ == (if pre.messages@.contains(message) {
                pre.messages@
            } else {
                pre.messages@.push(message)
            })
            &&& if topo_has_key(bt, packet.src@) {
                let adj = topo_adj(bt, packet.src@);
                &&& r.len() == adj.len()
                &&& forall|i: int|
                    0 <= i < adj.len() ==> forward_response(r[i], packet.src@, adj[i]@, message)
            } else {
                let own = topo_adj(bt, state.node_id@);
                &&& r.len() == 1 + own.len()
                &&& r[0] matches MessageResponse::NoAck { .. }
                &&& r[0]->NoAck_src is None
                &&& r[0]->NoAck_dest@ == packet.src@
                &&& r[0]->NoAck_in_reply_to == packet.body.msg_id
                &&& r[0]->NoAck_payload is BroadcastOk
                &&& forall|i: int|
                    0 <= i < own.len() ==> forward_response(
                        r[i + 1],
                        state.node_id@,
                        own[i]@,
                        message,
                    )
            }
        },
        Payload::Read => {
            &&& post == pre
            &&& r.len() == 1
            &&& r[0] matches MessageResponse::NoAck { .. }
            &&& r[0]->NoAck_src is None
            &&& r[0]->NoAck_dest@ == packet.src@
            &&& r[0]->NoAck_in_reply_to == packet.body.msg_id
            &&& (r[0]->NoAck_payload matches Payload::ReadOk { messages } && messages@
                == pre.messages@)
        },
        _ => post == pre && r.len() == 0,
    }
}

impl MessageHandler for BroadcastHandler {
    fn handle_message(&mut self, packet: &Packet, state: &NodeInfo) -> (r: Collection<
        MessageResponse,
    >)
        ensures
            broadcast_responses(*old(self), *packet, *state, *final(self), r@),
    {
        match packet {
            Packet {
                src,
                body: Message { msg_id, payload: Payload::Broadcast { message }, .. },
                ..
            } => {
                if !crate::types::node_info::contains_usize(&self.messages, *message) {
                    self.messages.push(*message);
                }
                match topo_lookup(&state.broadcast_topology, src) {
                    // The sender is a server peer: forward on its behalf.
                    Some(nodes) => {
                        let ghost adj = topo_adj(state.broadcast_topology@, src@);
                        let mut responses: Vec<MessageResponse> = Vec::new();
                        let mut i: usize = 0;
                        while i < nodes.len()
                            invariant
                                0 <= i <= nodes@.len(),
                                nodes@.len() == adj.len(),
                                forall|j: int| 0 <= j < nodes@.len() ==> nodes@[j]@ == adj[j]@,
                                responses@.len() == i,
                                forall|j: int|
                                    0 <= j < i ==> forward_response(
                                        responses@[j],
                                        src@,
                                        adj[j]@,
                                        *message,
                                    ),
                            decreases nodes@.len() - i,
                        {
                            responses.push(
                                MessageResponse::NoAck {
                                    src: Option::Some(src.clone()),
                                    dest: nodes[i].clone(),
                                    in_reply_to: Option::None,
                                    payload: Payload::Broadcast { message: *message },
                                },
                            );
                            i = i + 1;
                        }
                        Collection::Multiple(responses)
                    },
                    // The sender is a client: acknowledge, then forward as
                    // ourselves.  A node whose forwarding map has no entry
                    // for itself simply forwards to nobody.
                    None => {
                        let ghost own = topo_adj(state.broadcast_topology@, state.node_id@);
                        let nodes = match topo_lookup(&state.broadcast_topology, &state.node_id) {
                            Some(nodes) => nodes,
                            None => Vec::new(),
                        };
                        let mut responses: Vec<MessageResponse> = Vec::new();
                        responses.push(
                            MessageResponse::NoAck {
                                src: Option::None,
                                dest: src.clone(),
                                in_reply_to: *msg_id,
                                payload: Payload::BroadcastOk,
                            },
                        );
                        let mut i: usize = 0;
                        while i < nodes.len()
                            invariant
                                0 <= i <= nodes@.len(),
                                nodes@.len() == own.len(),
                                forall|j: int| 0 <= j < nodes@.len() ==> nodes@[j]@ == own[j]@,
                                responses@.len() == 1 + i,
                                responses@[0] == (MessageResponse::NoAck {
                                    src: Option::<String>::None,
                                    dest: *src,
                                    in_reply_to: packet.body.msg_id,
                                    payload: Payload::BroadcastOk,
                                }),
                                forall|j: int|
                                    0 <= j < i ==> forward_response(
                                        responses@[j + 1],
                                        state.node_id@,
                                        own[j]@,
                                        *message,
                                    ),
                            decreases nodes@.len() - i,
                        {
                            responses.push(
                                MessageResponse::NoAck {
                                    src: Option::Some(state.node_id.clone()),
                                    dest: nodes[i].clone(),
                                    in_reply_to: Option::None,
                                    payload: Payload::Broadcast { message: *message },
                                },
                            );
                            i = i + 1;
                        }
                        Collection::Multiple(responses)
                    },
                }
            },
            Packet { src, body: Message { msg_id, payload: Payload::Read, .. }, .. } => {
                Collection::One(
                    MessageResponse::NoAck {
                        src: Option::None,
                        dest: src.clone(),
                        in_reply_to: *msg_id,
                        payload: Payload::ReadOk { messages: clone_usize_vec(&self.messages) },
                    },
                )
            },
            _ => Collection::Empty,
        }
    }
}

} // verus!
